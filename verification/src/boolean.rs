use vstd::prelude::*;

use crate::bitmap::{bitmap_bytes, bm_bit, lemma_bitmap_round_trip, push_bitmap, read_bitmap_bit};
use crate::bytes::{le_value_of, lemma_le_bytes_len, pow256, read_le};
use crate::codec::{codec_code, codec_of_code, Codec};
use crate::error::NativeError;
use crate::integer::{emit_frame, frame_seq, lemma_frame_fields, WriteOptions};
use crate::one_value::{ov_gate, ov_parse, ov_payload, ov_value, OneValue};
use crate::page::{masked_eq_bool, BooleanPage, PrimitivePage, PrimKind};
use crate::ratio::Ratio;
use crate::rle::{rle_parse, rle_payload, Rle};
use crate::stats::MAX_PAGE_LEN;

verus! {

/// The boolean page as one-byte storage: `true` is one, `false` is zero.
pub open spec fn bools_as_u64s(bools: Seq<bool>) -> Seq<u64> {
    Seq::new(bools.len(), |i: int| if bools[i] { 1u64 } else { 0u64 })
}

/// One flag per slot: is the slot both present and true?
pub open spec fn present_true(bools: Seq<bool>, valid: Seq<bool>) -> Seq<bool> {
    Seq::new(bools.len(), |i: int| bools[i] && valid[i])
}

/// `payload` is a valid encoding of the boolean page `(bools, valid)`
/// under `c`. The boolean catalog holds the generic codec (the packed
/// bitmap, one bit per slot), the run-length codec (one value byte and a
/// four-byte run length per run) and the one-value codec (a single byte).
pub open spec fn bool_payload(
    c: Codec,
    bools: Seq<bool>,
    valid: Seq<bool>,
    payload: Seq<u8>,
) -> bool {
    match c {
        Codec::Plain => payload == bitmap_bytes(bools),
        Codec::OneValue => valid.len() == bools.len() && ov_gate(bools_as_u64s(bools), valid)
            && payload == ov_payload(bools_as_u64s(bools), valid, 1),
        Codec::Rle => payload == rle_payload(bools_as_u64s(bools), 1),
        _ => false,
    }
}

/// `bytes` begins with a complete boolean frame: the codec identifier, the
/// payload length, the packed-bitmap plain length `⌈L/8⌉`, and the payload.
pub open spec fn bool_frame_encodes(
    c: Codec,
    bools: Seq<bool>,
    valid: Seq<bool>,
    payload: Seq<u8>,
    bytes: Seq<u8>,
) -> bool {
    &&& bool_payload(c, bools, valid, payload)
    &&& payload.len() < 0x1_0000_0000
    &&& bytes.len() >= 9 + payload.len()
    &&& exists|unc: nat|
        unc < 0x1_0000_0000 && bytes.subrange(0, 9 + payload.len() as int) == #[trigger] frame_seq(
            c,
            unc,
            payload,
        )
}

/// Whether `code` is an identifier of the boolean catalog: the generic
/// byte codecs, run-length, or one-value.
pub open spec fn bool_catalog(code: u8) -> bool {
    code == 0 || code == 1 || code == 2 || code == 3 || code == 10 || code == 12
}

/// The counts a boolean page summarizes to: rows, nulls, both value counts
/// over present slots, and the runs of the present subsequence (the
/// average run length in bitmap units is `rows / 8 / run_count`).
pub struct BooleanStats {
    pub rows: usize,
    pub null_count: usize,
    pub false_count: usize,
    pub true_count: usize,
    pub run_count: usize,
}

impl BooleanStats {
    /// What each field says about the page it was taken from. A zero count
    /// on either side is exactly the one-value codec's gate.
    pub open spec fn describes(self, page: BooleanPage) -> bool {
        let bools = page.values@;
        let valid = page.valid_seq();
        &&& self.rows == bools.len()
        &&& self.true_count == crate::stats::count_true(present_true(bools, valid))
        &&& self.null_count == bools.len() - crate::stats::count_true(valid)
        &&& self.true_count + self.false_count + self.null_count == bools.len()
        &&& self.run_count == crate::stats::runs_of(
            crate::stats::present_values(bools_as_u64s(bools), valid),
        )
        &&& (self.true_count == 0 || self.false_count == 0) == ov_gate(
            bools_as_u64s(bools),
            valid,
        )
    }
}

/// Computes the per-page boolean counts in one pass.
#[verifier::rlimit(100)]
#[verifier::spinoff_prover]
pub fn gen_boolean_stats(array: &BooleanPage) -> (r: BooleanStats)
    requires
        array.wf(),
        array.spec_len() <= MAX_PAGE_LEN,
    ensures
        r.describes(*array),
{
    let len: usize = array.values.len();
    let ghost vals01 = bools_as_u64s(array.values@);
    let ghost valid = array.valid_seq();
    let mut null_count: usize = 0;
    let mut true_count: usize = 0;
    let mut false_count: usize = 0;
    let mut run_count: usize = 0;
    let mut has_last: bool = false;
    let mut last_value: bool = false;
    let mut first_value: bool = false;
    let ghost mut first_idx: int = 0;
    let ghost mut bad_idx: int = 0;
    let mut i: usize = 0;
    proof {
        assert(vals01.take(0) =~= Seq::<u64>::empty());
        assert(valid.take(0) =~= Seq::<bool>::empty());
        assert(present_true(array.values@, valid).take(0) =~= Seq::<bool>::empty());
    }
    while i < len
        invariant
            array.wf(),
            vals01 == bools_as_u64s(array.values@),
            valid == array.valid_seq(),
            valid.len() == len == array.spec_len() <= MAX_PAGE_LEN,
            i <= len,
            true_count == crate::stats::count_true(
                present_true(array.values@, valid).take(i as int),
            ),
            null_count == i - crate::stats::count_true(valid.take(i as int)),
            true_count + false_count + null_count == i,
            run_count <= i,
            run_count == crate::stats::runs_of(
                crate::stats::present_values(vals01.take(i as int), valid.take(i as int)),
            ),
            has_last == (crate::stats::present_values(
                vals01.take(i as int),
                valid.take(i as int),
            ).len() > 0),
            has_last ==> (if last_value {
                1u64
            } else {
                0u64
            }) == crate::stats::present_values(
                vals01.take(i as int),
                valid.take(i as int),
            ).last(),
            !has_last ==> forall|t: int| 0 <= t < i ==> !valid[t],
            !has_last ==> true_count == 0 && false_count == 0,
            has_last ==> 0 <= first_idx < i && valid[first_idx] && array.values@[first_idx]
                == first_value && (forall|t: int| 0 <= t < first_idx ==> !valid[t]),
            has_last ==> (if first_value {
                true_count > 0
            } else {
                false_count > 0
            }),
            (true_count == 0 || false_count == 0) ==> forall|t: int|
                0 <= t < i && valid[t] ==> array.values@[t] == first_value,
            !(true_count == 0 || false_count == 0) ==> has_last && 0 <= bad_idx < i
                && valid[bad_idx] && array.values@[bad_idx] != first_value,
        decreases len - i,
    {
        let v: bool = array.values[i];
        let present: bool = array.is_present(i);
        let ghost ps = crate::stats::present_values(vals01.take(i as int), valid.take(i as int));
        let ghost ps1 = crate::stats::present_values(vals01.take(i + 1), valid.take(i + 1));
        proof {
            assert(vals01.take(i + 1).drop_last() =~= vals01.take(i as int));
            assert(valid.take(i + 1).drop_last() =~= valid.take(i as int));
            assert(present_true(array.values@, valid).take(i + 1).drop_last() =~= present_true(
                array.values@,
                valid,
            ).take(i as int));
            assert(vals01.take(i + 1).last() == (if v {
                1u64
            } else {
                0u64
            }));
        }
        if present {
            proof {
                assert(ps1 =~= ps.push(
                    if v {
                        1u64
                    } else {
                        0u64
                    },
                ));
                if ps.len() > 0 {
                    assert(ps1.drop_last() =~= ps);
                    assert(ps1[ps1.len() - 2] == ps.last());
                }
            }
            if v {
                true_count = true_count + 1;
            } else {
                false_count = false_count + 1;
            }
            if !has_last || v != last_value {
                run_count = run_count + 1;
            }
            if !has_last {
                first_value = v;
                proof {
                    first_idx = i as int;
                }
            } else {
                if v != first_value {
                    proof {
                        bad_idx = i as int;
                    }
                }
            }
            has_last = true;
            last_value = v;
        } else {
            proof {
                assert(ps1 =~= ps);
            }
            null_count = null_count + 1;
        }
        i = i + 1;
    }
    proof {
        assert(vals01.take(len as int) =~= vals01);
        assert(valid.take(len as int) =~= valid);
        assert(present_true(array.values@, valid).take(len as int) =~= present_true(
            array.values@,
            valid,
        ));
        if has_last {
            crate::one_value::lemma_ov_value_first(vals01, valid, first_idx);
        } else {
            crate::one_value::lemma_ov_value_none(vals01, valid);
        }
        if true_count == 0 || false_count == 0 {
            assert forall|t: int|
                0 <= t < len && valid[t] implies vals01[t] == crate::one_value::ov_value(
                vals01,
                valid,
            ) by {
                assert(array.values@[t] == first_value);
            }
            assert(ov_gate(vals01, valid));
        } else {
            assert(vals01[bad_idx] != crate::one_value::ov_value(vals01, valid));
            assert(!ov_gate(vals01, valid));
        }
    }
    BooleanStats { rows: len, null_count, false_count, true_count, run_count }
}

/// The boolean page as a one-byte-per-slot primitive page.
pub fn boolean_as_page(array: &BooleanPage) -> (r: PrimitivePage)
    requires
        array.wf(),
    ensures
        r.wf(),
        r.kind == PrimKind::U8,
        r.values@ == bools_as_u64s(array.values@),
        r.valid_seq() == array.valid_seq(),
{
    let len: usize = array.values.len();
    let mut vals: Vec<u64> = Vec::new();
    let mut i: usize = 0;
    while i < len
        invariant
            array.wf(),
            i <= len == array.spec_len(),
            vals@.len() == i,
            forall|t: int| 0 <= t < i ==> #[trigger] vals@[t] == bools_as_u64s(array.values@)[t],
        decreases len - i,
    {
        let v: bool = array.values[i];
        vals.push(
            if v {
                1u64
            } else {
                0u64
            },
        );
        i = i + 1;
    }
    let validity: Option<Vec<bool>> = match &array.validity {
        Some(bm) => {
            let mut copy: Vec<bool> = Vec::new();
            let mut j: usize = 0;
            let n: usize = bm.len();
            while j < n
                invariant
                    j <= n == bm@.len(),
                    copy@ == bm@.take(j as int),
                decreases n - j,
            {
                copy.push(bm[j]);
                proof {
                    assert(copy@ =~= bm@.take(j + 1));
                }
                j = j + 1;
            }
            proof {
                assert(copy@ =~= bm@);
            }
            Some(copy)
        },
        None => None,
    };
    let r = PrimitivePage { kind: PrimKind::U8, values: vals, validity };
    proof {
        assert(r.values@ =~= bools_as_u64s(array.values@));
        crate::bytes::lemma_pow256_values();
        assert(r.valid_seq() =~= array.valid_seq());
    }
    r
}

/// Compresses one boolean page into a self-describing frame whose plain
/// length field is the packed-bitmap size `⌈L/8⌉`. The candidates are the
/// one-value and run-length codecs, in that order; with no threshold, or
/// when neither beats it, the packed bitmap goes out unchanged.
#[verifier::rlimit(100)]
#[verifier::spinoff_prover]
pub fn compress_boolean(
    array: &BooleanPage,
    buf: &mut Vec<u8>,
    write_options: &WriteOptions,
) -> (r: Result<(), NativeError>)
    requires
        array.wf(),
        array.spec_len() <= MAX_PAGE_LEN,
        write_options.wf(),
    ensures
        match r {
            Ok(()) => exists|c: Codec, payload: Seq<u8>|
                {
                    &&& #[trigger] bool_payload(c, array.values@, array.valid_seq(), payload)
                    &&& !write_options.forbidden_compressions@.contains(c)
                    &&& payload.len() < 0x1_0000_0000
                    &&& final(buf)@ == old(buf)@ + frame_seq(
                        c,
                        (array.spec_len() + 7) / 8,
                        payload,
                    )
                },
            Err(e) => false,
        },
        // the one-value gate with a beaten threshold pins the choice
        (match write_options.default_compress_ratio {
            Some(th) => !write_options.forbidden_compressions@.contains(Codec::OneValue)
                && array.spec_len() > 0 && ov_gate(bools_as_u64s(array.values@), array.valid_seq())
                && array.spec_len() * th.den > th.num,
            None => false,
        }) ==> r is Ok && final(buf)@.len() > old(buf)@.len() && final(buf)@[old(buf)@.len() as int]
            == codec_code(Codec::OneValue),
        // a chosen run-length frame beat the threshold with its own
        // predicted ratio, the run count in bitmap units
        (match write_options.default_compress_ratio {
            Some(th) => final(buf)@.len() > old(buf)@.len() && final(buf)@[old(buf)@.len() as int]
                == codec_code(Codec::Rle) ==> (Ratio {
                num: crate::stats::runs_of(
                    crate::stats::present_values(
                        bools_as_u64s(array.values@),
                        array.valid_seq(),
                    ),
                ) as u64,
                den: 1,
            }).spec_gt(th),
            None => true,
        }),
        // without a threshold the packed bitmap goes out under the generic
        // identifier
        write_options.default_compress_ratio is None ==> r is Ok && final(buf)@ == old(buf)@
            + frame_seq(
            Codec::Plain,
            (array.spec_len() + 7) / 8,
            crate::bitmap::bitmap_bytes(array.values@),
        ),
{
    let stats: BooleanStats = gen_boolean_stats(array);
    let threshold: Option<Ratio> = match &write_options.default_compress_ratio {
        Some(t) => Some(*t),
        None => None,
    };
    let mut best: Codec = Codec::Plain;
    match threshold {
        Some(th) => {
            let mut max_ratio: Ratio = th;
            // one-value first: a single byte for a uniform present set
            if !write_options.is_forbidden(Codec::OneValue) && stats.rows > 0 && (stats.true_count
                == 0 || stats.false_count == 0) {
                let rv: Ratio = Ratio::of(stats.rows as u64, 1);
                if rv.gt(&max_ratio) {
                    max_ratio = rv;
                    best = Codec::OneValue;
                }
            }
            // run length second, with the ratio in bitmap units
            if !matches!(best, Codec::OneValue) && !write_options.is_forbidden(Codec::Rle)
                && stats.run_count > 0 {
                let rr: Ratio = Ratio::of(stats.run_count as u64, 1);
                if rr.gt(&max_ratio) {
                    max_ratio = rr;
                    best = Codec::Rle;
                }
            }
        },
        None => {},
    }
    let len: usize = array.values.len();
    let ghost bools = array.values@;
    let ghost valid = array.valid_seq();
    let mut payload: Vec<u8> = Vec::new();
    match best {
        Codec::OneValue => {
            let page01: PrimitivePage = boolean_as_page(array);
            OneValue {}.compress(&page01, &mut payload);
        },
        Codec::Rle => {
            let page01: PrimitivePage = boolean_as_page(array);
            Rle {}.compress(&page01, &mut payload);
            proof {
                assert(len * (1 + 4) <= 5 * len) by (nonlinear_arith);
            }
        },
        _ => {
            push_bitmap(&array.values, &mut payload);
        },
    }
    let ghost pseq = payload@;
    let ghost chosen = best;
    proof {
        assert(pseq.len() < 0x1_0000_0000);
        assert((len + 7) / 8 < 0x1_0000_0000);
        assert(bool_payload(chosen, bools, valid, pseq));
    }
    emit_frame(best, payload, ((len + 7) / 8) as u64, buf);
    proof {
        assert(bool_payload(chosen, bools, valid, pseq) && !write_options.forbidden_compressions@.contains(chosen)
            && pseq.len() < 0x1_0000_0000 && buf@ == old(buf)@ + frame_seq(
            chosen,
            (array.spec_len() + 7) / 8,
            pseq,
        ));
        lemma_le_bytes_len(pseq.len(), 4);
        assert(buf@[old(buf)@.len() as int] == codec_code(chosen));
        crate::codec::lemma_codec_code_injective(chosen, Codec::Rle);
        match write_options.default_compress_ratio {
            Some(th) => {
                if chosen == Codec::Rle {
                    assert((Ratio { num: stats.run_count as u64, den: 1 }).spec_gt(th));
                }
            },
            None => {},
        }
    }
    Ok(())
}

/// Decodes one boolean frame lying at `input[pos..]` into `length` slots
/// appended to `output`; returns the position after the frame. Only the
/// boolean catalog is accepted: the generic identifiers, run-length and
/// one-value; any other identifier is an unknown codec here.
#[verifier::rlimit(100)]
#[verifier::spinoff_prover]
pub fn decompress_boolean(
    input: &[u8],
    pos: usize,
    length: usize,
    output: &mut Vec<bool>,
) -> (r: Result<usize, NativeError>)
    requires
        pos <= input@.len(),
        length <= MAX_PAGE_LEN,
    ensures
        forall|c: Codec, bools: Seq<bool>, valid: Seq<bool>, payload: Seq<u8>|
            bools.len() == length && #[trigger] bool_frame_encodes(
                c,
                bools,
                valid,
                payload,
                input@.skip(pos as int),
            ) ==> r == Ok::<usize, NativeError>((pos + 9 + payload.len()) as usize)
                && masked_eq_bool(final(output)@.skip(old(output)@.len() as int), bools, valid)
                && (c != Codec::OneValue ==> final(output)@ == old(output)@ + bools),
        input@.len() - pos < 9 ==> r == Err::<usize, NativeError>(NativeError::Truncated),
        input@.len() - pos >= 9 && !bool_catalog(input@[pos as int]) ==> r == Err::<
            usize,
            NativeError,
        >(NativeError::UnknownCodec),
        match r {
            Ok(np) => {
                &&& pos + 9 <= np <= input@.len()
                &&& np == pos + 9 + le_value_of(
                    input@.subrange((pos + 1) as int, (pos + 5) as int),
                )
                &&& final(output)@.len() == old(output)@.len() + length
                &&& final(output)@.take(old(output)@.len() as int) == old(output)@
            },
            Err(e) => final(output)@ == old(output)@ && (e == NativeError::Truncated || e
                == NativeError::UnknownCodec || e == NativeError::InvalidPayload),
        },
{
    let n: usize = input.len();
    let ghost bytes = input@.skip(pos as int);
    if n - pos < 9 {
        return Err(NativeError::Truncated);
    }
    let code: u8 = input[pos];
    let csize64: u64 = read_le(input, pos + 1, 4);
    proof {
        crate::bytes::lemma_pow256_values();
        assert(bytes[0] == input@[pos as int]);
        assert(input@.subrange((pos + 1) as int, (pos + 5) as int) =~= bytes.subrange(1, 5));
    }
    // the boolean catalog: generic ids, run length, one value
    if !(code == 0 || code == 1 || code == 2 || code == 3 || code == 10 || code == 12) {
        proof {
            lemma_no_bool_frame(bytes, length as nat, code);
        }
        return Err(NativeError::UnknownCodec);
    }
    if code == 1 || code == 2 || code == 3 {
        // reserved block-codec identifiers that this build does not provide
        proof {
            lemma_no_bool_frame(bytes, length as nat, code);
        }
        return Err(NativeError::InvalidPayload);
    }
    let csize: usize = csize64 as usize;
    if n - pos - 9 < csize {
        proof {
            assert forall|c: Codec, bools: Seq<bool>, valid: Seq<bool>, payload: Seq<u8>|
                bools.len() == length && #[trigger] bool_frame_encodes(
                    c,
                    bools,
                    valid,
                    payload,
                    bytes,
                ) implies false by {
                lemma_frame_fields(bytes, c, payload);
            }
        }
        return Err(NativeError::Truncated);
    }
    let ghost payload_actual = input@.subrange((pos + 9) as int, (pos + 9 + csize) as int);
    proof {
        assert(payload_actual =~= bytes.subrange(9, 9 + csize as int));
    }
    let mut decoded: Vec<bool> = Vec::new();
    if code == 0 {
        // the packed bitmap
        if csize != (length + 7) / 8 {
            proof {
                assert forall|c: Codec, bools: Seq<bool>, valid: Seq<bool>, payload: Seq<u8>|
                    bools.len() == length && #[trigger] bool_frame_encodes(
                        c,
                        bools,
                        valid,
                        payload,
                        bytes,
                    ) implies false by {
                    lemma_frame_fields(bytes, c, payload);
                    crate::codec::lemma_codec_code_injective(c, Codec::Plain);
                    assert(payload.len() == (length + 7) / 8) by {
                        assert(bitmap_bytes(bools).len() == (length + 7) / 8);
                    }
                }
            }
            return Err(NativeError::InvalidPayload);
        }
        let mut i: usize = 0;
        while i < length
            invariant
                i <= length <= MAX_PAGE_LEN,
                pos + 9 + csize <= n == input@.len(),
                csize == (length + 7) / 8,
                decoded@.len() == i,
                forall|t: int|
                    0 <= t < i ==> #[trigger] decoded@[t] == bm_bit(
                        input@.skip((pos + 9) as int),
                        t,
                    ),
            decreases length - i,
        {
            proof {
                assert(i / 8 < csize);
            }
            let b: bool = read_bitmap_bit(input, pos + 9, i);
            decoded.push(b);
            i = i + 1;
        }
        proof {
            assert forall|c: Codec, bools: Seq<bool>, valid: Seq<bool>, payload: Seq<u8>|
                bools.len() == length && #[trigger] bool_frame_encodes(
                    c,
                    bools,
                    valid,
                    payload,
                    bytes,
                ) implies payload.len() == csize && decoded@ == bools by {
                lemma_frame_fields(bytes, c, payload);
                crate::codec::lemma_codec_code_injective(c, Codec::Plain);
                assert(payload == payload_actual);
                assert(decoded@ =~= bools) by {
                    assert forall|t: int| 0 <= t < length implies decoded@[t] == bools[t] by {
                        lemma_bitmap_round_trip(bools, t);
                        assert(bm_bit(input@.skip((pos + 9) as int), t) == bm_bit(payload, t)) by {
                            assert(input@.skip((pos + 9) as int)[t / 8] == input@[pos + 9 + t / 8]);
                            assert(payload_actual[t / 8] == input@[pos + 9 + t / 8]);
                        }
                    }
                }
            }
        }
    } else if code == 12 {
        let mut raw: Vec<u64> = Vec::new();
        match (OneValue {}).decompress(input, pos + 9, csize, length, 1, &mut raw) {
            Ok(()) => {},
            Err(e) => {
                proof {
                    assert forall|c: Codec, bools: Seq<bool>, valid: Seq<bool>, payload: Seq<u8>|
                        bools.len() == length && #[trigger] bool_frame_encodes(
                            c,
                            bools,
                            valid,
                            payload,
                            bytes,
                        ) implies false by {
                        lemma_frame_fields(bytes, c, payload);
                        crate::codec::lemma_codec_code_injective(c, Codec::OneValue);
                        assert(payload == payload_actual);
                        lemma_bools01_in_width(bools);
                        crate::one_value::lemma_ov_round_trip(bools_as_u64s(bools), valid, 1);
                    }
                }
                return Err(e);
            },
        }
        let mut i: usize = 0;
        while i < length
            invariant
                i <= length,
                raw@.len() == length,
                decoded@.len() == i,
                forall|t: int| 0 <= t < i ==> #[trigger] decoded@[t] == (raw@[t] != 0),
            decreases length - i,
        {
            let v: u64 = raw[i];
            decoded.push(v != 0);
            i = i + 1;
        }
        proof {
            assert forall|c: Codec, bools: Seq<bool>, valid: Seq<bool>, payload: Seq<u8>|
                bools.len() == length && #[trigger] bool_frame_encodes(
                    c,
                    bools,
                    valid,
                    payload,
                    bytes,
                ) implies payload.len() == csize && masked_eq_bool(decoded@, bools, valid) by {
                lemma_frame_fields(bytes, c, payload);
                crate::codec::lemma_codec_code_injective(c, Codec::OneValue);
                assert(payload == payload_actual);
                lemma_bools01_in_width(bools);
                crate::one_value::lemma_ov_round_trip(bools_as_u64s(bools), valid, 1);
                let ov = ov_value(bools_as_u64s(bools), valid);
                assert(raw@ == Seq::new(length as nat, |t: int| ov));
                assert forall|t: int| 0 <= t < length && valid[t] implies decoded@[t] == bools[
                    t
                ] by {
                    assert(bools_as_u64s(bools)[t] == ov);
                    assert(decoded@[t] == (raw@[t] != 0));
                }
            }
        }
    } else {
        let mut raw: Vec<u64> = Vec::new();
        match (Rle {}).decompress(input, pos + 9, csize, length, 1, &mut raw) {
            Ok(()) => {},
            Err(e) => {
                proof {
                    assert forall|c: Codec, bools: Seq<bool>, valid: Seq<bool>, payload: Seq<u8>|
                        bools.len() == length && #[trigger] bool_frame_encodes(
                            c,
                            bools,
                            valid,
                            payload,
                            bytes,
                        ) implies false by {
                        lemma_frame_fields(bytes, c, payload);
                        crate::codec::lemma_codec_code_injective(c, Codec::Rle);
                        assert(payload == payload_actual);
                        lemma_bools01_in_width(bools);
                        crate::rle::lemma_rle_round_trip(bools_as_u64s(bools), 1);
                    }
                }
                return Err(e);
            },
        }
        let mut i: usize = 0;
        while i < length
            invariant
                i <= length,
                raw@.len() == length,
                decoded@.len() == i,
                forall|t: int| 0 <= t < i ==> #[trigger] decoded@[t] == (raw@[t] != 0),
            decreases length - i,
        {
            let v: u64 = raw[i];
            decoded.push(v != 0);
            i = i + 1;
        }
        proof {
            assert forall|c: Codec, bools: Seq<bool>, valid: Seq<bool>, payload: Seq<u8>|
                bools.len() == length && #[trigger] bool_frame_encodes(
                    c,
                    bools,
                    valid,
                    payload,
                    bytes,
                ) implies payload.len() == csize && decoded@ == bools by {
                lemma_frame_fields(bytes, c, payload);
                crate::codec::lemma_codec_code_injective(c, Codec::Rle);
                assert(payload == payload_actual);
                lemma_bools01_in_width(bools);
                crate::rle::lemma_rle_round_trip(bools_as_u64s(bools), 1);
                assert(raw@ == bools_as_u64s(bools));
                assert(decoded@ =~= bools) by {
                    assert forall|t: int| 0 <= t < length implies decoded@[t] == bools[t] by {
                        assert(decoded@[t] == (raw@[t] != 0));
                        assert(bools_as_u64s(bools)[t] == raw@[t]);
                    }
                }
            }
        }
    }
    let ghost dec = decoded@;
    let ghost orig = output@;
    output.append(&mut decoded);
    proof {
        assert(output@.take(orig.len() as int) =~= orig);
        assert(output@.skip(orig.len() as int) =~= dec);
        assert forall|c: Codec, bools: Seq<bool>, valid: Seq<bool>, payload: Seq<u8>|
            bools.len() == length && #[trigger] bool_frame_encodes(
                c,
                bools,
                valid,
                payload,
                bytes,
            ) implies masked_eq_bool(output@.skip(orig.len() as int), bools, valid) && (c
            != Codec::OneValue ==> output@ == orig + bools) && payload.len() == csize by {
            lemma_frame_fields(bytes, c, payload);
            if c != Codec::OneValue {
                assert(dec == bools);
                assert(output@ =~= orig + bools);
                assert(masked_eq_bool(dec, bools, valid));
            }
        }
    }
    Ok(pos + 9 + csize)
}

/// The one-byte image of a boolean page fits one byte.
proof fn lemma_bools01_in_width(bools: Seq<bool>)
    ensures
        forall|i: int|
            0 <= i < bools.len() ==> ((#[trigger] bools_as_u64s(bools)[i]) as nat) < pow256(1),
        bools_as_u64s(bools).len() == bools.len(),
{
    crate::bytes::lemma_pow256_values();
}

/// No boolean frame starts with an identifier outside the boolean catalog,
/// or with a reserved block-codec identifier.
proof fn lemma_no_bool_frame(bytes: Seq<u8>, length: nat, code: u8)
    requires
        bytes.len() >= 9,
        bytes[0] == code,
        length <= MAX_PAGE_LEN,
        code != 0 && code != 10 && code != 12,
    ensures
        forall|c: Codec, bools: Seq<bool>, valid: Seq<bool>, payload: Seq<u8>|
            bools.len() == length && #[trigger] bool_frame_encodes(c, bools, valid, payload, bytes)
                ==> false,
{
    assert forall|c: Codec, bools: Seq<bool>, valid: Seq<bool>, payload: Seq<u8>|
        bools.len() == length && #[trigger] bool_frame_encodes(
            c,
            bools,
            valid,
            payload,
            bytes,
        ) implies false by {
        assert((bools.len() + 7) / 8 < 0x1_0000_0000);
        lemma_frame_fields(bytes, c, payload);
        assert(codec_code(c) == code);
    }
}

} // verus!
