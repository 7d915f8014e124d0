use vstd::prelude::*;

use crate::basic::{compress_plain, decompress_plain, plain_parse, plain_payload};
use crate::bp::{bp_encodes, Bitpacking};
use crate::bytes::{le_bytes_of, le_value_of, lemma_le_bytes_len, lemma_le_bytes_value,
    lemma_pow256_values, pow256, push_le, read_le};
use crate::codec::{codec_code, codec_of_code, is_generic, Codec};
use crate::delta::{delta_parse, delta_payload, Delta};
use crate::delta_bp::{dbp_encodes, DeltaBitpacking};
use crate::error::NativeError;
use crate::freq::{freq_parse, freq_payload, Freq};
use crate::one_value::{ov_gate, ov_parse, ov_payload, ov_value, OneValue};
use crate::page::{as_ordered, kind_bound, kind_width, masked_eq, PrimKind, PrimitivePage};
use crate::ratio::Ratio;
use crate::rle::{rle_parse, rle_payload, Rle};
use crate::stats::{count_eq, gen_stats, IntegerStats, MAX_PAGE_LEN};

verus! {

/// How many strided samples the cost estimator takes, and how many values
/// each sample holds.
pub const SAMPLE_COUNT: usize = 10;

pub const SAMPLE_SIZE: usize = 64;

/// The caller's writing options: the always-available generic codec, the
/// optional ratio threshold that enables the specialized codecs, an advisory
/// page size, and the codecs that must never be chosen.
pub struct WriteOptions {
    pub default_compression: Codec,
    pub default_compress_ratio: Option<Ratio>,
    pub max_page_size: Option<usize>,
    pub forbidden_compressions: Vec<Codec>,
}

impl WriteOptions {
    /// Well-formed options name the provided generic codec as the default,
    /// do not forbid it, and carry a well-formed threshold. The catalog
    /// reserves identifiers for three more block codecs, but this build
    /// supplies none of them, so they are refused here rather than at
    /// write time.
    pub open spec fn wf(self) -> bool {
        &&& self.default_compression == Codec::Plain
        &&& !self.forbidden_compressions@.contains(self.default_compression)
        &&& match self.default_compress_ratio {
            Some(r) => r.wf(),
            None => true,
        }
    }

    /// Decides whether `c` is forbidden.
    pub fn is_forbidden(&self, c: Codec) -> (r: bool)
        ensures
            r == self.forbidden_compressions@.contains(c),
    {
        let mut i: usize = 0;
        let n: usize = self.forbidden_compressions.len();
        while i < n
            invariant
                i <= n == self.forbidden_compressions@.len(),
                forall|t: int| 0 <= t < i ==> self.forbidden_compressions@[t] != c,
            decreases n - i,
        {
            if self.forbidden_compressions[i] == c {
                return true;
            }
            i = i + 1;
        }
        false
    }
}

/// The bytes of one page frame: the codec identifier, the payload length,
/// the plain byte length of the page, and the payload itself.
pub open spec fn frame_seq(c: Codec, uncompressed: nat, payload: Seq<u8>) -> Seq<u8> {
    seq![codec_code(c)] + le_bytes_of(payload.len(), 4) + le_bytes_of(uncompressed, 4) + payload
}

/// Whether every pattern of `vals` fits in `w` bytes.
pub open spec fn in_width(vals: Seq<u64>, w: nat) -> bool {
    forall|i: int| 0 <= i < vals.len() ==> ((#[trigger] vals[i]) as nat) < pow256(w)
}

/// `payload` is a valid encoding of the page `(vals, valid)` under the
/// codec `c`, for every codec except the dictionary. Only the one-value
/// codec reads the validity: it stores the first present value and is
/// gated on every present slot holding it.
pub open spec fn int_payload_nodict(
    c: Codec,
    vals: Seq<u64>,
    valid: Seq<bool>,
    w: nat,
    payload: Seq<u8>,
) -> bool {
    match c {
        Codec::Plain => in_width(vals, w) && payload == plain_payload(vals, w),
        Codec::OneValue => in_width(vals, w) && valid.len() == vals.len() && ov_gate(vals, valid)
            && payload == ov_payload(vals, valid, w),
        Codec::Rle => in_width(vals, w) && payload == rle_payload(vals, w),
        Codec::Freq => in_width(vals, w) && (exists|f: u64| payload == freq_payload(vals, w, f)),
        Codec::Delta => in_width(vals, w) && payload == delta_payload(vals, w),
        Codec::Bitpacking => w == 4 && bp_encodes(vals, vals.len(), payload),
        Codec::DeltaBitpacking => w == 4 && dbp_encodes(vals, vals.len(), payload),
        _ => false,
    }
}

/// What a decoded non-dictionary frame holds: exactly the storage slots,
/// except the one-value codec, which fills every slot with the stored
/// value (present slots agree by its gate).
pub open spec fn int_decoded_nodict(c: Codec, vals: Seq<u64>, valid: Seq<bool>) -> Seq<u64> {
    if c == Codec::OneValue {
        Seq::new(vals.len(), |i: int| ov_value(vals, valid))
    } else {
        vals
    }
}

/// `bytes` begins with a complete frame that encodes `vals` with a
/// non-dictionary codec. The plain-length field is advisory, so any value
/// of it makes a valid frame.
pub open spec fn frame_encodes_nodict(
    c: Codec,
    vals: Seq<u64>,
    valid: Seq<bool>,
    w: nat,
    payload: Seq<u8>,
    bytes: Seq<u8>,
) -> bool {
    &&& int_payload_nodict(c, vals, valid, w, payload)
    &&& payload.len() < 0x1_0000_0000
    &&& vals.len() * w < 0x1_0000_0000
    &&& bytes.len() >= 9 + payload.len()
    &&& exists|unc: nat|
        unc < 0x1_0000_0000 && bytes.subrange(0, 9 + payload.len() as int) == #[trigger] frame_seq(
            c,
            unc,
            payload,
        )
}

/// The one eligibility predicate of each specialized codec, stated over the
/// page itself.
pub open spec fn int_eligible(c: Codec, page: PrimitivePage) -> bool {
    let vals = page.values@;
    let valid = page.valid_seq();
    let w = kind_width(page.kind);
    match c {
        Codec::OneValue => vals.len() > 0 && ov_gate(vals, valid),
        Codec::Rle => vals.len() > 0,
        Codec::Dict => vals.to_set().len() * 3 < vals.len(),
        Codec::Freq => vals.len() > 0 && (exists|f: u64| 10 * count_eq(vals, f) >= 9 * vals.len()),
        Codec::Bitpacking => w == 4 && vals.len() > 0 && vals.len() % 128 == 0 && (forall|i: int|
            0 <= i < vals.len() ==> as_ordered(page.kind, #[trigger] vals[i]) >= 0),
        Codec::Delta => vals.len() > 0 && (crate::stats::present_sorted(page.kind, vals, valid)
            || (forall|i: int, j: int|
                0 <= i < vals.len() && 0 <= j < vals.len() ==> (as_ordered(
                    page.kind,
                    #[trigger] vals[i],
                ) - as_ordered(page.kind, #[trigger] vals[j])) * 256 < pow256(w))),
        Codec::DeltaBitpacking => w == 4 && vals.len() > 0 && vals.len() % 128 == 0,
        _ => false,
    }
}

/// Relies on `rand::thread_rng` and `rand::Rng::gen_range`: a uniformly
/// drawn number below `bound`. Nothing more is assumed of the outcome.
#[verifier::external_body]
fn random_below(bound: u64) -> (r: u64)
    requires
        bound > 0,
    ensures
        r < bound,
{
    <rand::rngs::ThreadRng as rand::Rng>::gen_range(&mut rand::thread_rng(), 0..bound)
}

/// The spec-level payload size of a sampled codec on a page.
pub open spec fn sampled_payload_len(c: Codec, vals: Seq<u64>, w: nat) -> nat {
    if c == Codec::Delta {
        delta_payload(vals, w).len()
    } else if c == Codec::Bitpacking {
        crate::bp::bp_payload(crate::bp::as_u32s(vals)).len()
    } else {
        crate::delta_bp::dbp_payload(crate::delta_bp::deltas32(crate::bp::as_u32s(vals))).len()
    }
}

/// A sampled codec writes at least one payload byte for a non-empty page.
proof fn lemma_sampled_payload_pos(c: Codec, vals: Seq<u64>, w: nat)
    requires
        vals.len() > 0,
        c == Codec::Delta || c == Codec::Bitpacking || c == Codec::DeltaBitpacking,
        c == Codec::Bitpacking || c == Codec::DeltaBitpacking ==> vals.len() >= 128,
    ensures
        sampled_payload_len(c, vals, w) >= 1,
{
    if c == Codec::Delta {
        let z = crate::delta::zigzag(
            crate::delta::delta_at(vals, vals.len() - 1, pow256(w)),
            pow256(w),
        );
        assert(crate::delta::varint_of(z).len() >= 1) by {
            if z < 128 {
                assert(crate::delta::varint_of(z) == seq![z as u8]);
            }
        }
        assert(delta_payload(vals, w).len() >= crate::delta::varint_of(z).len());
    } else if c == Codec::Bitpacking {
        let v32 = crate::bp::as_u32s(vals);
        assert(v32.len() >= 128);
        assert(crate::bp::bp_payload(v32).len() >= 1);
    } else if c == Codec::DeltaBitpacking {
        let ds = crate::delta_bp::deltas32(crate::bp::as_u32s(vals));
        assert(ds.len() >= 128);
        crate::bytes::lemma_le_bytes_len(
            crate::delta_bp::min_u32(ds.take(128)) as nat,
            4,
        );
        assert(crate::delta_bp::dbp_payload(ds).len() >= 5);
    }
}

/// Estimates a codec's ratio by compressing strided samples of the page
/// (or the whole page when it is small) and measuring the output.
///
/// On a small page the whole array is compressed, so the ratio is exactly
/// the plain size over the codec's payload size. On a large page ten
/// 64-value samples are taken at random starts (the last stride absorbs
/// the division remainder), so only the numerator is fixed.
/// Holds when the sample's `q`-th 64-value segment is a contiguous slice
/// taken inside the `q`-th of ten strides of `vals`, the last stride
/// absorbing the division remainder.
pub open spec fn stride_sample_slice(vals: Seq<u64>, sample: Seq<u64>, q: int) -> bool {
    exists|st: int|
        q * ((vals.len() / 10) as int) <= st && st + 64 <= (if q == 9 {
            vals.len() as int
        } else {
            (q + 1) * ((vals.len() / 10) as int)
        }) && sample.subrange(64 * q, 64 * q + 64) == #[trigger] vals.subrange(st, st + 64)
}

fn compress_sample_ratio(c: Codec, array: &PrimitivePage, stats: &IntegerStats) -> (r: Ratio)
    requires
        array.wf(),
        array.spec_len() <= MAX_PAGE_LEN,
        array.spec_len() > 0,
        c == Codec::Delta || ((c == Codec::Bitpacking || c == Codec::DeltaBitpacking)
            && kind_width(array.kind) == 4 && array.spec_len() % 128 == 0),
    ensures
        r.wf(),
        array.spec_len() / (SAMPLE_COUNT as nat) <= SAMPLE_SIZE as nat ==> r == (Ratio {
            num: (array.spec_len() * kind_width(array.kind)) as u64,
            den: sampled_payload_len(c, array.values@, kind_width(array.kind)) as u64,
        }),
        array.spec_len() / (SAMPLE_COUNT as nat) > SAMPLE_SIZE as nat ==> r.num == ((
        SAMPLE_COUNT * SAMPLE_SIZE) as nat * kind_width(array.kind)) as u64,
        // whatever starts the randomness picked, the denominator is the
        // codec's payload size on a strided sample: one contiguous
        // 64-value slice from each of the ten strides, the last stride
        // absorbing the division remainder
        array.spec_len() / (SAMPLE_COUNT as nat) > SAMPLE_SIZE as nat ==> exists|sample: Seq<u64>|
            {
                &&& sample.len() == (SAMPLE_COUNT * SAMPLE_SIZE) as nat
                &&& #[trigger] sampled_payload_len(c, sample, kind_width(array.kind))
                    == r.den as nat
                &&& forall|q: int|
                    0 <= q < SAMPLE_COUNT ==> #[trigger] stride_sample_slice(
                        array.values@,
                        sample,
                        q,
                    )
            },
{
    let len: usize = array.values.len();
    let w: usize = array.kind.width();
    let mut scratch: Vec<u8> = Vec::new();
    let mut sampled: usize = len;
    if len / SAMPLE_COUNT <= SAMPLE_SIZE {
        match c {
            Codec::Delta => {
                Delta {}.compress(array, &mut scratch);
            },
            Codec::Bitpacking => {
                Bitpacking {}.compress(array, &mut scratch);
            },
            _ => {
                DeltaBitpacking {}.compress(array, &mut scratch);
            },
        }
        proof {
            if c == Codec::Bitpacking || c == Codec::DeltaBitpacking {
                assert(len >= 128) by (nonlinear_arith)
                    requires
                        len % 128 == 0,
                        len > 0,
                ;
            }
            lemma_sampled_payload_pos(c, array.values@, w as nat);
            assert(scratch@.len() == sampled_payload_len(c, array.values@, w as nat));
            assert(len * w <= MAX_PAGE_LEN * 8) by (nonlinear_arith)
                requires
                    len <= MAX_PAGE_LEN,
                    w <= 8,
            ;
        }
        return Ratio::of((len as u64) * (w as u64), scratch.len() as u64);
    }
    let sep: usize = len / SAMPLE_COUNT;
    let rem: usize = len % SAMPLE_COUNT;
    let mut sample: Vec<u64> = Vec::new();
    let mut k: usize = 0;
    let ghost mut starts: Seq<int> = Seq::empty();
    while k < SAMPLE_COUNT
        invariant
            array.wf(),
            k <= SAMPLE_COUNT,
            sample@.len() == k * SAMPLE_SIZE,
            sep == array.spec_len() / 10,
            rem == array.spec_len() % 10,
            sep > SAMPLE_SIZE,
            array.spec_len() <= MAX_PAGE_LEN,
            starts.len() == k,
            forall|q: int|
                0 <= q < k ==> q * (array.spec_len() / 10) <= #[trigger] starts[q] && starts[q]
                    + 64 <= (if q == 9 {
                    array.spec_len() as int
                } else {
                    (q + 1) * (array.spec_len() / 10)
                }) && sample@.subrange(64 * q, 64 * q + 64) == array.values@.subrange(
                    starts[q],
                    starts[q] + 64,
                ),
            forall|t: int|
                0 <= t < sample@.len() ==> ((#[trigger] sample@[t]) as nat) < kind_bound(
                    array.kind,
                ),
        decreases SAMPLE_COUNT - k,
    {
        proof {
            assert(10 * (array.spec_len() / 10) + array.spec_len() % 10 == array.spec_len());
            assert(k * sep + sep <= 10 * sep) by (nonlinear_arith)
                requires
                    k < 10,
                    sep >= 0,
            ;
        }
        // the last stride absorbs the division remainder
        let range: usize = if k == SAMPLE_COUNT - 1 {
            sep + rem - SAMPLE_SIZE
        } else {
            sep - SAMPLE_SIZE
        };
        let offset: u64 = random_below(range as u64);
        let start: usize = k * sep + (offset as usize);
        proof {
            assert(start + SAMPLE_SIZE <= array.spec_len()) by (nonlinear_arith)
                requires
                    start < k * sep + range,
                    k < 10,
                    sep >= 0,
                    rem >= 0,
                    range == (if k == 9 {
                        sep + rem - 64
                    } else {
                        sep - 64
                    }),
                    10 * sep + rem == array.spec_len(),
                    SAMPLE_SIZE == 64,
            ;
        }
        let ghost seg0 = sample@.len() as int;
        let ghost pre = sample@;
        let mut j: usize = 0;
        while j < SAMPLE_SIZE
            invariant
                array.wf(),
                j <= SAMPLE_SIZE,
                array.spec_len() <= MAX_PAGE_LEN,
                start + SAMPLE_SIZE <= array.spec_len(),
                sample@.len() == k * SAMPLE_SIZE + j,
                seg0 == k * SAMPLE_SIZE,
                pre.len() == seg0,
                sample@.take(seg0) == pre,
                forall|t: int|
                    seg0 <= t < sample@.len() ==> #[trigger] sample@[t] == array.values@[start + (
                    t - seg0)],
                forall|t: int|
                    0 <= t < sample@.len() ==> ((#[trigger] sample@[t]) as nat) < kind_bound(
                        array.kind,
                    ),
            decreases SAMPLE_SIZE - j,
        {
            sample.push(array.values[start + j]);
            j = j + 1;
        }
        proof {
            assert((k + 1) * SAMPLE_SIZE == k * SAMPLE_SIZE + SAMPLE_SIZE) by (nonlinear_arith);
            let ghost starts0 = starts;
            starts = starts0.push(start as int);
            assert(sample@.subrange(64 * (k as int), 64 * (k as int) + 64) =~= array.values@.subrange(
                start as int,
                start as int + 64,
            ));
            assert(k * sep <= start as int);
            assert(start as int + 64 <= (if k == 9 {
                array.spec_len() as int
            } else {
                (k as int + 1) * sep
            })) by (nonlinear_arith)
                requires
                    start < k * sep + range,
                    k < 10,
                    sep >= 0,
                    rem >= 0,
                    range == (if k == 9 {
                        sep + rem - 64
                    } else {
                        sep - 64
                    }),
                    10 * sep + rem == array.spec_len(),
                    SAMPLE_SIZE == 64,
            ;
            assert forall|q: int|
                0 <= q < k + 1 implies q * (array.spec_len() / 10) <= #[trigger] starts[q]
                && starts[q] + 64 <= (if q == 9 {
                array.spec_len() as int
            } else {
                (q + 1) * (array.spec_len() / 10)
            }) && sample@.subrange(64 * q, 64 * q + 64) == array.values@.subrange(
                starts[q],
                starts[q] + 64,
            ) by {
                if q < k {
                    assert(starts[q] == starts0[q]);
                    assert(pre.subrange(64 * q, 64 * q + 64) == array.values@.subrange(
                        starts0[q],
                        starts0[q] + 64,
                    ));
                    assert(64 * q + 64 <= seg0) by (nonlinear_arith)
                        requires
                            0 <= q < k,
                            seg0 == k * SAMPLE_SIZE,
                            SAMPLE_SIZE == 64,
                    ;
                    assert(sample@.subrange(64 * q, 64 * q + 64) =~= pre.subrange(
                        64 * q,
                        64 * q + 64,
                    ));
                } else {
                    assert(starts[q] == start as int);
                }
            }
        }
        k = k + 1;
    }
    sampled = SAMPLE_COUNT * SAMPLE_SIZE;
    let page = PrimitivePage { kind: array.kind, values: sample, validity: None };
    match c {
        Codec::Delta => {
            Delta {}.compress(&page, &mut scratch);
        },
        Codec::Bitpacking => {
            Bitpacking {}.compress(&page, &mut scratch);
        },
        _ => {
            DeltaBitpacking {}.compress(&page, &mut scratch);
        },
    }
    proof {
        lemma_sampled_payload_pos(c, page.values@, w as nat);
        assert(scratch@.len() == sampled_payload_len(c, page.values@, w as nat));
        assert(sampled * w <= MAX_PAGE_LEN * 8) by (nonlinear_arith)
            requires
                sampled <= MAX_PAGE_LEN,
                w <= 8,
        ;
        assert forall|q: int| 0 <= q < SAMPLE_COUNT implies #[trigger] stride_sample_slice(
            array.values@,
            page.values@,
            q,
        ) by {
            let st = starts[q];
            assert(q * (array.spec_len() / 10) <= st && st + 64 <= (if q == 9 {
                array.spec_len() as int
            } else {
                (q + 1) * (array.spec_len() / 10)
            }) && page.values@.subrange(64 * q, 64 * q + 64) == array.values@.subrange(
                st,
                st + 64,
            ));
            assert((array.values@.len() / 10) as int == array.spec_len() / 10);
        }
    }
    let r = Ratio::of((sampled as u64) * (w as u64), scratch.len() as u64);
    proof {
        let sample_view = page.values@;
        assert(sample_view.len() == (SAMPLE_COUNT * SAMPLE_SIZE) as nat);
        assert(sampled_payload_len(c, sample_view, kind_width(array.kind)) == r.den as nat);
        assert({
            &&& sample_view.len() == (SAMPLE_COUNT * SAMPLE_SIZE) as nat
            &&& sampled_payload_len(c, sample_view, kind_width(array.kind)) == r.den as nat
            &&& forall|q: int|
                0 <= q < SAMPLE_COUNT ==> #[trigger] stride_sample_slice(
                    array.values@,
                    sample_view,
                    q,
                )
        });
    }
    r
}

/// The one-value codec's predicted ratio: the page length when its gate
/// holds, refusal otherwise.
pub open spec fn spec_ratio_one_value(stats: IntegerStats) -> Ratio {
    if stats.present_uniform && stats.tuple_count > 0 {
        Ratio { num: stats.tuple_count as u64, den: 1 }
    } else {
        Ratio { num: 0, den: 1 }
    }
}

/// The run-length codec's predicted ratio: the average run length scaled
/// by the byte width.
pub open spec fn spec_ratio_rle(stats: IntegerStats, w: nat) -> Ratio {
    if stats.tuple_count > 0 && stats.run_count > 0 {
        Ratio { num: (stats.tuple_count * w) as u64, den: stats.run_count as u64 }
    } else {
        Ratio { num: 0, den: 1 }
    }
}

/// The frequency codec's predicted ratio, from the dominant value's share.
pub open spec fn spec_ratio_freq(stats: IntegerStats, w: nat) -> Ratio {
    if stats.tuple_count > 0 && 10 * stats.top_count >= 9 * stats.tuple_count {
        Ratio {
            num: (stats.tuple_count * w) as u64,
            den: (w + (stats.tuple_count + 7) / 8 + 4 + (stats.tuple_count - stats.top_count)
                * w) as u64,
        }
    } else {
        Ratio { num: 0, den: 1 }
    }
}

/// The dictionary codec's predicted ratio, from the distinct cardinality.
pub open spec fn spec_ratio_dict(stats: IntegerStats, w: nat) -> Ratio {
    if stats.unique_count * 3 < stats.tuple_count {
        let after = stats.unique_count * w + stats.tuple_count * (crate::bp::bits_needed(
            stats.unique_count as nat,
        ) / 8) + stats.tuple_count * 2 / 128;
        if after == 0 {
            Ratio { num: 1, den: 1 }
        } else {
            Ratio { num: (stats.tuple_count * w) as u64, den: after as u64 }
        }
    } else {
        Ratio { num: 0, den: 1 }
    }
}

/// The closed-form predicted ratio of a codec, or a refusal when its gate
/// does not hold; the ratios of the sampled codecs come from the harness.
fn predicted_ratio(c: Codec, array: &PrimitivePage, stats: &IntegerStats) -> (r: Ratio)
    requires
        array.wf(),
        array.spec_len() <= MAX_PAGE_LEN,
        stats.describes(*array),
    ensures
        r.wf(),
        r.num > 0 ==> int_eligible(c, *array),
        c == Codec::OneValue ==> r == spec_ratio_one_value(*stats),
        c == Codec::Rle ==> r == spec_ratio_rle(*stats, kind_width(array.kind)),
        c == Codec::Freq ==> r == spec_ratio_freq(*stats, kind_width(array.kind)),
        c == Codec::Dict ==> r == spec_ratio_dict(*stats, kind_width(array.kind)),
        array.spec_len() / (SAMPLE_COUNT as nat) <= SAMPLE_SIZE as nat ==> r == spec_ratio_of(
            c,
            *array,
            *stats,
        ),
    {
    let len: usize = stats.tuple_count;
    let w: usize = array.kind.width();
    proof {
        assert(len * w <= MAX_PAGE_LEN * 8) by (nonlinear_arith)
            requires
                len <= MAX_PAGE_LEN,
                w <= 8,
        ;
    }
    match c {
        Codec::OneValue => {
            if stats.present_uniform && len > 0 {
                Ratio::of(len as u64, 1)
            } else {
                Ratio::zero()
            }
        },
        Codec::Rle => {
            if stats.run_count > 0 && len > 0 {
                proof {
                    crate::stats::lemma_count_true_le_len(array.valid_seq());
                }
                Ratio::of((len * w) as u64, stats.run_count as u64)
            } else {
                Ratio::zero()
            }
        },
        Codec::Dict => {
            proof {
                array.values@.lemma_cardinality_of_set();
            }
            if stats.unique_count * 3 < len {
                let bits: u32 = get_bits_needed(stats.unique_count as u64);
                proof {
                    assert(stats.unique_count * w <= len * 8) by (nonlinear_arith)
                        requires
                            stats.unique_count <= len,
                            w <= 8,
                    ;
                    assert(len * ((bits / 8) as int) <= len * 8) by (nonlinear_arith)
                        requires
                            bits / 8 <= 8,
                            len >= 0,
                    ;
                }
                let after: usize = stats.unique_count * w + len * ((bits / 8) as usize) + len * 2
                    / 128;
                if after == 0 {
                    Ratio::of(1, 1)
                } else {
                    Ratio::of((len * w) as u64, after as u64)
                }
            } else {
                Ratio::zero()
            }
        },
        Codec::Freq => {
            proof {
                assert(count_eq(array.values@, stats.top_value) <= array.values@.len()) by {
                    crate::stats::lemma_count_eq_le_len(array.values@, stats.top_value);
                }
            }
            if len > 0 && 10 * stats.top_count >= 9 * len {
                proof {
                    assert((len - stats.top_count) * w <= len * w) by (nonlinear_arith)
                        requires
                            0 <= stats.top_count <= len,
                            w >= 0,
                    ;
                }
                let after: usize = w + (len + 7) / 8 + 4 + (len - stats.top_count) * w;
                Ratio::of((len * w) as u64, after as u64)
            } else {
                Ratio::zero()
            }
        },
        Codec::Bitpacking => {
            let nonneg: bool = if array.kind.is_signed() {
                let bound: u128 = array.kind.bound128();
                2 * (stats.min as u128) < bound
            } else {
                true
            };
            if w == 4 && len > 0 && len % 128 == 0 && nonneg {
                proof {
                    assert forall|i: int|
                        0 <= i < array.values@.len() implies as_ordered(
                        array.kind,
                        #[trigger] array.values@[i],
                    ) >= 0 by {
                        assert(as_ordered(array.kind, stats.min) <= as_ordered(
                            array.kind,
                            array.values@[i],
                        ));
                    }
                }
                compress_sample_ratio(c, array, stats)
            } else {
                Ratio::zero()
            }
        },
        Codec::Delta => {
            if len == 0 {
                return Ratio::zero();
            }
            let small: bool = {
                let omin: i128 = array.kind.ordered_val(stats.min);
                let omax: i128 = array.kind.ordered_val(stats.max);
                let bound: u128 = array.kind.bound128();
                proof {
                    lemma_pow256_values();
                }
                (omax - omin) * 256 < bound as i128
            };
            if stats.is_sorted || small {
                proof {
                    if !stats.is_sorted {
                        assert forall|i: int, j: int|
                            0 <= i < array.values@.len() && 0 <= j
                                < array.values@.len() implies (as_ordered(
                            array.kind,
                            #[trigger] array.values@[i],
                        ) - as_ordered(array.kind, #[trigger] array.values@[j])) * 256 < pow256(
                            kind_width(array.kind),
                        ) by {
                            assert(as_ordered(array.kind, array.values@[i]) <= as_ordered(
                                array.kind,
                                stats.max,
                            ));
                            assert(as_ordered(array.kind, stats.min) <= as_ordered(
                                array.kind,
                                array.values@[j],
                            ));
                        }
                    }
                }
                compress_sample_ratio(c, array, stats)
            } else {
                Ratio::zero()
            }
        },
        Codec::DeltaBitpacking => {
            if w == 4 && len > 0 && len % 128 == 0 {
                compress_sample_ratio(c, array, stats)
            } else {
                Ratio::zero()
            }
        },
        _ => Ratio::zero(),
    }
}

/// The number of bits needed to represent `v`.
pub fn get_bits_needed(v: u64) -> (r: u32)
    ensures
        r as nat == crate::bp::bits_needed(v as nat),
        r <= 64,
{
    let mut x: u64 = v;
    let mut r: u32 = 0;
    proof {
        crate::bp::lemma_pow2_64();
        crate::bp::lemma_bits_needed_le(v as nat, 64);
    }
    while x > 0
        invariant
            r as nat + crate::bp::bits_needed(x as nat) == crate::bp::bits_needed(v as nat),
            crate::bp::bits_needed(x as nat) + r <= 64,
        decreases x,
    {
        x = x / 2;
        r = r + 1;
    }
    r
}

/// The one-value codec's winning condition, stated over the page: gated,
/// and with a predicted ratio (the page length) strictly above the
/// threshold.
pub open spec fn one_value_beats(page: PrimitivePage, th: Ratio) -> bool {
    &&& page.spec_len() > 0
    &&& ov_gate(page.values@, page.valid_seq())
    &&& page.spec_len() * th.den > th.num * 1
}


/// The candidate order of the integer selection policy.
pub open spec fn cand_at(i: int) -> Codec {
    if i == 0 {
        Codec::OneValue
    } else if i == 1 {
        Codec::Delta
    } else if i == 2 {
        Codec::Freq
    } else if i == 3 {
        Codec::Dict
    } else if i == 4 {
        Codec::Rle
    } else if i == 5 {
        Codec::Bitpacking
    } else {
        Codec::DeltaBitpacking
    }
}

/// The delta codec's gate, over the statistics.
pub open spec fn delta_gate(stats: IntegerStats, k: PrimKind) -> bool {
    stats.tuple_count > 0 && (stats.is_sorted || (as_ordered(k, stats.max) - as_ordered(
        k,
        stats.min,
    )) * 256 < pow256(kind_width(k)))
}

/// The bit-packing codec's gate, over the statistics.
pub open spec fn bp_gate(stats: IntegerStats, k: PrimKind) -> bool {
    kind_width(k) == 4 && stats.tuple_count > 0 && stats.tuple_count % 128 == 0 && as_ordered(
        k,
        stats.min,
    ) >= 0
}

/// The delta-bit-packing codec's gate, over the statistics.
pub open spec fn dbp_gate(stats: IntegerStats, k: PrimKind) -> bool {
    kind_width(k) == 4 && stats.tuple_count > 0 && stats.tuple_count % 128 == 0
}

/// Every candidate's predicted ratio on a small page (one the harness
/// compresses whole): the closed forms, and the exact plain-over-payload
/// ratio for the three sampled codecs.
pub open spec fn spec_ratio_of(c: Codec, page: PrimitivePage, stats: IntegerStats) -> Ratio {
    let w = kind_width(page.kind);
    if c == Codec::OneValue {
        spec_ratio_one_value(stats)
    } else if c == Codec::Rle {
        spec_ratio_rle(stats, w)
    } else if c == Codec::Freq {
        spec_ratio_freq(stats, w)
    } else if c == Codec::Dict {
        spec_ratio_dict(stats, w)
    } else if c == Codec::Delta {
        if delta_gate(stats, page.kind) {
            Ratio {
                num: (stats.tuple_count * w) as u64,
                den: sampled_payload_len(c, page.values@, w) as u64,
            }
        } else {
            Ratio { num: 0, den: 1 }
        }
    } else if c == Codec::Bitpacking {
        if bp_gate(stats, page.kind) {
            Ratio {
                num: (stats.tuple_count * w) as u64,
                den: sampled_payload_len(c, page.values@, w) as u64,
            }
        } else {
            Ratio { num: 0, den: 1 }
        }
    } else if c == Codec::DeltaBitpacking {
        if dbp_gate(stats, page.kind) {
            Ratio {
                num: (stats.tuple_count * w) as u64,
                den: sampled_payload_len(c, page.values@, w) as u64,
            }
        } else {
            Ratio { num: 0, den: 1 }
        }
    } else {
        Ratio { num: 0, den: 1 }
    }
}

/// The selection fold after the first `i` candidates: the running winner,
/// the running maximum, and whether a perfect ratio ended the search. A
/// candidate is adopted only on a strictly greater ratio, so earlier
/// candidates win ties.
pub open spec fn sel_state(
    page: PrimitivePage,
    stats: IntegerStats,
    options: WriteOptions,
    th: Ratio,
    i: int,
) -> (Codec, Ratio, bool)
    decreases i,
{
    if i <= 0 {
        (options.default_compression, th, false)
    } else {
        let prev = sel_state(page, stats, options, th, i - 1);
        if prev.2 {
            prev
        } else {
            let c = cand_at(i - 1);
            if options.forbidden_compressions@.contains(c) {
                prev
            } else {
                let r = spec_ratio_of(c, page, stats);
                if r.spec_gt(prev.1) {
                    (c, r, r.num == (stats.tuple_count as nat) * r.den)
                } else {
                    prev
                }
            }
        }
    }
}

/// Once the fold has finished on a perfect ratio, later candidates leave
/// it unchanged.
proof fn lemma_sel_state_finished(
    page: PrimitivePage,
    stats: IntegerStats,
    options: WriteOptions,
    th: Ratio,
    i: int,
    j: int,
)
    requires
        0 <= i <= j,
        sel_state(page, stats, options, th, i).2,
    ensures
        sel_state(page, stats, options, th, j) == sel_state(page, stats, options, th, i),
    decreases j - i,
{
    if j > i {
        lemma_sel_state_finished(page, stats, options, th, i, j - 1);
    }
}

/// Two summaries of one page agree on every field the selection fold
/// reads, so the fold itself agrees: the choice is a function of the page
/// and the options alone.
pub proof fn lemma_selection_deterministic(
    st1: IntegerStats,
    st2: IntegerStats,
    page: PrimitivePage,
    options: WriteOptions,
    th: Ratio,
    i: int,
)
    requires
        st1.describes(page),
        st2.describes(page),
        page.wf(),
    ensures
        sel_state(page, st1, options, th, i) == sel_state(page, st2, options, th, i),
    decreases i,
{
    assert(st1.min == st2.min && st1.max == st2.max) by {
        if page.values@.len() > 0 {
            let j1 = choose|j: int| 0 <= j < page.values@.len() && page.values@[j] == st1.min;
            let j2 = choose|j: int| 0 <= j < page.values@.len() && page.values@[j] == st2.min;
            crate::page::lemma_as_ordered_injective(page.kind, st1.min, st2.min);
            let m1 = choose|j: int| 0 <= j < page.values@.len() && page.values@[j] == st1.max;
            let m2 = choose|j: int| 0 <= j < page.values@.len() && page.values@[j] == st2.max;
            crate::page::lemma_as_ordered_injective(page.kind, st1.max, st2.max);
        }
    }
    assert(st1.top_count == st2.top_count) by {
        assert(count_eq(page.values@, st1.top_value) <= st2.top_count);
        assert(count_eq(page.values@, st2.top_value) <= st1.top_count);
    }
    if i > 0 {
        lemma_selection_deterministic(st1, st2, page, options, th, i - 1);
        assert forall|c: Codec| true implies #[trigger] spec_ratio_of(c, page, st1)
            == spec_ratio_of(c, page, st2) by {}
    }
}

/// What the selection policy promises: either the default generic codec or
/// a specialized codec that is not forbidden and whose gate holds.
pub open spec fn selection_ok(
    c: Codec,
    page: PrimitivePage,
    options: WriteOptions,
) -> bool {
    &&& !options.forbidden_compressions@.contains(c)
    &&& (c == options.default_compression || (options.default_compress_ratio is Some
        && int_eligible(c, page)))
}

/// Picks the codec for an integer page: the default generic codec, unless a
/// ratio threshold is set and a specialized codec predicts a strictly
/// better ratio. The candidate order is OneValue, Delta, Freq, Dict, RLE,
/// Bitpacking, DeltaBitpacking; a perfect ratio ends the search.
///
/// The closed-form candidates are pinned: whenever one of them is chosen,
/// its own predicted ratio beats the threshold; and the one-value codec,
/// being first with a perfect ratio, is chosen whenever it is allowed,
/// gated, and beats the threshold.
#[verifier::rlimit(100)]
#[verifier::spinoff_prover]
pub fn choose_compressor(
    array: &PrimitivePage,
    stats: &IntegerStats,
    write_options: &WriteOptions,
) -> (r: Codec)
    requires
        array.wf(),
        array.spec_len() <= MAX_PAGE_LEN,
        stats.describes(*array),
        write_options.wf(),
    ensures
        selection_ok(r, *array, *write_options),
        // on a page the harness compresses whole, the result is exactly
        // the fold over the candidate order
        (match write_options.default_compress_ratio {
            Some(th) => array.spec_len() / (SAMPLE_COUNT as nat) <= SAMPLE_SIZE as nat ==> r
                == sel_state(*array, *stats, *write_options, th, 7).0,
            None => true,
        }),
        match write_options.default_compress_ratio {
            Some(th) => {
                &&& (r == Codec::OneValue ==> spec_ratio_one_value(*stats).spec_gt(th))
                &&& (r == Codec::Rle ==> spec_ratio_rle(*stats, kind_width(array.kind)).spec_gt(
                    th,
                ))
                &&& (r == Codec::Freq ==> spec_ratio_freq(*stats, kind_width(array.kind)).spec_gt(
                    th,
                ))
                &&& (r == Codec::Dict ==> spec_ratio_dict(*stats, kind_width(array.kind)).spec_gt(
                    th,
                ))
                &&& (!write_options.forbidden_compressions@.contains(Codec::OneValue)
                    && spec_ratio_one_value(*stats).spec_gt(th) ==> r == Codec::OneValue)
            },
            None => r == write_options.default_compression,
        },
{
    let basic: Codec = write_options.default_compression;
    let threshold: Ratio = match &write_options.default_compress_ratio {
        Some(t) => *t,
        None => {
            return basic;
        },
    };
    let mut best: Codec = basic;
    let mut max_ratio: Ratio = threshold;
    // the one-value candidate first: if adopted, its perfect ratio always
    // ends the search, which pins it
    if !write_options.is_forbidden(Codec::OneValue) {
        let r0: Ratio = predicted_ratio(Codec::OneValue, array, stats);
        if r0.gt(&max_ratio) {
            proof {
                assert(r0.num > 0) by {
                    if r0.num == 0 {
                        assert(!r0.spec_gt(max_ratio)) by (nonlinear_arith)
                            requires
                                r0.num == 0,
                                max_ratio.num >= 0,
                                r0.den > 0,
                        ;
                    }
                }
            }
            max_ratio = r0;
            best = Codec::OneValue;
            proof {
                assert(r0.num == stats.tuple_count as u64 && r0.den == 1);
                if array.spec_len() / (SAMPLE_COUNT as nat) <= SAMPLE_SIZE as nat {
                    let st0 = sel_state(*array, *stats, *write_options, threshold, 0);
                    assert(st0.0 == write_options.default_compression && st0.1 == threshold
                        && !st0.2);
                    assert(spec_ratio_of(Codec::OneValue, *array, *stats)
                        == spec_ratio_one_value(*stats));
                    assert(cand_at(0) == Codec::OneValue);
                    assert(!write_options.forbidden_compressions@.contains(Codec::OneValue));
                    assert(spec_ratio_of(Codec::OneValue, *array, *stats) == r0);
                    assert(r0.spec_gt(threshold));
                    assert((r0.num as nat) == (stats.tuple_count as nat) * (r0.den as nat)) by (
                    nonlinear_arith)
                        requires
                            r0.den == 1,
                            r0.num == stats.tuple_count as u64,
                    ;
                    assert(sel_state(*array, *stats, *write_options, threshold, 1).0 == best
                        && sel_state(*array, *stats, *write_options, threshold, 1).2);
                    lemma_sel_state_finished(*array, *stats, *write_options, threshold, 1, 7);
                }
            }
            return best;
        }
    }
    proof {
        // not adopted: the one-value ratio did not beat the threshold
        if !write_options.forbidden_compressions@.contains(Codec::OneValue)
            && spec_ratio_one_value(*stats).spec_gt(threshold) {
            assert(false);
        }
        if array.spec_len() / (SAMPLE_COUNT as nat) <= SAMPLE_SIZE as nat {
            let st0 = sel_state(*array, *stats, *write_options, threshold, 0);
            assert(st0.0 == write_options.default_compression && st0.1 == threshold && !st0.2);
            assert(spec_ratio_of(Codec::OneValue, *array, *stats) == spec_ratio_one_value(
                *stats,
            ));
            let st1 = sel_state(*array, *stats, *write_options, threshold, 1);
            assert(!st1.2 && st1.0 == best && st1.1 == max_ratio);
        }
    }
    let mut i: usize = 1;
    while i < 7
        invariant
            array.wf(),
            array.spec_len() <= MAX_PAGE_LEN,
            stats.describes(*array),
            write_options.wf(),
            max_ratio.wf(),
            threshold.wf(),
            selection_ok(best, *array, *write_options),
            write_options.default_compress_ratio == Some(threshold),
            max_ratio == threshold || max_ratio.spec_gt(threshold),
            best == Codec::OneValue ==> spec_ratio_one_value(*stats).spec_gt(threshold),
            best == Codec::Rle ==> spec_ratio_rle(*stats, kind_width(array.kind)).spec_gt(
                threshold,
            ),
            best == Codec::Freq ==> spec_ratio_freq(*stats, kind_width(array.kind)).spec_gt(
                threshold,
            ),
            best == Codec::Dict ==> spec_ratio_dict(*stats, kind_width(array.kind)).spec_gt(
                threshold,
            ),
            1 <= i <= 7,
            !(!write_options.forbidden_compressions@.contains(Codec::OneValue)
                && spec_ratio_one_value(*stats).spec_gt(threshold)),
            array.spec_len() / (SAMPLE_COUNT as nat) <= SAMPLE_SIZE as nat ==> ({
                let st = sel_state(*array, *stats, *write_options, threshold, i as int);
                !st.2 && st.0 == best && st.1 == max_ratio
            }),
        decreases 7 - i,
    {
        let c: Codec = if i == 1 {
            Codec::Delta
        } else if i == 2 {
            Codec::Freq
        } else if i == 3 {
            Codec::Dict
        } else if i == 4 {
            Codec::Rle
        } else if i == 5 {
            Codec::Bitpacking
        } else {
            Codec::DeltaBitpacking
        };
        if !write_options.is_forbidden(c) {
            let r: Ratio = predicted_ratio(c, array, stats);
            if r.gt(&max_ratio) {
                proof {
                    assert(r.num > 0) by {
                        if r.num == 0 {
                            assert(!r.spec_gt(max_ratio)) by (nonlinear_arith)
                                requires
                                    r.num == 0,
                                    max_ratio.num >= 0,
                                    r.den > 0,
                            ;
                        }
                    }
                    if max_ratio == threshold {
                        assert(r.spec_gt(threshold));
                    } else {
                        crate::ratio::lemma_ratio_gt_trans(r, max_ratio, threshold);
                    }
                }
                max_ratio = r;
                best = c;
                if r.eq_int(stats.tuple_count as u64) {
                    proof {
                        if array.spec_len() / (SAMPLE_COUNT as nat) <= SAMPLE_SIZE as nat {
                            assert(sel_state(
                                *array,
                                *stats,
                                *write_options,
                                threshold,
                                i + 1,
                            ).0 == best && sel_state(
                                *array,
                                *stats,
                                *write_options,
                                threshold,
                                i + 1,
                            ).2);
                            lemma_sel_state_finished(
                                *array,
                                *stats,
                                *write_options,
                                threshold,
                                i + 1,
                                7,
                            );
                        }
                    }
                    return best;
                }
            }
        }
        i = i + 1;
    }
    best
}


/// Reading the fields of a frame back: the identifier byte, the payload
/// length, and the payload region. The plain-length field is advisory and
/// left unconstrained.
pub proof fn lemma_frame_fields(bytes: Seq<u8>, c: Codec, payload: Seq<u8>)
    requires
        bytes.len() >= 9 + payload.len(),
        payload.len() < 0x1_0000_0000,
        exists|unc: nat|
            unc < 0x1_0000_0000 && bytes.subrange(0, 9 + payload.len() as int)
                == #[trigger] frame_seq(c, unc, payload),
    ensures
        bytes[0] == codec_code(c),
        le_value_of(bytes.subrange(1, 5)) == payload.len(),
        bytes.subrange(9, 9 + payload.len() as int) == payload,
{
    let unc = choose|unc: nat|
        unc < 0x1_0000_0000 && bytes.subrange(0, 9 + payload.len() as int) == #[trigger] frame_seq(
            c,
            unc,
            payload,
        );
    let f = frame_seq(c, unc, payload);
    lemma_le_bytes_len(payload.len(), 4);
    lemma_le_bytes_len(unc, 4);
    lemma_pow256_values();
    lemma_le_bytes_value(payload.len(), 4);
    assert(bytes.subrange(0, 9 + payload.len() as int)[0] == bytes[0]);
    assert(f[0] == codec_code(c));
    assert(bytes.subrange(1, 5) =~= le_bytes_of(payload.len(), 4)) by {
        assert forall|t: int| 0 <= t < 4 implies bytes[1 + t] == le_bytes_of(payload.len(), 4)[t]
            by {
            assert(bytes.subrange(0, 9 + payload.len() as int)[1 + t] == bytes[1 + t]);
            assert(f[1 + t] == le_bytes_of(payload.len(), 4)[t]);
        }
    }
    assert(bytes.subrange(9, 9 + payload.len() as int) =~= payload) by {
        assert forall|t: int| 0 <= t < payload.len() implies bytes[9 + t] == payload[t] by {
            assert(bytes.subrange(0, 9 + payload.len() as int)[9 + t] == bytes[9 + t]);
            assert(f[9 + t] == payload[t]);
        }
    }
}

/// Appends one complete frame: the codec identifier, the payload length,
/// the plain length, and the staged payload.
pub(crate) fn emit_frame(c: Codec, payload: Vec<u8>, uncompressed: u64, buf: &mut Vec<u8>)
    requires
        payload@.len() < 0x1_0000_0000,
        uncompressed < 0x1_0000_0000,
    ensures
        final(buf)@ == old(buf)@ + frame_seq(c, uncompressed as nat, payload@),
        final(buf)@.len() == old(buf)@.len() + 9 + payload@.len(),
{
    let code: u8 = c.to_code();
    buf.push(code);
    push_le(buf, payload.len() as u64, 4);
    push_le(buf, uncompressed, 4);
    let ghost pseq = payload@;
    let mut payload = payload;
    buf.append(&mut payload);
    proof {
        lemma_le_bytes_len(pseq.len(), 4);
        lemma_le_bytes_len(uncompressed as nat, 4);
        assert(buf@ =~= old(buf)@ + frame_seq(c, uncompressed as nat, pseq));
    }
}

/// Compresses one integer page into `payload`, using the chosen
/// non-dictionary codec. Returns the relation witnessed.
fn compress_payload_nodict(
    c: Codec,
    array: &PrimitivePage,
    stats: &IntegerStats,
    payload: &mut Vec<u8>,
) -> (r: Result<(), NativeError>)
    requires
        array.wf(),
        array.spec_len() <= MAX_PAGE_LEN,
        stats.describes(*array),
        old(payload)@.len() == 0,
        c == Codec::Plain || int_eligible(c, *array),
        c != Codec::Dict,
        !is_generic(c) || c == Codec::Plain,
    ensures
        match r {
            Ok(()) => int_payload_nodict(
                c,
                array.values@,
                array.valid_seq(),
                kind_width(array.kind),
                final(payload)@,
            ) && final(payload)@.len() <= 12 * array.spec_len() + 16,
            Err(e) => false,
        },
{
    let w: usize = array.kind.width();
    let len: usize = array.values.len();
    proof {
        lemma_pow256_values();
        assert(len * (w + 4) <= MAX_PAGE_LEN * 12) by (nonlinear_arith)
            requires
                len <= MAX_PAGE_LEN,
                w <= 8,
        ;
        assert(len * w <= MAX_PAGE_LEN * 8) by (nonlinear_arith)
            requires
                len <= MAX_PAGE_LEN,
                w <= 8,
        ;
    }
    match c {
        Codec::Plain => {
            compress_plain(array, payload);
            proof {
                assert(payload@ =~= plain_payload(array.values@, kind_width(array.kind)));
                assert(len * w <= 8 * len) by (nonlinear_arith)
                    requires
                        w <= 8,
                        len >= 0,
                ;
            }
        },
        Codec::OneValue => {
            OneValue {}.compress(array, payload);
            proof {
                assert(payload@ =~= ov_payload(
                    array.values@,
                    array.valid_seq(),
                    kind_width(array.kind),
                ));
            }
        },
        Codec::Rle => {
            Rle {}.compress(array, payload);
            proof {
                assert(payload@ =~= rle_payload(array.values@, kind_width(array.kind)));
                assert(len * (w + 4) <= 12 * len) by (nonlinear_arith)
                    requires
                        w <= 8,
                        len >= 0,
                ;
            }
        },
        Codec::Freq => {
            Freq {}.compress(array, stats, payload);
            proof {
                assert(payload@ == freq_payload(
                    array.values@,
                    kind_width(array.kind),
                    stats.top_value,
                ));
                lemma_freq_payload_len(array.values@, kind_width(array.kind), stats.top_value);
            }
        },
        Codec::Delta => {
            Delta {}.compress(array, payload);
            proof {
                assert(len * 10 <= MAX_PAGE_LEN * 10) by (nonlinear_arith)
                    requires
                        len <= MAX_PAGE_LEN,
                ;
                assert(payload@ =~= delta_payload(array.values@, kind_width(array.kind)));
            }
        },
        Codec::Bitpacking => {
            Bitpacking {}.compress(array, payload);
            proof {
                assert(len * 5 + 1 <= MAX_PAGE_LEN * 5 + 1) by (nonlinear_arith)
                    requires
                        len <= MAX_PAGE_LEN,
                ;
                assert(payload@ =~= final(payload)@.skip(0));
                assert(bp_encodes(array.values@, array.spec_len(), payload@));
            }
        },
        Codec::DeltaBitpacking => {
            DeltaBitpacking {}.compress(array, payload);
            proof {
                assert(len * 5 + 5 <= MAX_PAGE_LEN * 5 + 5) by (nonlinear_arith)
                    requires
                        len <= MAX_PAGE_LEN,
                ;
                assert(payload@ =~= final(payload)@.skip(0));
                assert(dbp_encodes(array.values@, array.spec_len(), payload@));
            }
        },
        _ => {
            proof {
                assert(false);
            }
            return Err(NativeError::InvalidPayload);
        },
    }
    proof {
        assert(int_payload_nodict(
            c,
            array.values@,
            array.valid_seq(),
            kind_width(array.kind),
            payload@,
        ));
        assert(payload@.len() <= 12 * array.spec_len() + 16);
    }
    Ok(())
}

/// The frequency payload never outgrows the frame's length field.
proof fn lemma_freq_payload_len(vals: Seq<u64>, w: nat, f: u64)
    requires
        vals.len() <= MAX_PAGE_LEN,
        w <= 8,
    ensures
        freq_payload(vals, w, f).len() <= 9 * vals.len() + 13,
{
    crate::bytes::lemma_le_bytes_len(f as nat, w);
    crate::bytes::lemma_le_bytes_len(crate::freq::except_of(vals, f).len(), 4);
    crate::freq::lemma_except_len_le_pub(vals, f);
    crate::basic::lemma_plain_payload_len(crate::freq::except_of(vals, f), w);
    assert(crate::freq::except_of(vals, f).len() * w <= vals.len() * 8) by (nonlinear_arith)
        requires
            crate::freq::except_of(vals, f).len() <= vals.len(),
            w <= 8,
    ;
    assert((vals.len() + 7) / 8 <= vals.len() + 1);
    assert(vals.len() * 8 <= 8 * vals.len());
}

/// Compresses an integer page: picks a codec among the non-dictionary ones
/// (the caller forbids the dictionary for index sub-pages) and writes one
/// complete frame.
pub fn compress_integer_nodict(
    array: &PrimitivePage,
    write_options: &WriteOptions,
    buf: &mut Vec<u8>,
) -> (r: Result<(), NativeError>)
    requires
        array.wf(),
        array.spec_len() <= MAX_PAGE_LEN,
        write_options.wf(),
        write_options.forbidden_compressions@.contains(Codec::Dict),
    ensures
        match r {
            Ok(()) => exists|c: Codec, payload: Seq<u8>|
                {
                    &&& #[trigger] int_payload_nodict(
                        c,
                        array.values@,
                        array.valid_seq(),
                        kind_width(array.kind),
                        payload,
                    )
                    &&& selection_ok(c, *array, *write_options)
                    &&& c != Codec::Dict
                    &&& payload.len() <= 12 * array.spec_len() + 16
                    &&& payload.len() < 0x1_0000_0000
                    &&& final(buf)@ == old(buf)@ + frame_seq(
                        c,
                        array.spec_len() * kind_width(array.kind),
                        payload,
                    )
                },
            Err(e) => false,
        },
{
    let stats: IntegerStats = gen_stats(array);
    let c: Codec = choose_compressor(array, &stats, write_options);
    proof {
        assert(c == Codec::Plain || !is_generic(c));
    }
    let w: usize = array.kind.width();
    let len: usize = array.values.len();
    proof {
        lemma_pow256_values();
        assert(len * w <= MAX_PAGE_LEN * 8) by (nonlinear_arith)
            requires
                len <= MAX_PAGE_LEN,
                w <= 8,
        ;
        assert(c != Codec::Dict);
    }
    let mut payload: Vec<u8> = Vec::new();
    match compress_payload_nodict(c, array, &stats, &mut payload) {
        Ok(()) => {},
        Err(e) => {
            return Err(e);
        },
    }
    let ghost pseq = payload@;
    proof {
        assert(12 * len + 16 < 0x1_0000_0000) by (nonlinear_arith)
            requires
                len <= MAX_PAGE_LEN,
        ;
    }
    emit_frame(c, payload, (len * w) as u64, buf);
    proof {
        assert(int_payload_nodict(c, array.values@, array.valid_seq(), kind_width(array.kind), pseq)
            && selection_ok(c, *array, *write_options) && c != Codec::Dict && pseq.len() <= 12
            * array.spec_len() + 16 && pseq.len() < 0x1_0000_0000 && buf@ == old(buf)@ + frame_seq(
            c,
            array.spec_len() * kind_width(array.kind),
            pseq,
        ));
    }
    Ok(())
}

/// Decodes one non-dictionary frame lying at `input[pos..]` and appends its
/// `length` slots to `output`; returns the position after the frame. Every
/// frame a non-dictionary codec wrote for a page of `length` slots comes
/// back: exactly for every codec but the one-value codec, and at least at
/// every present slot for that one.
#[verifier::rlimit(100)]
#[verifier::spinoff_prover]
pub fn decompress_integer_nodict(
    input: &[u8],
    pos: usize,
    length: usize,
    w: usize,
    output: &mut Vec<u64>,
) -> (r: Result<usize, NativeError>)
    requires
        pos <= input@.len(),
        1 <= w <= 8,
        length <= MAX_PAGE_LEN,
    ensures
        forall|c: Codec, vals: Seq<u64>, valid: Seq<bool>, payload: Seq<u8>|
            vals.len() == length && #[trigger] frame_encodes_nodict(
                c,
                vals,
                valid,
                w as nat,
                payload,
                input@.skip(pos as int),
            ) ==> r == Ok::<usize, NativeError>((pos + 9 + payload.len()) as usize) && masked_eq(
                final(output)@.skip(old(output)@.len() as int),
                vals,
                valid,
            ) && (c != Codec::OneValue ==> final(output)@ == old(output)@ + vals),
        input@.len() - pos < 9 ==> r == Err::<usize, NativeError>(NativeError::Truncated),
        input@.len() - pos >= 9 && codec_of_code(input@[pos as int]) is None ==> r == Err::<
            usize,
            NativeError,
        >(NativeError::UnknownCodec),
        input@.len() - pos >= 9 && codec_of_code(input@[pos as int]) is Some && 9 + le_value_of(
            input@.subrange((pos + 1) as int, (pos + 5) as int),
        ) > input@.len() - pos ==> r == Err::<usize, NativeError>(NativeError::Truncated),
        match r {
            Ok(np) => {
                &&& pos + 9 <= np <= input@.len()
                &&& np == pos + 9 + le_value_of(
                    input@.subrange((pos + 1) as int, (pos + 5) as int),
                )
                &&& final(output)@.len() == old(output)@.len() + length
                &&& final(output)@.take(old(output)@.len() as int) == old(output)@
                &&& forall|i: int|
                    old(output)@.len() <= i < final(output)@.len() ==> ((final(
                        output)@[i]) as nat) < pow256(w as nat)
            },
            Err(e) => final(output)@ == old(output)@ && (e == NativeError::Truncated || e
                == NativeError::UnknownCodec || e == NativeError::InvalidPayload),
        },
{
    let n: usize = input.len();
    let ghost bytes = input@.skip(pos as int);
    if n - pos < 9 {
        return Err(NativeError::Truncated);
    }
    let code: u8 = input[pos];
    let csize64: u64 = read_le(input, pos + 1, 4);
    let _unc: u64 = read_le(input, pos + 5, 4);
    proof {
        lemma_pow256_values();
        assert(bytes[0] == input@[pos as int]);
        assert(input@.subrange((pos + 1) as int, (pos + 5) as int) =~= bytes.subrange(1, 5));
        assert(input@.subrange((pos + 5) as int, (pos + 9) as int) =~= bytes.subrange(5, 9));
    }
    let c: Codec = match Codec::from_code(code) {
        Ok(c) => c,
        Err(e) => {
            proof {
                assert forall|c2: Codec, vals: Seq<u64>, valid: Seq<bool>, payload: Seq<u8>|
                    vals.len() == length && #[trigger] frame_encodes_nodict(
                        c2,
                        vals,
                        valid,
                        w as nat,
                        payload,
                        bytes,
                    ) implies false by {
                    lemma_frame_fields(bytes, c2, payload);
                    crate::codec::lemma_codec_code_injective(c2, c2);
                }
            }
            return Err(e);
        },
    };
    let csize: usize = csize64 as usize;
    if n - pos - 9 < csize {
        proof {
            assert forall|c2: Codec, vals: Seq<u64>, valid: Seq<bool>, payload: Seq<u8>|
                vals.len() == length && #[trigger] frame_encodes_nodict(
                    c2,
                    vals,
                    valid,
                    w as nat,
                    payload,
                    bytes,
                ) implies false by {
                lemma_frame_fields(bytes, c2, payload);
            }
        }
        return Err(NativeError::Truncated);
    }
    let ghost payload_actual = input@.subrange((pos + 9) as int, (pos + 9 + csize) as int);
    proof {
        assert(payload_actual =~= bytes.subrange(9, 9 + csize as int));
    }
    let dr: Result<(), NativeError> = match c {
        Codec::Plain => decompress_plain(input, pos + 9, csize, length, w, output),
        Codec::OneValue => OneValue {}.decompress(input, pos + 9, csize, length, w, output),
        Codec::Rle => Rle {}.decompress(input, pos + 9, csize, length, w, output),
        Codec::Freq => Freq {}.decompress(input, pos + 9, csize, length, w, output),
        Codec::Delta => Delta {}.decompress(input, pos + 9, csize, length, w, output),
        Codec::Bitpacking => {
            if w == 4 {
                Bitpacking {}.decompress(input, pos + 9, csize, length, output)
            } else {
                Err(NativeError::InvalidPayload)
            }
        },
        Codec::DeltaBitpacking => {
            if w == 4 {
                DeltaBitpacking {}.decompress(input, pos + 9, csize, length, output)
            } else {
                Err(NativeError::InvalidPayload)
            }
        },
        _ => Err(NativeError::InvalidPayload),
    };
    proof {
        assert forall|c2: Codec, vals: Seq<u64>, valid: Seq<bool>, payload: Seq<u8>|
            vals.len() == length && #[trigger] frame_encodes_nodict(
                c2,
                vals,
                valid,
                w as nat,
                payload,
                bytes,
            ) implies dr is Ok && masked_eq(
            output@.skip(old(output)@.len() as int),
            vals,
            valid,
        ) && (c2 != Codec::OneValue ==> output@ == old(output)@ + vals) && payload.len()
            == csize by {
            lemma_frame_fields(bytes, c2, payload);
            assert(codec_code(c2) == code);
            crate::codec::lemma_codec_code_injective(c2, c);
            assert(c2 == c);
            assert(le_value_of(bytes.subrange(1, 5)) == payload.len());
            assert(csize64 as nat == le_value_of(bytes.subrange(1, 5)));
            assert(csize == payload.len());
            assert(payload == bytes.subrange(9, 9 + payload.len() as int));
            assert(payload_actual == payload);
            lemma_nodict_parse_round_trip(c, vals, valid, w as nat, payload);
            match c {
                Codec::Plain => {
                    assert(plain_parse(payload_actual, length as nat, w as nat) == Some(vals));
                },
                Codec::OneValue => {
                    assert(ov_parse(payload_actual, length as nat, w as nat) == Some(
                        int_decoded_nodict(c, vals, valid),
                    ));
                },
                Codec::Rle => {
                    assert(rle_parse(payload_actual, length as nat, w as nat) == Some(vals));
                },
                Codec::Freq => {
                    assert(freq_parse(payload_actual, length as nat, w as nat) == Some(vals));
                },
                Codec::Delta => {
                    assert(delta_parse(payload_actual, length as nat, w as nat) == Some(vals));
                },
                Codec::Bitpacking => {
                    assert(bp_encodes(vals, length as nat, payload_actual));
                },
                Codec::DeltaBitpacking => {
                    assert(dbp_encodes(vals, length as nat, payload_actual));
                },
                _ => {},
            }
            match c {
                Codec::Plain => {
                    assert(dr is Ok);
                },
                Codec::OneValue => {
                    assert(dr is Ok);
                },
                Codec::Rle => {
                    assert(dr is Ok);
                },
                Codec::Freq => {
                    assert(dr is Ok);
                },
                Codec::Delta => {
                    assert(dr is Ok);
                },
                Codec::Bitpacking => {
                    assert(dr is Ok);
                },
                Codec::DeltaBitpacking => {
                    assert(dr is Ok);
                },
                _ => {
                    assert(false);
                },
            }
            assert(dr is Ok);
            if c == Codec::OneValue {
                assert(output@.skip(old(output)@.len() as int) == int_decoded_nodict(
                    c,
                    vals,
                    valid,
                ));
                assert(masked_eq(output@.skip(old(output)@.len() as int), vals, valid));
            } else {
                assert(output@.skip(old(output)@.len() as int) =~= vals) by {
                    if c != Codec::Bitpacking && c != Codec::DeltaBitpacking {
                        assert(output@.skip(old(output)@.len() as int) == vals);
                    } else {
                        assert(output@ == old(output)@ + vals);
                        assert((old(output)@ + vals).skip(old(output)@.len() as int) =~= vals);
                    }
                }
                assert(output@.take(old(output)@.len() as int) =~= old(output)@);
                assert(output@ =~= old(output)@ + vals);
            }
        }
    }
    match dr {
        Ok(()) => Ok(pos + 9 + csize),
        Err(e) => Err(e),
    }
}

/// A valid payload of each non-dictionary codec decodes to the page it was
/// made from: the per-codec round trips, gathered in one place. The
/// one-value codec restores every present slot; the others restore every
/// storage slot.
pub proof fn lemma_nodict_parse_round_trip(
    c: Codec,
    vals: Seq<u64>,
    valid: Seq<bool>,
    w: nat,
    payload: Seq<u8>,
)
    requires
        1 <= w <= 8,
        vals.len() <= MAX_PAGE_LEN,
        int_payload_nodict(c, vals, valid, w, payload),
    ensures
        c == Codec::Plain ==> plain_parse(payload, vals.len(), w) == Some(vals),
        c == Codec::OneValue ==> ov_parse(payload, vals.len(), w) == Some(
            int_decoded_nodict(c, vals, valid),
        ) && masked_eq(int_decoded_nodict(c, vals, valid), vals, valid),
        c == Codec::Rle ==> rle_parse(payload, vals.len(), w) == Some(vals),
        c == Codec::Freq ==> freq_parse(payload, vals.len(), w) == Some(vals),
        c == Codec::Delta ==> delta_parse(payload, vals.len(), w) == Some(vals),
{
    match c {
        Codec::Plain => {
            crate::basic::lemma_plain_round_trip(vals, w);
        },
        Codec::OneValue => {
            crate::one_value::lemma_ov_round_trip(vals, valid, w);
        },
        Codec::Rle => {
            crate::rle::lemma_rle_round_trip(vals, w);
        },
        Codec::Freq => {
            let f = choose|f: u64| payload == freq_payload(vals, w, f);
            crate::freq::lemma_freq_round_trip(vals, w, f);
        },
        Codec::Delta => {
            crate::delta::lemma_delta_round_trip(vals, w);
        },
        _ => {},
    }
}


/// `payload` is a valid `c`-encoding of the page: the dictionary codec sees
/// the validity bitmap, every other codec encodes the raw storage slots.
pub open spec fn int_payload_full(
    c: Codec,
    vals: Seq<u64>,
    valid: Seq<bool>,
    w: nat,
    payload: Seq<u8>,
) -> bool {
    if c == Codec::Dict {
        crate::dict::dict_encodes(vals, valid, w, payload)
    } else {
        int_payload_nodict(c, vals, valid, w, payload)
    }
}

/// Compresses one integer page: computes its statistics, picks a codec,
/// and appends one complete self-describing frame to `buf`.
///
/// The codec identifier written is never a forbidden one, and the frame
/// decodes back to the page: exactly for every codec but the dictionary
/// and the one-value codec, which restore at least every present slot.
/// The one-value codec is pinned: it is written whenever it is allowed,
/// its gate holds, and the page length beats the threshold.
pub fn compress_integer(
    array: &PrimitivePage,
    write_options: &WriteOptions,
    buf: &mut Vec<u8>,
) -> (r: Result<(), NativeError>)
    requires
        array.wf(),
        array.spec_len() <= MAX_PAGE_LEN,
        write_options.wf(),
    ensures
        match r {
            Ok(()) => exists|c: Codec, payload: Seq<u8>|
                {
                    &&& #[trigger] int_payload_full(
                        c,
                        array.values@,
                        array.valid_seq(),
                        kind_width(array.kind),
                        payload,
                    )
                    &&& selection_ok(c, *array, *write_options)
                    &&& payload.len() < 0x1_0000_0000
                    &&& final(buf)@ == old(buf)@ + frame_seq(
                        c,
                        array.spec_len() * kind_width(array.kind),
                        payload,
                    )
                },
            Err(e) => false,
        },
        // on a page the harness compresses whole, the codec byte written is
        // the selection fold's choice for any summary of the page (the
        // fold reads only page-determined fields; see
        // lemma_selection_deterministic)
        (match write_options.default_compress_ratio {
            Some(th) => array.spec_len() / (SAMPLE_COUNT as nat) <= SAMPLE_SIZE as nat ==> r is Ok
                && final(buf)@.len() > old(buf)@.len() && exists|st: IntegerStats|
                #[trigger] st.describes(*array) && final(buf)@[old(buf)@.len() as int]
                    == codec_code(sel_state(*array, st, *write_options, th, 7).0),
            None => true,
        }),
        // the one-value codec, first in order and perfect when gated, is
        // pinned: it wins whenever it is allowed and beats the threshold
        (match write_options.default_compress_ratio {
            Some(th) => !write_options.forbidden_compressions@.contains(Codec::OneValue)
                && one_value_beats(*array, th),
            None => false,
        }) ==> r is Ok && final(buf)@.len() > old(buf)@.len() && final(buf)@[old(buf)@.len() as int]
            == codec_code(Codec::OneValue),
{
    let stats: IntegerStats = gen_stats(array);
    let c: Codec = choose_compressor(array, &stats, write_options);
    proof {
        match write_options.default_compress_ratio {
            Some(th) => {
                if !write_options.forbidden_compressions@.contains(Codec::OneValue)
                    && one_value_beats(*array, th) {
                    assert(spec_ratio_one_value(stats).spec_gt(th));
                    assert(c == Codec::OneValue);
                }
            },
            None => {},
        }
    }
    let w: usize = array.kind.width();
    let len: usize = array.values.len();
    proof {
        lemma_pow256_values();
        assert(len * w <= MAX_PAGE_LEN * 8) by (nonlinear_arith)
            requires
                len <= MAX_PAGE_LEN,
                w <= 8,
        ;
    }
    if matches!(c, Codec::Dict) {
        let mut pbuf: Vec<u8> = Vec::new();
        match (crate::dict::Dict {}).compress(array, write_options, &mut pbuf) {
            Ok(_nb) => {},
            Err(e) => {
                proof {
                    assert(false);
                }
                return Err(e);
            },
        }
        let ghost pseq = pbuf@;
        emit_frame(c, pbuf, (len * w) as u64, buf);
        proof {
            assert(pseq =~= pseq.skip(0));
            assert(crate::dict::dict_encodes(
                array.values@,
                array.valid_seq(),
                kind_width(array.kind),
                pseq,
            ));
            assert(int_payload_full(
                c,
                array.values@,
                array.valid_seq(),
                kind_width(array.kind),
                pseq,
            ));
        }
        return Ok(());
    }
    proof {
        assert(c == Codec::Plain || !is_generic(c));
    }
    let mut payload: Vec<u8> = Vec::new();
    match compress_payload_nodict(c, array, &stats, &mut payload) {
        Ok(()) => {},
        Err(e) => {
            return Err(e);
        },
    }
    let ghost pseq = payload@;
    proof {
        assert(12 * len + 16 < 0x1_0000_0000) by (nonlinear_arith)
            requires
                len <= MAX_PAGE_LEN,
        ;
    }
    emit_frame(c, payload, (len * w) as u64, buf);
    proof {
        assert(int_payload_full(
            c,
            array.values@,
            array.valid_seq(),
            kind_width(array.kind),
            pseq,
        ));
    }
    Ok(())
}

/// Decodes one frame lying at `input[pos..]` and appends its `length`
/// slots to `output`; returns the position after the frame. A frame any
/// codec of the catalog wrote for a page of `length` slots comes back: the
/// exact storage for every codec but the dictionary and the one-value
/// codec, and at least every present slot for those two. A truncated
/// header or payload and an identifier outside the catalog are forced to
/// their error kinds.
#[verifier::rlimit(100)]
#[verifier::spinoff_prover]
pub fn decompress_integer(
    input: &[u8],
    pos: usize,
    length: usize,
    w: usize,
    output: &mut Vec<u64>,
) -> (r: Result<usize, NativeError>)
    requires
        pos <= input@.len(),
        1 <= w <= 8,
        length <= MAX_PAGE_LEN,
    ensures
        forall|c: Codec, vals: Seq<u64>, valid: Seq<bool>, payload: Seq<u8>|
            vals.len() == length && #[trigger] frame_encodes_nodict(
                c,
                vals,
                valid,
                w as nat,
                payload,
                input@.skip(pos as int),
            ) ==> r == Ok::<usize, NativeError>((pos + 9 + payload.len()) as usize) && masked_eq(
                final(output)@.skip(old(output)@.len() as int),
                vals,
                valid,
            ) && (c != Codec::OneValue ==> final(output)@ == old(output)@ + vals),
        forall|vals: Seq<u64>, valid: Seq<bool>, payload: Seq<u8>|
            vals.len() == length && payload.len() < 0x1_0000_0000 && length * w < 0x1_0000_0000
                && input@.skip(pos as int).len() >= 9 + payload.len() && (exists|unc: nat|
                unc < 0x1_0000_0000 && input@.skip(pos as int).subrange(
                    0,
                    9 + payload.len() as int,
                ) == #[trigger] frame_seq(Codec::Dict, unc, payload))
                && #[trigger] crate::dict::dict_encodes(vals, valid, w as nat, payload) ==> r
                == Ok::<usize, NativeError>((pos + 9 + payload.len()) as usize) && masked_eq(
                final(output)@.skip(old(output)@.len() as int),
                vals,
                valid,
            ),
        input@.len() - pos < 9 ==> r == Err::<usize, NativeError>(NativeError::Truncated),
        input@.len() - pos >= 9 && codec_of_code(input@[pos as int]) is None ==> r == Err::<
            usize,
            NativeError,
        >(NativeError::UnknownCodec),
        input@.len() - pos >= 9 && codec_of_code(input@[pos as int]) is Some && 9 + le_value_of(
            input@.subrange((pos + 1) as int, (pos + 5) as int),
        ) > input@.len() - pos ==> r == Err::<usize, NativeError>(NativeError::Truncated),
        match r {
            Ok(np) => {
                &&& pos + 9 <= np <= input@.len()
                &&& np == pos + 9 + le_value_of(
                    input@.subrange((pos + 1) as int, (pos + 5) as int),
                )
                &&& final(output)@.len() == old(output)@.len() + length
                &&& final(output)@.take(old(output)@.len() as int) == old(output)@
                &&& forall|i: int|
                    old(output)@.len() <= i < final(output)@.len() ==> ((final(
                        output)@[i]) as nat) < pow256(w as nat)
            },
            Err(e) => final(output)@ == old(output)@ && (e == NativeError::Truncated || e
                == NativeError::UnknownCodec || e == NativeError::InvalidPayload),
        },
{
    let n: usize = input.len();
    let ghost bytes = input@.skip(pos as int);
    if n - pos >= 9 && input[pos] == 11 {
        // the dictionary frame: parse the header here, decode the payload
        let csize64: u64 = read_le(input, pos + 1, 4);
        proof {
            lemma_pow256_values();
            assert(bytes[0] == input@[pos as int]);
            assert(input@.subrange((pos + 1) as int, (pos + 5) as int) =~= bytes.subrange(1, 5));
        }
        let csize: usize = csize64 as usize;
        if n - pos - 9 < csize {
            proof {
                assert forall|vals: Seq<u64>, valid: Seq<bool>, payload: Seq<u8>|
                    vals.len() == length && payload.len() < 0x1_0000_0000 && length * w
                        < 0x1_0000_0000 && bytes.len() >= 9 + payload.len() && (exists|unc: nat|
                        unc < 0x1_0000_0000 && bytes.subrange(0, 9 + payload.len() as int)
                            == #[trigger] frame_seq(Codec::Dict, unc, payload))
                        && #[trigger] crate::dict::dict_encodes(
                        vals,
                        valid,
                        w as nat,
                        payload,
                    ) implies false by {
                    lemma_frame_fields(bytes, Codec::Dict, payload);
                }
                assert forall|c: Codec, vals: Seq<u64>, valid: Seq<bool>, payload: Seq<u8>|
                    vals.len() == length && #[trigger] frame_encodes_nodict(
                        c,
                        vals,
                        valid,
                        w as nat,
                        payload,
                        bytes,
                    ) implies false by {
                    lemma_frame_fields(bytes, c, payload);
                    crate::codec::lemma_codec_code_injective(c, Codec::Dict);
                }
            }
            return Err(NativeError::Truncated);
        }
        let ghost payload_actual = input@.subrange((pos + 9) as int, (pos + 9 + csize) as int);
        proof {
            assert(payload_actual =~= bytes.subrange(9, 9 + csize as int));
        }
        let dr: Result<(), NativeError> = (crate::dict::Dict {}).decompress(
            input,
            pos + 9,
            csize,
            length,
            w,
            output,
        );
        proof {
            assert forall|c: Codec, vals: Seq<u64>, valid: Seq<bool>, payload: Seq<u8>|
                vals.len() == length && #[trigger] frame_encodes_nodict(
                    c,
                    vals,
                    valid,
                    w as nat,
                    payload,
                    bytes,
                ) implies false by {
                lemma_frame_fields(bytes, c, payload);
                crate::codec::lemma_codec_code_injective(c, Codec::Dict);
            }
            assert forall|vals: Seq<u64>, valid: Seq<bool>, payload: Seq<u8>|
                vals.len() == length && payload.len() < 0x1_0000_0000 && length * w
                    < 0x1_0000_0000 && bytes.len() >= 9 + payload.len() && (exists|unc: nat|
                    unc < 0x1_0000_0000 && bytes.subrange(0, 9 + payload.len() as int)
                        == #[trigger] frame_seq(Codec::Dict, unc, payload))
                    && #[trigger] crate::dict::dict_encodes(
                    vals,
                    valid,
                    w as nat,
                    payload,
                ) implies dr is Ok && masked_eq(
                output@.skip(old(output)@.len() as int),
                vals,
                valid,
            ) && payload.len() == csize by {
                lemma_frame_fields(bytes, Codec::Dict, payload);
                assert(payload_actual == payload);
            }
        }
        match dr {
            Ok(()) => {
                return Ok(pos + 9 + csize);
            },
            Err(e) => {
                return Err(e);
            },
        }
    }
    // every other codec: the shared non-dictionary path
    let r: Result<usize, NativeError> = decompress_integer_nodict(input, pos, length, w, output);
    proof {
        assert forall|vals: Seq<u64>, valid: Seq<bool>, payload: Seq<u8>|
            vals.len() == length && payload.len() < 0x1_0000_0000 && length * w < 0x1_0000_0000
                && bytes.len() >= 9 + payload.len() && (exists|unc: nat|
                unc < 0x1_0000_0000 && bytes.subrange(0, 9 + payload.len() as int)
                    == #[trigger] frame_seq(Codec::Dict, unc, payload))
                && #[trigger] crate::dict::dict_encodes(
                vals,
                valid,
                w as nat,
                payload,
            ) implies false by {
            lemma_frame_fields(bytes, Codec::Dict, payload);
            assert(bytes[0] == codec_code(Codec::Dict));
            assert(n - pos >= 9);
        }
    }
    r
}

} // verus!
