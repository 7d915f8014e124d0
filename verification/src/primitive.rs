use vstd::prelude::*;

use crate::boolean::{bool_frame_encodes, bool_payload, compress_boolean, decompress_boolean};
use crate::codec::{codec_of_code, Codec};
use crate::error::NativeError;
use crate::integer::{
    compress_integer, decompress_integer, frame_encodes_nodict, frame_seq, int_payload_full,
    WriteOptions,
};
use crate::bytes::{le_value_of, pow256};
use crate::page::{all_true, kind_bound, kind_width, masked_eq, BooleanPage, PrimitivePage, PrimKind};
use crate::stats::MAX_PAGE_LEN;

verus! {

/// Masked equality of booleans against an all-present bitmap is equality.
pub proof fn lemma_masked_bool_all_true(decoded: Seq<bool>, original: Seq<bool>)
    requires
        crate::page::masked_eq_bool(decoded, original, all_true(original.len())),
    ensures
        decoded == original,
{
    assert(decoded =~= original);
}

/// Compresses one float page: the slots carry IEEE-754 bit patterns, and
/// the float catalog holds the one-value, dictionary and frequency codecs
/// beside the generic default. Equality is bit-pattern equality, so a
/// round trip is bit-exact.
pub fn compress_double(
    array: &PrimitivePage,
    write_options: &WriteOptions,
    buf: &mut Vec<u8>,
) -> (r: Result<(), NativeError>)
    requires
        array.wf(),
        array.spec_len() <= MAX_PAGE_LEN,
        write_options.wf(),
    ensures
        match r {
            Ok(()) => exists|c: Codec, payload: Seq<u8>|
                {
                    &&& #[trigger] int_payload_full(
                        c,
                        array.values@,
                        array.valid_seq(),
                        kind_width(array.kind),
                        payload,
                    )
                    &&& !write_options.forbidden_compressions@.contains(c)
                    &&& payload.len() < 0x1_0000_0000
                    &&& final(buf)@ == old(buf)@ + frame_seq(
                        c,
                        array.spec_len() * kind_width(array.kind),
                        payload,
                    )
                },
            Err(e) => false,
        },
{
    let mut forb: Vec<Codec> = Vec::new();
    let mut k: usize = 0;
    let fn_len: usize = write_options.forbidden_compressions.len();
    while k < fn_len
        invariant
            k <= fn_len == write_options.forbidden_compressions@.len(),
            forb@ == write_options.forbidden_compressions@.take(k as int),
        decreases fn_len - k,
    {
        forb.push(write_options.forbidden_compressions[k]);
        proof {
            assert(forb@ =~= write_options.forbidden_compressions@.take(k + 1));
        }
        k = k + 1;
    }
    proof {
        assert(forb@ =~= write_options.forbidden_compressions@);
    }
    forb.push(Codec::Rle);
    forb.push(Codec::Delta);
    forb.push(Codec::Bitpacking);
    forb.push(Codec::DeltaBitpacking);
    let opts2 = WriteOptions {
        default_compression: write_options.default_compression,
        default_compress_ratio: match &write_options.default_compress_ratio {
            Some(t) => Some(*t),
            None => None,
        },
        max_page_size: match &write_options.max_page_size {
            Some(m) => Some(*m),
            None => None,
        },
        forbidden_compressions: forb,
    };
    proof {
        assert(opts2.wf()) by {
            if opts2.forbidden_compressions@.contains(opts2.default_compression) {
                let t = choose|t: int|
                    0 <= t < opts2.forbidden_compressions@.len()
                        && opts2.forbidden_compressions@[t] == opts2.default_compression;
                if t < write_options.forbidden_compressions@.len() {
                    assert(write_options.forbidden_compressions@.contains(
                        write_options.default_compression,
                    ));
                }
            }
        }
    }
    let r = compress_integer(array, &opts2, buf);
    proof {
        if r is Ok {
            let (c, payload): (Codec, Seq<u8>) = choose|c: Codec, payload: Seq<u8>|
                {
                    &&& #[trigger] int_payload_full(
                        c,
                        array.values@,
                        array.valid_seq(),
                        kind_width(array.kind),
                        payload,
                    )
                    &&& crate::integer::selection_ok(c, *array, opts2)
                    &&& payload.len() < 0x1_0000_0000
                    &&& buf@ == old(buf)@ + frame_seq(
                        c,
                        array.spec_len() * kind_width(array.kind),
                        payload,
                    )
                };
            assert(!write_options.forbidden_compressions@.contains(c)) by {
                if write_options.forbidden_compressions@.contains(c) {
                    let t = choose|t: int|
                        0 <= t < write_options.forbidden_compressions@.len()
                            && write_options.forbidden_compressions@[t] == c;
                    assert(opts2.forbidden_compressions@[t] == c);
                    assert(opts2.forbidden_compressions@.contains(c));
                }
            }
        }
    }
    r
}

/// Decodes one float frame: identical to the integer read path, since the
/// slots carry bit patterns.
pub fn decompress_double(
    input: &[u8],
    pos: usize,
    length: usize,
    w: usize,
    output: &mut Vec<u64>,
) -> (r: Result<usize, NativeError>)
    requires
        pos <= input@.len(),
        1 <= w <= 8,
        length <= MAX_PAGE_LEN,
    ensures
        forall|c: Codec, vals: Seq<u64>, valid: Seq<bool>, payload: Seq<u8>|
            vals.len() == length && #[trigger] frame_encodes_nodict(
                c,
                vals,
                valid,
                w as nat,
                payload,
                input@.skip(pos as int),
            ) ==> r == Ok::<usize, NativeError>((pos + 9 + payload.len()) as usize) && masked_eq(
                final(output)@.skip(old(output)@.len() as int),
                vals,
                valid,
            ) && (c != Codec::OneValue ==> final(output)@ == old(output)@ + vals),
        forall|vals: Seq<u64>, valid: Seq<bool>, payload: Seq<u8>|
            vals.len() == length && payload.len() < 0x1_0000_0000 && length * w < 0x1_0000_0000
                && input@.skip(pos as int).len() >= 9 + payload.len()
                && input@.skip(pos as int).subrange(0, 9 + payload.len() as int) == frame_seq(
                Codec::Dict,
                (length * w) as nat,
                payload,
            ) && #[trigger] crate::dict::dict_encodes(vals, valid, w as nat, payload) ==> r
                == Ok::<usize, NativeError>((pos + 9 + payload.len()) as usize) && masked_eq(
                final(output)@.skip(old(output)@.len() as int),
                vals,
                valid,
            ),
        match r {
            Ok(np) => {
                &&& pos + 9 <= np <= input@.len()
                &&& np == pos + 9 + le_value_of(
                    input@.subrange((pos + 1) as int, (pos + 5) as int),
                )
                &&& final(output)@.len() == old(output)@.len() + length
                &&& final(output)@.take(old(output)@.len() as int) == old(output)@
                &&& forall|i: int|
                    old(output)@.len() <= i < final(output)@.len() ==> ((final(
                        output)@[i]) as nat) < pow256(w as nat)
            },
            Err(e) => final(output)@ == old(output)@ && (e == NativeError::Truncated || e
                == NativeError::UnknownCodec || e == NativeError::InvalidPayload),
        },
{
    decompress_integer(input, pos, length, w, output)
}

/// Writes one primitive page: the validity bitmap travels first as its own
/// boolean page, then the values page follows.
pub fn write_primitive(
    array: &PrimitivePage,
    write_options: &WriteOptions,
    buf: &mut Vec<u8>,
) -> (r: Result<(), NativeError>)
    requires
        array.wf(),
        array.spec_len() <= MAX_PAGE_LEN,
        write_options.wf(),
    ensures
        match r {
            Ok(()) => {
                &&& (array.validity is None ==> exists|c: Codec, payload: Seq<u8>|
                    {
                        &&& #[trigger] int_payload_full(
                            c,
                            array.values@,
                            array.valid_seq(),
                            kind_width(array.kind),
                            payload,
                        )
                        &&& crate::integer::selection_ok(c, *array, *write_options)
                        &&& payload.len() < 0x1_0000_0000
                        &&& final(buf)@ == old(buf)@ + frame_seq(
                            c,
                            array.spec_len() * kind_width(array.kind),
                            payload,
                        )
                    })
                &&& (match array.validity {
                    Some(bm) => exists|cb: Codec, bpayload: Seq<u8>, c: Codec, payload: Seq<u8>|
                        {
                            &&& #[trigger] bool_payload(
                                cb,
                                bm@,
                                all_true(array.spec_len()),
                                bpayload,
                            )
                            &&& #[trigger] int_payload_full(
                                c,
                                array.values@,
                                array.valid_seq(),
                                kind_width(array.kind),
                                payload,
                            )
                            &&& !write_options.forbidden_compressions@.contains(cb)
                            &&& crate::integer::selection_ok(c, *array, *write_options)
                            &&& bpayload.len() < 0x1_0000_0000
                            &&& payload.len() < 0x1_0000_0000
                            &&& final(buf)@ == old(buf)@ + frame_seq(
                                cb,
                                (array.spec_len() + 7) / 8,
                                bpayload,
                            ) + frame_seq(c, array.spec_len() * kind_width(array.kind), payload)
                        },
                    None => true,
                })
            },
            Err(e) => false,
        },
{
    match &array.validity {
        Some(bm) => {
            let mut vbits: Vec<bool> = Vec::new();
            let mut j: usize = 0;
            let n: usize = bm.len();
            while j < n
                invariant
                    j <= n == bm@.len(),
                    vbits@ == bm@.take(j as int),
                decreases n - j,
            {
                vbits.push(bm[j]);
                proof {
                    assert(vbits@ =~= bm@.take(j + 1));
                }
                j = j + 1;
            }
            proof {
                assert(vbits@ =~= bm@);
            }
            let vpage = BooleanPage { values: vbits, validity: None };
            let ghost mid0 = buf@;
            match compress_boolean(&vpage, buf, write_options) {
                Ok(()) => {},
                Err(e) => {
                    proof {
                        assert(false);
                    }
                    return Err(e);
                },
            }
            let ghost mid1 = buf@;
            match compress_integer(array, write_options, buf) {
                Ok(()) => {},
                Err(e) => {
                    proof {
                        assert(false);
                    }
                    return Err(e);
                },
            }
            proof {
                let (cb, bpayload): (Codec, Seq<u8>) = choose|cb: Codec, bpayload: Seq<u8>|
                    {
                        &&& #[trigger] bool_payload(cb, vpage.values@, vpage.valid_seq(), bpayload)
                        &&& !write_options.forbidden_compressions@.contains(cb)
                        &&& bpayload.len() < 0x1_0000_0000
                        &&& mid1 == mid0 + frame_seq(cb, (vpage.spec_len() + 7) / 8, bpayload)
                    };
                let (c, payload): (Codec, Seq<u8>) = choose|c: Codec, payload: Seq<u8>|
                    {
                        &&& #[trigger] int_payload_full(
                            c,
                            array.values@,
                            array.valid_seq(),
                            kind_width(array.kind),
                            payload,
                        )
                        &&& crate::integer::selection_ok(c, *array, *write_options)
                        &&& payload.len() < 0x1_0000_0000
                        &&& buf@ == mid1 + frame_seq(
                            c,
                            array.spec_len() * kind_width(array.kind),
                            payload,
                        )
                    };
                assert(vpage.valid_seq() =~= all_true(array.spec_len()));
                assert(buf@ =~= old(buf)@ + frame_seq(cb, (array.spec_len() + 7) / 8, bpayload)
                    + frame_seq(c, array.spec_len() * kind_width(array.kind), payload));
            }
            Ok(())
        },
        None => compress_integer(array, write_options, buf),
    }
}

/// Reads one primitive page written by `write_primitive`: the validity
/// page first when the column is nullable, then the values page. Returns
/// the page and the position after it. Every frame pair the writer put
/// down comes back: the validity bits exactly, the values exactly for
/// every codec but the dictionary and the one-value codec, and at least
/// every present slot for those two.
#[verifier::rlimit(100)]
#[verifier::spinoff_prover]
pub fn read_primitive(
    input: &[u8],
    pos: usize,
    length: usize,
    kind: PrimKind,
    is_nullable: bool,
) -> (r: Result<(PrimitivePage, usize), NativeError>)
    requires
        pos <= input@.len(),
        length <= MAX_PAGE_LEN,
    ensures
        match r {
            Ok(pr) => {
                &&& pr.0.wf()
                &&& pr.0.kind == kind
                &&& pr.0.spec_len() == length
                &&& (pr.0.validity is Some) == is_nullable
                &&& pos <= pr.1 <= input@.len()
            },
            Err(e) => true,
        },
        !is_nullable ==> (forall|c: Codec, vals: Seq<u64>, valid: Seq<bool>, payload: Seq<u8>|
            vals.len() == length && #[trigger] frame_encodes_nodict(
                c,
                vals,
                valid,
                kind_width(kind),
                payload,
                input@.skip(pos as int),
            ) ==> (match r {
                Ok(pr) => pr.1 == pos + 9 + payload.len() && masked_eq(pr.0.values@, vals, valid)
                    && (c != Codec::OneValue ==> pr.0.values@ == vals),
                Err(e) => false,
            })),
        !is_nullable ==> (forall|vals: Seq<u64>, valid: Seq<bool>, payload: Seq<u8>|
            vals.len() == length && payload.len() < 0x1_0000_0000 && length * kind_width(kind)
                < 0x1_0000_0000 && input@.skip(pos as int).len() >= 9 + payload.len() && (exists|unc: nat|
                unc < 0x1_0000_0000 && input@.skip(pos as int).subrange(
                    0,
                    9 + payload.len() as int,
                ) == #[trigger] frame_seq(Codec::Dict, unc, payload))
                && #[trigger] crate::dict::dict_encodes(vals, valid, kind_width(kind), payload)
                ==> (match r {
                Ok(pr) => pr.1 == pos + 9 + payload.len() && masked_eq(pr.0.values@, vals, valid),
                Err(e) => false,
            })),
        is_nullable ==> (forall|
            cb: Codec,
            vbits: Seq<bool>,
            bpayload: Seq<u8>,
            c: Codec,
            vals: Seq<u64>,
            valid: Seq<bool>,
            payload: Seq<u8>,
        |
            vbits.len() == length && #[trigger] bool_frame_encodes(
                cb,
                vbits,
                all_true(length as nat),
                bpayload,
                input@.skip(pos as int),
            ) && vals.len() == length && #[trigger] frame_encodes_nodict(
                c,
                vals,
                valid,
                kind_width(kind),
                payload,
                input@.skip((pos + 9 + bpayload.len()) as int),
            ) ==> (match r {
                Ok(pr) => {
                    &&& pr.1 == pos + 9 + bpayload.len() + 9 + payload.len()
                    &&& pr.0.valid_seq() == vbits
                    &&& masked_eq(pr.0.values@, vals, valid)
                    &&& (c != Codec::OneValue ==> pr.0.values@ == vals)
                },
                Err(e) => false,
            })),
        is_nullable ==> (forall|
            cb: Codec,
            vbits: Seq<bool>,
            bpayload: Seq<u8>,
            vals: Seq<u64>,
            valid: Seq<bool>,
            payload: Seq<u8>,
        |
            vbits.len() == length && #[trigger] bool_frame_encodes(
                cb,
                vbits,
                all_true(length as nat),
                bpayload,
                input@.skip(pos as int),
            ) && vals.len() == length && payload.len() < 0x1_0000_0000 && length * kind_width(
                kind,
            ) < 0x1_0000_0000 && input@.skip((pos + 9 + bpayload.len()) as int).len() >= 9
                + payload.len() && (exists|unc: nat|
                unc < 0x1_0000_0000 && input@.skip((pos + 9 + bpayload.len()) as int).subrange(
                    0,
                    9 + payload.len() as int,
                ) == #[trigger] frame_seq(Codec::Dict, unc, payload))
                && #[trigger] crate::dict::dict_encodes(vals, valid, kind_width(kind), payload)
                ==> (match r {
                Ok(pr) => {
                    &&& pr.1 == pos + 9 + bpayload.len() + 9 + payload.len()
                    &&& pr.0.valid_seq() == vbits
                    &&& masked_eq(pr.0.values@, vals, valid)
                },
                Err(e) => false,
            })),
{
    let n: usize = input.len();
    let w: usize = kind.width();
    let mut pos2: usize = pos;
    let mut vbits_out: Vec<bool> = Vec::new();
    if is_nullable {
        pos2 = match decompress_boolean(input, pos, length, &mut vbits_out) {
            Ok(np) => np,
            Err(e) => {
                proof {
                    assert forall|
                        cb: Codec,
                        vbits: Seq<bool>,
                        bpayload: Seq<u8>,
                        c: Codec,
                        vals: Seq<u64>,
                        valid: Seq<bool>,
                        payload: Seq<u8>,
                    |
                        vbits.len() == length && #[trigger] bool_frame_encodes(
                            cb,
                            vbits,
                            all_true(length as nat),
                            bpayload,
                            input@.skip(pos as int),
                        ) && vals.len() == length && #[trigger] frame_encodes_nodict(
                            c,
                            vals,
                            valid,
                            kind_width(kind),
                            payload,
                            input@.skip((pos + 9 + bpayload.len()) as int),
                        ) implies false by {}
                }
                return Err(e);
            },
        };
    }
    let mut values: Vec<u64> = Vec::new();
    let np: usize = match decompress_integer(input, pos2, length, w, &mut values) {
        Ok(np) => np,
        Err(e) => {
            return Err(e);
        },
    };
    let page = PrimitivePage {
        kind,
        values,
        validity: if is_nullable {
            Some(vbits_out)
        } else {
            None
        },
    };
    proof {
        assert(page.wf()) by {
            crate::bytes::lemma_pow256_values();
        }
        if is_nullable {
            assert forall|
                cb: Codec,
                vbits: Seq<bool>,
                bpayload: Seq<u8>,
                c: Codec,
                vals: Seq<u64>,
                valid: Seq<bool>,
                payload: Seq<u8>,
            |
                vbits.len() == length && #[trigger] bool_frame_encodes(
                    cb,
                    vbits,
                    all_true(length as nat),
                    bpayload,
                    input@.skip(pos as int),
                ) && vals.len() == length && #[trigger] frame_encodes_nodict(
                    c,
                    vals,
                    valid,
                    kind_width(kind),
                    payload,
                    input@.skip((pos + 9 + bpayload.len()) as int),
                ) implies pos2 == pos + 9 + bpayload.len() && np == pos2 + 9 + payload.len()
                && page.valid_seq() == vbits && masked_eq(page.values@, vals, valid) && (c
                != Codec::OneValue ==> page.values@ == vals) by {
                assert(input@.skip(pos as int).len() >= 9 + bpayload.len());
                assert(pos + 9 + bpayload.len() <= n);
                assert(pos2 == pos + 9 + bpayload.len());
                assert(input@.skip((pos + 9 + bpayload.len()) as int) == input@.skip(
                    pos2 as int,
                ));
                assert(input@.skip(pos2 as int).len() >= 9 + payload.len());
                assert(pos2 + 9 + payload.len() <= n);
                assert(np == pos2 + 9 + payload.len());
                assert(crate::page::masked_eq_bool(
                    vbits_out@,
                    vbits,
                    all_true(length as nat),
                ));
                lemma_masked_bool_all_true(vbits_out@, vbits);
                assert(page.valid_seq() == vbits_out@);
                assert(page.values@ =~= page.values@.skip(0));
            }
            assert forall|
                cb: Codec,
                vbits: Seq<bool>,
                bpayload: Seq<u8>,
                vals: Seq<u64>,
                valid: Seq<bool>,
                payload: Seq<u8>,
            |
                vbits.len() == length && #[trigger] bool_frame_encodes(
                    cb,
                    vbits,
                    all_true(length as nat),
                    bpayload,
                    input@.skip(pos as int),
                ) && vals.len() == length && payload.len() < 0x1_0000_0000 && length * kind_width(
                    kind,
                ) < 0x1_0000_0000 && input@.skip((pos + 9 + bpayload.len()) as int).len() >= 9
                    + payload.len() && (exists|unc: nat|
                    unc < 0x1_0000_0000 && input@.skip(
                        (pos + 9 + bpayload.len()) as int,
                    ).subrange(0, 9 + payload.len() as int) == #[trigger] frame_seq(
                        Codec::Dict,
                        unc,
                        payload,
                    )) && #[trigger] crate::dict::dict_encodes(
                    vals,
                    valid,
                    kind_width(kind),
                    payload,
                ) implies pos2 == pos + 9 + bpayload.len() && np == pos2 + 9 + payload.len()
                && page.valid_seq() == vbits && masked_eq(page.values@, vals, valid) by {
                assert(input@.skip(pos as int).len() >= 9 + bpayload.len());
                assert(pos + 9 + bpayload.len() <= n);
                assert(pos2 == pos + 9 + bpayload.len());
                assert(input@.skip((pos + 9 + bpayload.len()) as int) == input@.skip(
                    pos2 as int,
                ));
                assert(pos2 + 9 + payload.len() <= n);
                assert(np == pos2 + 9 + payload.len());
                assert(crate::page::masked_eq_bool(
                    vbits_out@,
                    vbits,
                    all_true(length as nat),
                ));
                lemma_masked_bool_all_true(vbits_out@, vbits);
                assert(page.valid_seq() == vbits_out@);
                assert(page.values@ =~= page.values@.skip(0));
            }
        } else {
            assert forall|c: Codec, vals: Seq<u64>, valid: Seq<bool>, payload: Seq<u8>|
                vals.len() == length && #[trigger] frame_encodes_nodict(
                    c,
                    vals,
                    valid,
                    kind_width(kind),
                    payload,
                    input@.skip(pos as int),
                ) implies np == pos + 9 + payload.len() && masked_eq(page.values@, vals, valid)
                && (c != Codec::OneValue ==> page.values@ == vals) by {
                assert(input@.skip(pos as int).len() >= 9 + payload.len());
                assert(pos + 9 + payload.len() <= n);
                assert(page.values@ =~= page.values@.skip(0));
            }
            assert forall|vals: Seq<u64>, valid: Seq<bool>, payload: Seq<u8>|
                vals.len() == length && payload.len() < 0x1_0000_0000 && length * kind_width(kind)
                    < 0x1_0000_0000 && input@.skip(pos as int).len() >= 9 + payload.len() && (
                exists|unc: nat|
                    unc < 0x1_0000_0000 && input@.skip(pos as int).subrange(
                        0,
                        9 + payload.len() as int,
                    ) == #[trigger] frame_seq(Codec::Dict, unc, payload))
                    && #[trigger] crate::dict::dict_encodes(
                    vals,
                    valid,
                    kind_width(kind),
                    payload,
                ) implies np == pos + 9 + payload.len() && masked_eq(
                page.values@,
                vals,
                valid,
            ) by {
                assert(pos + 9 + payload.len() <= n);
                assert(page.values@ =~= page.values@.skip(0));
            }
        }
    }
    Ok((page, np))
}

} // verus!
