use vstd::prelude::*;

use vstd::arithmetic::mul::lemma_mul_inequality;

use crate::bytes::{le_bytes_of, le_value_of, lemma_le_bytes_len, lemma_le_bytes_value, pow256};
use crate::error::NativeError;
use crate::page::PrimitivePage;
use crate::stats::MAX_PAGE_LEN;

verus! {

/// The plain little-endian byte image of a page: each value in order, `w`
/// bytes each. This is what the generic byte codecs act on; the `Plain`
/// codec stores it unchanged.
pub open spec fn plain_payload(values: Seq<u64>, w: nat) -> Seq<u8>
    decreases values.len(),
{
    if values.len() == 0 {
        Seq::empty()
    } else {
        plain_payload(values.drop_last(), w) + le_bytes_of(values.last() as nat, w)
    }
}

/// What a plain payload of `length` slots of width `w` decodes to.
pub open spec fn plain_parse(payload: Seq<u8>, length: nat, w: nat) -> Option<Seq<u64>> {
    if payload.len() == length * w {
        Some(
            Seq::new(
                length,
                |i: int| le_value_of(payload.subrange(i * w, i * w + w)) as u64,
            ),
        )
    } else {
        None
    }
}

pub proof fn lemma_plain_payload_len(values: Seq<u64>, w: nat)
    ensures
        plain_payload(values, w).len() == values.len() * w,
    decreases values.len(),
{
    if values.len() == 0 {
    } else {
        lemma_plain_payload_len(values.drop_last(), w);
        lemma_le_bytes_len(values.last() as nat, w);
        assert((values.len() - 1) * w + w == values.len() * w) by (nonlinear_arith);
    }
}

/// Block `i` of the plain image is the little-endian form of value `i`.
pub proof fn lemma_plain_payload_index(values: Seq<u64>, w: nat, i: int)
    requires
        0 <= i < values.len(),
    ensures
        plain_payload(values, w).subrange(i * w, i * w + w) =~= le_bytes_of(values[i] as nat, w),
    decreases values.len(),
{
    lemma_plain_payload_len(values.drop_last(), w);
    lemma_le_bytes_len(values.last() as nat, w);
    if i == values.len() - 1 {
        assert(plain_payload(values, w).subrange(i * w, i * w + w) =~= le_bytes_of(
            values.last() as nat,
            w,
        ));
    } else {
        lemma_plain_payload_index(values.drop_last(), w, i);
        assert(i * w + w <= (values.len() - 1) * w) by (nonlinear_arith)
            requires
                i + 1 <= values.len() - 1,
                w >= 0,
        ;
        assert(plain_payload(values, w).subrange(i * w, i * w + w) =~= plain_payload(
            values.drop_last(),
            w,
        ).subrange(i * w, i * w + w));
    }
}

/// Decoding the plain image of a page gives the page back.
pub proof fn lemma_plain_round_trip(values: Seq<u64>, w: nat)
    requires
        w <= 8,
        forall|i: int| 0 <= i < values.len() ==> (values[i] as nat) < pow256(w),
    ensures
        plain_payload(values, w).len() == values.len() * w,
        plain_parse(plain_payload(values, w), values.len(), w) == Some(values),
{
    lemma_plain_payload_len(values, w);
    let payload = plain_payload(values, w);
    let decoded = Seq::new(
        values.len(),
        |i: int| le_value_of(payload.subrange(i * w, i * w + w)) as u64,
    );
    assert forall|i: int| 0 <= i < values.len() implies decoded[i] == values[i] by {
        lemma_plain_payload_index(values, w, i);
        lemma_le_bytes_value(values[i] as nat, w);
    }
    assert(decoded =~= values);
}

/// Appends the plain little-endian image of `array` to `output`; returns the
/// number of bytes written.
pub fn compress_plain(array: &PrimitivePage, output: &mut Vec<u8>) -> (r: usize)
    requires
        array.wf(),
        array.spec_len() <= MAX_PAGE_LEN,
    ensures
        final(output)@ == old(output)@ + plain_payload(
            array.values@,
            crate::page::kind_width(array.kind),
        ),
        r == array.spec_len() * crate::page::kind_width(array.kind),
        final(output)@.len() == old(output)@.len() + r,
{
    let w: usize = array.kind.width();
    let len: usize = array.values.len();
    let ghost vals = array.values@;
    let ghost orig = output@;
    proof {
        assert(vals.take(0) =~= Seq::<u64>::empty());
        assert(output@ =~= orig + plain_payload(vals.take(0), w as nat));
        lemma_plain_payload_len(vals, w as nat);
        assert(len * w <= MAX_PAGE_LEN * 8) by (nonlinear_arith)
            requires
                len <= MAX_PAGE_LEN,
                w <= 8,
        ;
    }
    let mut i: usize = 0;
    while i < len
        invariant
            i <= len == vals.len() <= MAX_PAGE_LEN,
            vals == array.values@,
            1 <= w <= 8,
            w == crate::page::kind_width(array.kind),
            output@ == orig + plain_payload(vals.take(i as int), w as nat),
            output@.len() == orig.len() + i * w,
        decreases len - i,
    {
        crate::bytes::push_le(output, array.values[i], w);
        proof {
            assert(vals.take(i + 1).drop_last() =~= vals.take(i as int));
            assert(vals.take(i + 1).last() == vals[i as int]);
            assert(output@ =~= orig + plain_payload(vals.take(i + 1), w as nat));
            lemma_le_bytes_len(vals[i as int] as nat, w as nat);
            assert(i * w + w == (i + 1) * w) by (nonlinear_arith);
            assert((i + 1) * w <= MAX_PAGE_LEN * 8) by (nonlinear_arith)
                requires
                    i + 1 <= MAX_PAGE_LEN,
                    w <= 8,
            ;
        }
        i = i + 1;
    }
    proof {
        assert(vals.take(len as int) =~= vals);
        lemma_plain_payload_len(vals, w as nat);
    }
    len * w
}

/// Decodes a plain payload of `payload_len` bytes at `input[pos..]` into
/// `length` slots appended to `output`.
pub fn decompress_plain(
    input: &[u8],
    pos: usize,
    payload_len: usize,
    length: usize,
    w: usize,
    output: &mut Vec<u64>,
) -> (r: Result<(), NativeError>)
    requires
        pos + payload_len <= input@.len(),
        1 <= w <= 8,
        length <= MAX_PAGE_LEN,
    ensures
        match r {
            Ok(()) => {
                &&& plain_parse(
                    input@.subrange(pos as int, (pos + payload_len) as int),
                    length as nat,
                    w as nat,
                ) == Some(final(output)@.skip(old(output)@.len() as int))
                &&& final(output)@.len() == old(output)@.len() + length
                &&& final(output)@.take(old(output)@.len() as int) == old(output)@
                &&& forall|i: int|
                    old(output)@.len() <= i < final(output)@.len() ==> (final(output)@[i] as nat) < pow256(w as nat)
            },
            Err(e) => {
                &&& final(output)@ == old(output)@
                &&& e == NativeError::InvalidPayload
                &&& plain_parse(
                    input@.subrange(pos as int, (pos + payload_len) as int),
                    length as nat,
                    w as nat,
                ) is None
            },
        },
{
    let n: usize = input.len();
    let ghost payload = input@.subrange(pos as int, (pos + payload_len) as int);
    proof {
        assert(length * w <= MAX_PAGE_LEN * 8) by (nonlinear_arith)
            requires
                length <= MAX_PAGE_LEN,
                w <= 8,
        ;
    }
    if payload_len != length * w {
        return Err(NativeError::InvalidPayload);
    }
    let mut decoded: Vec<u64> = Vec::new();
    let mut i: usize = 0;
    while i < length
        invariant
            i <= length <= MAX_PAGE_LEN,
            1 <= w <= 8,
            pos + payload_len <= n == input@.len(),
            payload_len == length * w,
            payload == input@.subrange(pos as int, (pos + payload_len) as int),
            decoded@.len() == i,
            forall|t: int|
                0 <= t < i ==> ((#[trigger] decoded@[t]) as nat) == le_value_of(
                    payload.subrange(t * w, t * w + w),
                ),
        decreases length - i,
    {
        proof {
            assert(i * w + w <= length * w) by (nonlinear_arith)
                requires
                    i + 1 <= length,
                    w >= 1,
            ;
            assert(0 <= i * w) by (nonlinear_arith)
                requires
                    i >= 0,
                    w >= 0,
            ;
        }
        let v: u64 = crate::bytes::read_le(input, pos + i * w, w);
        proof {
            assert(input@.subrange((pos + i * w) as int, (pos + i * w + w) as int) =~= payload.subrange(
                (i * w) as int,
                (i * w + w) as int,
            ));
        }
        decoded.push(v);
        i = i + 1;
    }
    proof {
        assert(decoded@ =~= Seq::new(
            length as nat,
            |t: int| le_value_of(payload.subrange(t * w, t * w + w)) as u64,
        ));
        assert forall|t: int| 0 <= t < decoded@.len() implies ((#[trigger] decoded@[t]) as nat)
            < pow256(w as nat) by {
            assert(t * w + w <= length * w) by (nonlinear_arith)
                requires
                    t + 1 <= length,
                    w >= 1,
            ;
            assert(0 <= t * w) by (nonlinear_arith)
                requires
                    t >= 0,
                    w >= 0,
            ;
            crate::bytes::lemma_le_value_bound(payload.subrange(t * w, t * w + w));
            assert(payload.subrange(t * w, t * w + w).len() == w);
        }
    }
    let ghost dec = decoded@;
    output.append(&mut decoded);
    proof {
        assert(output@.take(old(output)@.len() as int) =~= old(output)@);
        assert(output@.skip(old(output)@.len() as int) =~= dec);
    }
    Ok(())
}

} // verus!
