use vstd::prelude::*;

use crate::bytes::{le_bytes_of, le_value_of, lemma_le_bytes_len, lemma_le_bytes_value, pow256};
use crate::error::NativeError;
use crate::page::PrimitivePage;

verus! {

/// The value a one-value payload stores: the first present slot's pattern,
/// or zero when every slot is null (or the page is empty).
pub open spec fn ov_value(values: Seq<u64>, valid: Seq<bool>) -> u64
    decreases values.len(),
{
    if values.len() == 0 {
        0
    } else if valid[0] {
        values[0]
    } else {
        ov_value(values.drop_first(), valid.drop_first())
    }
}

/// The one-value codec's gate: every present slot holds the stored value.
pub open spec fn ov_gate(values: Seq<u64>, valid: Seq<bool>) -> bool {
    forall|i: int| 0 <= i < values.len() && valid[i] ==> values[i] == ov_value(values, valid)
}

/// The one-value payload: the stored pattern, little-endian.
pub open spec fn ov_payload(values: Seq<u64>, valid: Seq<bool>, w: nat) -> Seq<u8> {
    le_bytes_of(ov_value(values, valid) as u64 as nat, w)
}

/// What a one-value payload of a page of `length` slots decodes to, or
/// `None` when the payload is malformed.
pub open spec fn ov_parse(payload: Seq<u8>, length: nat, w: nat) -> Option<Seq<u64>> {
    if payload.len() == w {
        Some(Seq::new(length, |i: int| le_value_of(payload) as u64))
    } else {
        None
    }
}

/// The stored value is the first present slot's pattern.
pub proof fn lemma_ov_value_first(values: Seq<u64>, valid: Seq<bool>, j: int)
    requires
        values.len() == valid.len(),
        0 <= j < values.len(),
        valid[j],
        forall|t: int| 0 <= t < j ==> !valid[t],
    ensures
        ov_value(values, valid) == values[j],
    decreases j,
{
    if j == 0 {
    } else {
        assert(!valid[0]);
        let dv = values.drop_first();
        let dd = valid.drop_first();
        assert(dd[j - 1] == valid[j] && dv[j - 1] == values[j]);
        assert forall|t: int| 0 <= t < j - 1 implies !dd[t] by {
            assert(dd[t] == valid[t + 1]);
        }
        lemma_ov_value_first(dv, dd, j - 1);
    }
}

/// An all-null (or empty) page stores zero.
pub proof fn lemma_ov_value_none(values: Seq<u64>, valid: Seq<bool>)
    requires
        values.len() == valid.len(),
        forall|t: int| 0 <= t < values.len() ==> !valid[t],
    ensures
        ov_value(values, valid) == 0,
    decreases values.len(),
{
    if values.len() > 0 {
        let dv = values.drop_first();
        let dd = valid.drop_first();
        assert forall|t: int| 0 <= t < dv.len() implies !dd[t] by {
            assert(dd[t] == valid[t + 1]);
        }
        lemma_ov_value_none(dv, dd);
    }
}

/// The stored value fits the page's width.
pub proof fn lemma_ov_value_in_width(values: Seq<u64>, valid: Seq<bool>, w: nat)
    requires
        values.len() == valid.len(),
        forall|i: int| 0 <= i < values.len() ==> ((#[trigger] values[i]) as nat) < pow256(w),
        w >= 1,
    ensures
        (ov_value(values, valid) as nat) < pow256(w),
    decreases values.len(),
{
    crate::bytes::lemma_pow256_pos(w);
    crate::bytes::lemma_pow256_mono(1, w);
    if values.len() > 0 && !valid[0] {
        let dv = values.drop_first();
        let dd = valid.drop_first();
        assert forall|i: int| 0 <= i < dv.len() implies ((#[trigger] dv[i]) as nat) < pow256(
            w,
        ) by {
            assert(dv[i] == values[i + 1]);
        }
        lemma_ov_value_in_width(dv, dd, w);
    }
}

/// Decoding a one-value payload yields the stored pattern at every slot;
/// under the codec's gate that agrees with the page at every present slot.
pub proof fn lemma_ov_round_trip(values: Seq<u64>, valid: Seq<bool>, w: nat)
    requires
        1 <= w <= 8,
        values.len() == valid.len(),
        forall|i: int| 0 <= i < values.len() ==> ((#[trigger] values[i]) as nat) < pow256(w),
    ensures
        ov_payload(values, valid, w).len() == w,
        ov_parse(ov_payload(values, valid, w), values.len(), w) == Some(
            Seq::new(values.len(), |i: int| ov_value(values, valid)),
        ),
        ov_gate(values, valid) ==> crate::page::masked_eq(
            Seq::new(values.len(), |i: int| ov_value(values, valid)),
            values,
            valid,
        ),
{
    lemma_le_bytes_len(ov_value(values, valid) as nat, w);
    lemma_ov_value_in_width(values, valid, w);
    lemma_le_bytes_value(ov_value(values, valid) as nat, w);
}

/// The one-value codec: a page whose present slots all hold one pattern is
/// stored as that single pattern.
pub struct OneValue {}

impl OneValue {
    /// Appends the one-value payload of `array` to `output` and returns the
    /// number of bytes written: the first present value, or zero when every
    /// slot is null.
    pub fn compress(&self, array: &PrimitivePage, output: &mut Vec<u8>) -> (r: usize)
        requires
            array.wf(),
        ensures
            final(output)@ == old(output)@ + ov_payload(
                array.values@,
                array.valid_seq(),
                crate::page::kind_width(array.kind),
            ),
            r == crate::page::kind_width(array.kind),
            final(output)@.len() == old(output)@.len() + r,
    {
        let w: usize = array.kind.width();
        let len: usize = array.values.len();
        let ghost vals = array.values@;
        let ghost valid = array.valid_seq();
        let mut v: u64 = 0;
        let mut found: bool = false;
        let mut i: usize = 0;
        while i < len && !found
            invariant
                array.wf(),
                vals == array.values@,
                valid == array.valid_seq(),
                valid.len() == len == vals.len(),
                i <= len,
                !found ==> v == 0,
                !found ==> forall|t: int| 0 <= t < i ==> !valid[t],
                found ==> i > 0 && valid[i - 1] && v == vals[i - 1] && (forall|t: int|
                    0 <= t < i - 1 ==> !valid[t]),
            decreases len - i,
        {
            if array.is_present(i) {
                v = array.values[i];
                found = true;
            }
            i = i + 1;
        }
        proof {
            if found {
                assert(valid[i - 1]);
                assert(forall|t: int| 0 <= t < i - 1 ==> !valid[t]);
                lemma_ov_value_first(vals, valid, i - 1);
                assert(ov_value(vals, valid) == vals[i - 1]);
            } else {
                assert(i == len);
                lemma_ov_value_none(vals, valid);
            }
            assert(v == ov_value(vals, valid));
        }
        crate::bytes::push_le(output, v, w);
        w
    }

    /// Decodes a one-value payload of `payload_len` bytes at `input[pos..]`
    /// into `length` slots appended to `output`.
    pub fn decompress(
        &self,
        input: &[u8],
        pos: usize,
        payload_len: usize,
        length: usize,
        w: usize,
        output: &mut Vec<u64>,
    ) -> (r: Result<(), NativeError>)
        requires
            pos + payload_len <= input@.len(),
            1 <= w <= 8,
        ensures
            match r {
                Ok(()) => {
                    &&& ov_parse(
                        input@.subrange(pos as int, (pos + payload_len) as int),
                        length as nat,
                        w as nat,
                    ) == Some(final(output)@.skip(old(output)@.len() as int))
                    &&& final(output)@.len() == old(output)@.len() + length
                    &&& final(output)@.take(old(output)@.len() as int) == old(output)@
                    &&& forall|i: int|
                        old(output)@.len() <= i < final(output)@.len() ==> (final(output)@[i] as nat) < pow256(w as nat)
                },
                Err(e) => {
                    &&& final(output)@ == old(output)@
                    &&& e == NativeError::InvalidPayload
                    &&& ov_parse(
                        input@.subrange(pos as int, (pos + payload_len) as int),
                        length as nat,
                        w as nat,
                    ) is None
                },
            },
    {
        if payload_len != w {
            return Err(NativeError::InvalidPayload);
        }
        let v: u64 = crate::bytes::read_le(input, pos, w);
        let ghost payload = input@.subrange(pos as int, (pos + payload_len) as int);
        let mut i: usize = 0;
        let ghost orig = output@;
        while i < length
            invariant
                i <= length,
                output@.len() == orig.len() + i,
                output@.take(orig.len() as int) == orig,
                forall|t: int| orig.len() <= t < output@.len() ==> output@[t] == v,
                (v as nat) == le_value_of(payload),
                (v as nat) < pow256(w as nat),
            decreases length - i,
        {
            output.push(v);
            proof {
                assert(output@.take(orig.len() as int) =~= orig);
            }
            i = i + 1;
        }
        proof {
            let appended = output@.skip(orig.len() as int);
            assert(appended =~= Seq::new(length as nat, |t: int| le_value_of(payload) as u64));
            assert(output@.take(orig.len() as int) =~= orig);
        }
        Ok(())
    }
}

} // verus!
