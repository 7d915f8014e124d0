use vstd::prelude::*;

use crate::bytes::{
    le_bytes_of, le_value_of, lemma_le_bytes_len, lemma_le_bytes_value, lemma_le_value_bound,
    lemma_pow256_values, pow256, push_le, read_le,
};
use crate::error::NativeError;
use crate::page::PrimitivePage;
use crate::stats::MAX_PAGE_LEN;

verus! {

/// The length of the longest prefix of `values` that holds only `v`.
pub open spec fn run_from(values: Seq<u64>, v: u64) -> nat
    decreases values.len(),
{
    if values.len() == 0 || values[0] != v {
        0
    } else {
        1 + run_from(values.drop_first(), v)
    }
}

pub proof fn lemma_run_from_le_len(values: Seq<u64>, v: u64)
    ensures
        run_from(values, v) <= values.len(),
    decreases values.len(),
{
    if values.len() > 0 && values[0] == v {
        lemma_run_from_le_len(values.drop_first(), v);
    }
}

/// The first run covers exactly the equal prefix: every slot inside it holds
/// the run value, and the slot after it (if any) differs.
pub proof fn lemma_run_from_props(values: Seq<u64>, v: u64)
    ensures
        forall|t: int| 0 <= t < run_from(values, v) ==> values[t] == v,
        run_from(values, v) < values.len() ==> values[run_from(values, v) as int] != v,
    decreases values.len(),
{
    lemma_run_from_le_len(values, v);
    if values.len() > 0 && values[0] == v {
        lemma_run_from_props(values.drop_first(), v);
        lemma_run_from_le_len(values.drop_first(), v);
        let r = run_from(values, v);
        assert forall|t: int| 0 <= t < r implies values[t] == v by {
            if t > 0 {
                assert(values.drop_first()[t - 1] == values[t]);
            }
        }
        if r < values.len() {
            assert(values.drop_first()[r - 1] == values[r as int]);
        }
    }
}

/// An equal prefix of length `n` bounded by a differing slot is exactly the
/// first run.
pub proof fn lemma_run_from_exact(s: Seq<u64>, n: nat)
    requires
        0 < n <= s.len(),
        forall|t: int| 0 <= t < n ==> #[trigger] s[t] == s[0],
        n < s.len() ==> s[n as int] != s[0],
    ensures
        run_from(s, s[0]) == n,
    decreases n,
{
    if n == 1 {
        if s.len() > 1 {
            assert(s.drop_first()[0] == s[1]);
            assert(run_from(s.drop_first(), s[0]) == 0);
        } else {
            assert(s.drop_first().len() == 0);
        }
        assert(run_from(s, s[0]) == 1 + run_from(s.drop_first(), s[0]));
    } else {
        let d = s.drop_first();
        assert(s[1] == s[0]);
        assert(d[0] == s[1]);
        assert forall|t: int| 0 <= t < n - 1 implies #[trigger] d[t] == d[0] by {
            assert(d[t] == s[t + 1] && d[0] == s[1]);
        }
        assert(n - 1 < d.len() ==> d[n - 1] != d[0]) by {
            if n - 1 < d.len() {
                assert(d[n - 1] == s[n as int]);
            }
        }
        lemma_run_from_exact(d, (n - 1) as nat);
        assert(run_from(d, d[0]) == n - 1);
        assert(run_from(s, s[0]) == 1 + run_from(d, s[0]));
    }
}

/// The run-length payload: `(value, run_length)` pairs, the value in `w`
/// little-endian bytes and the run length in four.
pub open spec fn rle_payload(values: Seq<u64>, w: nat) -> Seq<u8>
    decreases values.len(),
    via rle_payload_decreases
{
    if values.len() == 0 {
        Seq::empty()
    } else {
        let run = run_from(values, values[0]);
        le_bytes_of(values[0] as nat, w) + le_bytes_of(run, 4) + rle_payload(
            values.skip(run as int),
            w,
        )
    }
}

#[via_fn]
proof fn rle_payload_decreases(values: Seq<u64>, w: nat) {
    if values.len() > 0 {
        lemma_run_from_le_len(values, values[0]);
    }
}

/// What a run-length payload of `length` slots decodes to: `None` on a zero
/// run length, a run overshooting the page, a truncated pair, or trailing
/// bytes.
pub open spec fn rle_parse(payload: Seq<u8>, length: nat, w: nat) -> Option<Seq<u64>>
    decreases payload.len(),
{
    if length == 0 {
        if payload.len() == 0 {
            Some(Seq::empty())
        } else {
            None
        }
    } else if payload.len() < w + 4 {
        None
    } else {
        let v = le_value_of(payload.take(w as int)) as u64;
        let run = le_value_of(payload.subrange(w as int, (w + 4) as int));
        if run == 0 || run > length {
            None
        } else {
            match rle_parse(payload.skip((w + 4) as int), (length - run) as nat, w) {
                Some(rest) => Some(Seq::new(run, |t: int| v) + rest),
                None => None,
            }
        }
    }
}

/// Decoding the run-length payload of a page gives the page back, storage
/// slots included.
pub proof fn lemma_rle_round_trip(values: Seq<u64>, w: nat)
    requires
        1 <= w <= 8,
        values.len() < 0x1_0000_0000,
        forall|i: int| 0 <= i < values.len() ==> (values[i] as nat) < pow256(w),
    ensures
        rle_parse(rle_payload(values, w), values.len(), w) == Some(values),
    decreases values.len(),
{
    lemma_pow256_values();
    if values.len() == 0 {
    } else {
        let v = values[0];
        let run = run_from(values, v);
        lemma_run_from_le_len(values, v);
        lemma_run_from_props(values, v);
        let pv = le_bytes_of(v as nat, w);
        let pr = le_bytes_of(run, 4);
        let rest = rle_payload(values.skip(run as int), w);
        lemma_le_bytes_len(v as nat, w);
        lemma_le_bytes_len(run, 4);
        let payload = rle_payload(values, w);
        assert(payload =~= pv + pr + rest);
        assert(payload.take(w as int) =~= pv);
        assert(payload.subrange(w as int, (w + 4) as int) =~= pr);
        assert(payload.skip((w + 4) as int) =~= rest);
        lemma_le_bytes_value(v as nat, w);
        lemma_le_bytes_value(run, 4);
        lemma_rle_round_trip(values.skip(run as int), w);
        let tail = values.skip(run as int);
        assert(Seq::new(run, |t: int| v) + tail =~= values);
    }
}

/// The run-length codec: maximal runs of equal adjacent storage patterns,
/// each stored as the pattern followed by its length.
pub struct Rle {}

impl Rle {
    /// Appends the run-length payload of `array` to `output`; returns the
    /// number of bytes written.
    pub fn compress(&self, array: &PrimitivePage, output: &mut Vec<u8>) -> (r: usize)
        requires
            array.wf(),
            array.spec_len() <= MAX_PAGE_LEN,
        ensures
            final(output)@ == old(output)@ + rle_payload(
                array.values@,
                crate::page::kind_width(array.kind),
            ),
            final(output)@.len() == old(output)@.len() + r,
            r <= array.spec_len() * (crate::page::kind_width(array.kind) + 4),
    {
        let w: usize = array.kind.width();
        let len: usize = array.values.len();
        let out0: usize = output.len();
        let ghost vals = array.values@;
        let ghost orig = output@;
        if len == 0 {
            proof {
                assert(output@ =~= orig + rle_payload(vals, w as nat));
            }
            return 0;
        }
        let mut start: usize = 0;
        let mut i: usize = 1;
        proof {
            assert(vals.skip(0) =~= vals);
            assert(output@.skip(orig.len() as int) =~= Seq::<u8>::empty());
            assert(output@.take(orig.len() as int) =~= orig);
        }
        while i <= len
            invariant
                array.wf(),
                vals == array.values@,
                1 <= w <= 8,
                w == crate::page::kind_width(array.kind),
                1 <= len == vals.len() <= MAX_PAGE_LEN,
                0 <= start < i <= len + 1,
                i <= len || start == len,
                start < len ==> forall|t: int|
                    start <= t < i && t < len ==> #[trigger] vals[t] == vals[start as int],
                start < len ==> (start == 0 || vals[start - 1] != vals[start as int]),
                output@.len() >= orig.len() == out0,
                output@.take(orig.len() as int) == orig,
                rle_payload(vals, w as nat) == output@.skip(orig.len() as int) + rle_payload(
                    vals.skip(start as int),
                    w as nat,
                ),
                output@.len() - orig.len() <= start * (w + 4),
            decreases len + 1 - i,
        {
            let close: bool = if i == len {
                true
            } else {
                array.values[i] != array.values[start]
            };
            if close {
                let run_len: usize = i - start;
                let ghost emitted = output@.skip(orig.len() as int);
                push_le(output, array.values[start], w);
                push_le(output, run_len as u64, 4);
                proof {
                    let s = vals.skip(start as int);
                    assert forall|t: int| 0 <= t < run_len implies #[trigger] s[t] == s[0] by {
                        assert(s[t] == vals[start + t]);
                    }
                    assert(run_len < s.len() ==> s[run_len as int] != s[0]) by {
                        if run_len < s.len() {
                            assert(s[run_len as int] == vals[i as int]);
                        }
                    }
                    lemma_run_from_exact(s, run_len as nat);
                    assert(rle_payload(s, w as nat) == le_bytes_of(vals[start as int] as nat, w as nat)
                        + le_bytes_of(run_len as nat, 4) + rle_payload(
                        s.skip(run_len as int),
                        w as nat,
                    ));
                    assert(s.skip(run_len as int) =~= vals.skip(i as int));
                    lemma_le_bytes_len(vals[start as int] as nat, w as nat);
                    lemma_le_bytes_len(run_len as nat, 4);
                    assert(output@.skip(orig.len() as int) =~= emitted + le_bytes_of(
                        vals[start as int] as nat,
                        w as nat,
                    ) + le_bytes_of(run_len as nat, 4));
                    assert(output@.take(orig.len() as int) =~= orig);
                    assert(rle_payload(vals, w as nat) == output@.skip(orig.len() as int)
                        + rle_payload(vals.skip(i as int), w as nat)) by {
                        assert(emitted + (le_bytes_of(vals[start as int] as nat, w as nat)
                            + le_bytes_of(run_len as nat, 4) + rle_payload(
                            vals.skip(i as int),
                            w as nat,
                        )) =~= (emitted + le_bytes_of(vals[start as int] as nat, w as nat)
                            + le_bytes_of(run_len as nat, 4)) + rle_payload(
                            vals.skip(i as int),
                            w as nat,
                        ));
                    }
                    assert(output@.len() - orig.len() <= i * (w + 4)) by (nonlinear_arith)
                        requires
                            output@.len() - orig.len() <= start * (w + 4) + (w + 4),
                            start + 1 <= i,
                            w >= 1,
                    ;
                }
                start = i;
            }
            i = i + 1;
        }
        proof {
            assert(vals.skip(len as int) =~= Seq::<u64>::empty());
            assert(rle_payload(vals.skip(len as int), w as nat) =~= Seq::<u8>::empty());
            assert(rle_payload(vals, w as nat) =~= output@.skip(orig.len() as int));
            assert(start * (w + 4) <= len * (w + 4)) by (nonlinear_arith)
                requires
                    start <= len,
                    w >= 0,
            ;
        }
        output.len() - out0
    }

    /// Decodes a run-length payload of `payload_len` bytes at `input[pos..]`
    /// into `length` slots appended to `output`.
    pub fn decompress(
        &self,
        input: &[u8],
        pos: usize,
        payload_len: usize,
        length: usize,
        w: usize,
        output: &mut Vec<u64>,
    ) -> (r: Result<(), NativeError>)
        requires
            pos + payload_len <= input@.len(),
            1 <= w <= 8,
            length <= MAX_PAGE_LEN,
        ensures
            match r {
                Ok(()) => {
                    &&& rle_parse(
                        input@.subrange(pos as int, (pos + payload_len) as int),
                        length as nat,
                        w as nat,
                    ) == Some(final(output)@.skip(old(output)@.len() as int))
                    &&& final(output)@.len() == old(output)@.len() + length
                    &&& final(output)@.take(old(output)@.len() as int) == old(output)@
                    &&& forall|i: int|
                        old(output)@.len() <= i < final(output)@.len() ==> ((final(
                            output)@[i]) as nat) < pow256(w as nat)
                },
                Err(e) => {
                    &&& final(output)@ == old(output)@
                    &&& e == NativeError::InvalidPayload
                    &&& rle_parse(
                        input@.subrange(pos as int, (pos + payload_len) as int),
                        length as nat,
                        w as nat,
                    ) is None
                },
            },
    {
        let n: usize = input.len();
        let ghost payload = input@.subrange(pos as int, (pos + payload_len) as int);
        let mut decoded: Vec<u64> = Vec::new();
        let mut consumed: usize = 0;
        proof {
            assert(payload.skip(0) =~= payload);
        }
        while decoded.len() < length
            invariant
                1 <= w <= 8,
                pos + payload_len <= n == input@.len(),
                length <= MAX_PAGE_LEN,
                payload == input@.subrange(pos as int, (pos + payload_len) as int),
                payload.len() == payload_len,
                consumed <= payload_len,
                decoded@.len() <= length,
                forall|t: int|
                    0 <= t < decoded@.len() ==> ((#[trigger] decoded@[t]) as nat) < pow256(w as nat),
                rle_parse(payload, length as nat, w as nat) == (match rle_parse(
                    payload.skip(consumed as int),
                    (length - decoded@.len()) as nat,
                    w as nat,
                ) {
                    Some(rest) => Some(decoded@ + rest),
                    None => None::<Seq<u64>>,
                }),
            decreases length - decoded.len(), payload_len - consumed,
        {
            let produced: usize = decoded.len();
            let ghost dec = decoded@;
            let ghost remaining = payload.skip(consumed as int);
            if payload_len - consumed < w + 4 {
                proof {
                    assert(rle_parse(remaining, (length - produced) as nat, w as nat) is None);
                }
                return Err(NativeError::InvalidPayload);
            }
            let v: u64 = read_le(input, pos + consumed, w);
            let run64: u64 = read_le(input, pos + consumed + w, 4);
            proof {
                assert(remaining.take(w as int) =~= input@.subrange(
                    (pos + consumed) as int,
                    (pos + consumed + w) as int,
                ));
                assert(remaining.subrange(w as int, (w + 4) as int) =~= input@.subrange(
                    (pos + consumed + w) as int,
                    (pos + consumed + w + 4) as int,
                ));
            }
            if run64 == 0 || run64 > (length - produced) as u64 {
                proof {
                    assert(rle_parse(remaining, (length - produced) as nat, w as nat) is None);
                }
                return Err(NativeError::InvalidPayload);
            }
            let run: usize = run64 as usize;
            let mut j: usize = 0;
            while j < run
                invariant
                    j <= run,
                    decoded@.len() == dec.len() + j,
                    decoded@ == dec + Seq::new(j as nat, |t: int| v),
                    (v as nat) < pow256(w as nat),
                    forall|t: int|
                        0 <= t < dec.len() ==> ((#[trigger] dec[t]) as nat) < pow256(w as nat),
                decreases run - j,
            {
                decoded.push(v);
                proof {
                    assert(decoded@ =~= dec + Seq::new((j + 1) as nat, |t: int| v));
                }
                j = j + 1;
            }
            proof {
                let rem2 = payload.skip((consumed + w + 4) as int);
                assert(remaining.skip((w + 4) as int) =~= rem2);
                let lrest = (length - produced - run) as nat;
                assert(rle_parse(remaining, (length - produced) as nat, w as nat) == (
                match rle_parse(rem2, lrest, w as nat) {
                    Some(rest) => Some(Seq::new(run as nat, |t: int| v) + rest),
                    None => None::<Seq<u64>>,
                }));
                if rle_parse(rem2, lrest, w as nat) is Some {
                    let rest = rle_parse(rem2, lrest, w as nat)->Some_0;
                    assert(dec + (Seq::new(run as nat, |t: int| v) + rest) =~= (dec + Seq::new(
                        run as nat,
                        |t: int| v,
                    )) + rest);
                }
                assert forall|t: int| 0 <= t < decoded@.len() implies ((#[trigger] decoded@[t]) as nat)
                    < pow256(w as nat) by {}
            }
            consumed = consumed + w + 4;
        }
        let produced: usize = decoded.len();
        let ghost remaining = payload.skip(consumed as int);
        if consumed != payload_len {
            proof {
                assert(remaining.len() > 0);
                assert(rle_parse(remaining, (length - produced) as nat, w as nat) is None);
            }
            return Err(NativeError::InvalidPayload);
        }
        proof {
            assert(remaining =~= Seq::<u8>::empty());
            assert(rle_parse(remaining, 0, w as nat) == Some(Seq::<u64>::empty()));
            assert(decoded@ + Seq::<u64>::empty() =~= decoded@);
        }
        let ghost dec = decoded@;
        output.append(&mut decoded);
        proof {
            assert(output@.take(old(output)@.len() as int) =~= old(output)@);
            assert(output@.skip(old(output)@.len() as int) =~= dec);
        }
        Ok(())
    }
}

} // verus!
