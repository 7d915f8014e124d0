use vstd::prelude::*;

use crate::basic::{lemma_plain_round_trip, plain_parse, plain_payload};
use crate::bitmap::{bitmap_bytes, bm_bit, lemma_bitmap_round_trip, push_bitmap, read_bitmap_bit};
use crate::bytes::{
    le_bytes_of, le_value_of, lemma_le_bytes_len, lemma_le_bytes_value, lemma_pow256_values,
    pow256, push_le, read_le,
};
use crate::error::NativeError;
use crate::page::PrimitivePage;
use crate::stats::IntegerStats;
use crate::stats::MAX_PAGE_LEN;

verus! {

/// One flag per slot: does the slot hold the frequent value `f`?
pub open spec fn eq_flags(values: Seq<u64>, f: u64) -> Seq<bool> {
    Seq::new(values.len(), |i: int| values[i] == f)
}

/// The slots that do not hold `f`, in order.
pub open spec fn except_of(values: Seq<u64>, f: u64) -> Seq<u64>
    decreases values.len(),
{
    if values.len() == 0 {
        Seq::empty()
    } else {
        except_of(values.drop_last(), f) + if values.last() == f {
            Seq::empty()
        } else {
            seq![values.last()]
        }
    }
}

/// The frequency payload for top value `f`: `f` itself, a bitmap marking the
/// slots equal to `f`, and the remaining slots as a counted plain list.
pub open spec fn freq_payload(values: Seq<u64>, w: nat, f: u64) -> Seq<u8> {
    le_bytes_of(f as nat, w) + bitmap_bytes(eq_flags(values, f)) + le_bytes_of(
        except_of(values, f).len(),
        4,
    ) + plain_payload(except_of(values, f), w)
}

/// How many of the first `n` bits of a packed bitmap are clear.
pub open spec fn zero_bits(bytes: Seq<u8>, n: nat) -> nat
    decreases n,
{
    if n == 0 {
        0
    } else {
        zero_bits(bytes, (n - 1) as nat) + if bm_bit(bytes, n - 1) {
            0nat
        } else {
            1nat
        }
    }
}

/// What a frequency payload of `length` slots decodes to.
pub open spec fn freq_parse(payload: Seq<u8>, length: nat, w: nat) -> Option<Seq<u64>> {
    let bm = (length + 7) / 8;
    if payload.len() < w + bm + 4 {
        None
    } else {
        let f = le_value_of(payload.take(w as int)) as u64;
        let flag_bytes = payload.subrange(w as int, (w + bm) as int);
        let n_exc = le_value_of(payload.subrange((w + bm) as int, (w + bm + 4) as int));
        match plain_parse(payload.skip((w + bm + 4) as int), n_exc, w) {
            Some(exc) => {
                if zero_bits(flag_bytes, length) == n_exc {
                    Some(
                        Seq::new(
                            length,
                            |i: int|
                                if bm_bit(flag_bytes, i) {
                                    f
                                } else {
                                    exc[zero_bits(flag_bytes, i as nat) as int]
                                },
                        ),
                    )
                } else {
                    None
                }
            },
            None => None,
        }
    }
}

/// The exceptions of a prefix are a prefix of the exceptions.
proof fn lemma_except_take_prefix(values: Seq<u64>, f: u64, n: int)
    requires
        0 <= n <= values.len(),
    ensures
        except_of(values.take(n), f).len() <= except_of(values, f).len(),
        except_of(values, f).take(except_of(values.take(n), f).len() as int) == except_of(
            values.take(n),
            f,
        ),
    decreases values.len() - n,
{
    if n == values.len() {
        assert(values.take(n) =~= values);
        assert(except_of(values, f).take(except_of(values, f).len() as int) =~= except_of(
            values,
            f,
        ));
    } else {
        lemma_except_take_prefix(values, f, n + 1);
        let t1 = values.take(n + 1);
        assert(t1.drop_last() =~= values.take(n));
        assert(t1.last() == values[n]);
        let en = except_of(values.take(n), f);
        let en1 = except_of(t1, f);
        assert(en1 == en + if values[n] == f {
            Seq::<u64>::empty()
        } else {
            seq![values[n]]
        });
        assert(except_of(values, f).take(en.len() as int) =~= en) by {
            assert(except_of(values, f).take(en1.len() as int) == en1);
            assert forall|t: int| 0 <= t < en.len() implies except_of(values, f)[t] == en[t] by {
                assert(en1[t] == en[t]);
                assert(except_of(values, f).take(en1.len() as int)[t] == except_of(values, f)[t]);
            }
        }
    }
}

/// Walking the first `i` slots, the clear bits counted so far equal the
/// exceptions gathered so far, and each exception sits at its rank.
proof fn lemma_freq_align(values: Seq<u64>, f: u64, i: int)
    requires
        0 <= i <= values.len(),
    ensures
        zero_bits(bitmap_bytes(eq_flags(values, f)), i as nat) == except_of(
            values.take(i),
            f,
        ).len(),
    decreases i,
{
    if i > 0 {
        lemma_freq_align(values, f, i - 1);
        lemma_bitmap_round_trip(eq_flags(values, f), i - 1);
        let t1 = values.take(i);
        assert(t1.drop_last() =~= values.take(i - 1));
        assert(t1.last() == values[i - 1]);
    }
}

/// Decoding the frequency payload of a page gives the page back, storage
/// slots included, whatever top value was chosen.
pub proof fn lemma_freq_round_trip(values: Seq<u64>, w: nat, f: u64)
    requires
        1 <= w <= 8,
        values.len() < 0x1_0000_0000,
        forall|i: int| 0 <= i < values.len() ==> (values[i] as nat) < pow256(w),
    ensures
        freq_parse(freq_payload(values, w, f), values.len(), w) == Some(values),
{
    lemma_pow256_values();
    let flags = eq_flags(values, f);
    let fb = bitmap_bytes(flags);
    let exc = except_of(values, f);
    let pf = le_bytes_of(f as nat, w);
    let pn = le_bytes_of(exc.len(), 4);
    let pe = plain_payload(exc, w);
    let payload = freq_payload(values, w, f);
    let bm = (values.len() + 7) / 8;
    lemma_le_bytes_len(f as nat, w);
    lemma_le_bytes_len(exc.len(), 4);
    assert(fb.len() == bm);
    lemma_except_take_prefix(values, f, 0);
    assert(exc.len() <= values.len()) by {
        lemma_except_len_le(values, f);
    }
    assert forall|i: int| 0 <= i < exc.len() implies (#[trigger] exc[i] as nat) < pow256(w) by {
        lemma_except_in_width(values, f, w);
    }
    lemma_plain_round_trip(exc, w);
    assert(payload =~= pf + fb + pn + pe);
    assert(payload.take(w as int) =~= pf);
    assert(payload.subrange(w as int, (w + bm) as int) =~= fb);
    assert(payload.subrange((w + bm) as int, (w + bm + 4) as int) =~= pn);
    assert(payload.skip((w + bm + 4) as int) =~= pe);
    lemma_le_bytes_value(exc.len(), 4);
    lemma_freq_align(values, f, values.len() as int);
    assert(values.take(values.len() as int) =~= values);
    let decoded = Seq::new(
        values.len(),
        |i: int|
            if bm_bit(fb, i) {
                le_value_of(pf) as u64
            } else {
                exc[zero_bits(fb, i as nat) as int]
            },
    );
    assert forall|i: int| 0 <= i < values.len() implies decoded[i] == values[i] by {
        lemma_bitmap_round_trip(flags, i);
        if values[i] == f {
            lemma_le_bytes_value(f as nat, w);
        } else {
            lemma_freq_align(values, f, i);
            lemma_freq_align(values, f, i + 1);
            lemma_except_take_prefix(values, f, i);
            lemma_except_take_prefix(values, f, i + 1);
            let k = except_of(values.take(i), f).len();
            let t1 = values.take(i + 1);
            assert(t1.drop_last() =~= values.take(i));
            assert(t1.last() == values[i]);
            let en1 = except_of(t1, f);
            assert(en1 == except_of(values.take(i), f).push(values[i]));
            assert(exc.take(en1.len() as int)[k as int] == values[i]);
        }
    }
    assert(decoded =~= values);
}

/// The exceptions are never more numerous than the slots.
pub proof fn lemma_except_len_le_pub(values: Seq<u64>, f: u64)
    ensures
        except_of(values, f).len() <= values.len(),
{
    lemma_except_len_le(values, f);
}

/// The exceptions are never more numerous than the slots.
proof fn lemma_except_len_le(values: Seq<u64>, f: u64)
    ensures
        except_of(values, f).len() <= values.len(),
    decreases values.len(),
{
    if values.len() > 0 {
        lemma_except_len_le(values.drop_last(), f);
    }
}

/// The exceptions are slots of the page, so they fit the page's width.
proof fn lemma_except_in_width(values: Seq<u64>, f: u64, w: nat)
    requires
        forall|i: int| 0 <= i < values.len() ==> (values[i] as nat) < pow256(w),
    ensures
        forall|i: int|
            0 <= i < except_of(values, f).len() ==> ((#[trigger] except_of(values, f)[i]) as nat)
                < pow256(w),
    decreases values.len(),
{
    if values.len() > 0 {
        lemma_except_in_width(values.drop_last(), f, w);
        let e = except_of(values, f);
        let ed = except_of(values.drop_last(), f);
        assert forall|i: int| 0 <= i < e.len() implies ((#[trigger] e[i]) as nat) < pow256(w) by {
            if i < ed.len() {
                assert(e[i] == ed[i]);
            } else {
                assert(e[i] == values.last());
            }
        }
    }
}

/// The frequency codec: one dominant value, a bitmap of where it sits, and
/// the exceptional slots as a plain list.
pub struct Freq {}

impl Freq {
    /// Appends the frequency payload of `array`, using the most frequent
    /// value recorded in `stats`, and returns the number of bytes written.
    pub fn compress(&self, array: &PrimitivePage, stats: &IntegerStats, output: &mut Vec<u8>) -> (r:
        usize)
        requires
            array.wf(),
            array.spec_len() <= MAX_PAGE_LEN,
        ensures
            final(output)@ == old(output)@ + freq_payload(
                array.values@,
                crate::page::kind_width(array.kind),
                stats.top_value,
            ),
            final(output)@.len() == old(output)@.len() + r,
    {
        let w: usize = array.kind.width();
        let len: usize = array.values.len();
        let f: u64 = stats.top_value;
        let ghost vals = array.values@;

        let mut flags: Vec<bool> = Vec::new();
        let mut exc: Vec<u64> = Vec::new();
        let mut i: usize = 0;
        proof {
            assert(flags@ =~= eq_flags(vals.take(0), f));
            assert(exc@ =~= except_of(vals.take(0), f));
        }
        while i < len
            invariant
                i <= len == vals.len() <= MAX_PAGE_LEN,
                vals == array.values@,
                array.wf(),
                flags@ == eq_flags(vals.take(i as int), f),
                exc@ == except_of(vals.take(i as int), f),
            decreases len - i,
        {
            let v: u64 = array.values[i];
            proof {
                assert(vals.take(i + 1).drop_last() =~= vals.take(i as int));
                assert(vals.take(i + 1).last() == v);
            }
            if v == f {
                flags.push(true);
            } else {
                flags.push(false);
                exc.push(v);
            }
            proof {
                assert(flags@ =~= eq_flags(vals.take(i + 1), f));
                assert(exc@ =~= except_of(vals.take(i + 1), f));
            }
            i = i + 1;
        }
        proof {
            assert(vals.take(len as int) =~= vals);
        }
        let out0: usize = output.len();
        push_le(output, f, w);
        push_bitmap(&flags, output);
        push_le(output, exc.len() as u64, 4);
        let ghost before_exc = output@;
        let exc_page = PrimitivePage { kind: array.kind, values: exc, validity: None };
        proof {
            assert forall|t: int| 0 <= t < exc_page.values@.len() implies (
            #[trigger] exc_page.values@[t] as nat) < crate::page::kind_bound(exc_page.kind) by {
                lemma_except_in_width(vals, f, w as nat);
            }
            lemma_except_len_le(vals, f);
        }
        crate::basic::compress_plain(&exc_page, output);
        proof {
            lemma_except_len_le(vals, f);
            assert(output@ =~= old(output)@ + freq_payload(vals, w as nat, f));
        }
        output.len() - out0
    }

    /// Decodes a frequency payload of `payload_len` bytes at `input[pos..]`
    /// into `length` slots appended to `output`.
    #[verifier::rlimit(100)]
    pub fn decompress(
        &self,
        input: &[u8],
        pos: usize,
        payload_len: usize,
        length: usize,
        w: usize,
        output: &mut Vec<u64>,
    ) -> (r: Result<(), NativeError>)
        requires
            pos + payload_len <= input@.len(),
            1 <= w <= 8,
            length <= MAX_PAGE_LEN,
        ensures
            match r {
                Ok(()) => {
                    &&& freq_parse(
                        input@.subrange(pos as int, (pos + payload_len) as int),
                        length as nat,
                        w as nat,
                    ) == Some(final(output)@.skip(old(output)@.len() as int))
                    &&& final(output)@.len() == old(output)@.len() + length
                    &&& final(output)@.take(old(output)@.len() as int) == old(output)@
                    &&& forall|i: int|
                        old(output)@.len() <= i < final(output)@.len() ==> ((final(
                            output)@[i]) as nat) < pow256(w as nat)
                },
                Err(e) => {
                    &&& final(output)@ == old(output)@
                    &&& e == NativeError::InvalidPayload
                    &&& freq_parse(
                        input@.subrange(pos as int, (pos + payload_len) as int),
                        length as nat,
                        w as nat,
                    ) is None
                },
            },
    {
        let n: usize = input.len();
        let ghost payload = input@.subrange(pos as int, (pos + payload_len) as int);
        let bm: usize = (length + 7) / 8;
        if payload_len < w + bm + 4 {
            return Err(NativeError::InvalidPayload);
        }
        let f: u64 = read_le(input, pos, w);
        let n_exc64: u64 = read_le(input, pos + w + bm, 4);
        let ghost flag_bytes = payload.subrange(w as int, (w + bm) as int);
        proof {
            assert(payload.take(w as int) =~= input@.subrange(pos as int, (pos + w) as int));
            assert(payload.subrange((w + bm) as int, (w + bm + 4) as int) =~= input@.subrange(
                (pos + w + bm) as int,
                (pos + w + bm + 4) as int,
            ));
            lemma_pow256_values();
        }
        let mut exc: Vec<u64> = Vec::new();
        if n_exc64 > length as u64 {
            proof {
                // more exceptions than slots can never satisfy the bit count
                lemma_zero_bits_le(flag_bytes, length as nat);
            }
            return Err(NativeError::InvalidPayload);
        }
        let n_exc: usize = n_exc64 as usize;
        match crate::basic::decompress_plain(
            input,
            pos + w + bm + 4,
            payload_len - (w + bm + 4),
            n_exc,
            w,
            &mut exc,
        ) {
            Ok(()) => {},
            Err(e) => {
                proof {
                    assert(payload.skip((w + bm + 4) as int) =~= input@.subrange(
                        (pos + w + bm + 4) as int,
                        (pos + payload_len) as int,
                    ));
                }
                return Err(e);
            },
        }
        proof {
            assert(payload.skip((w + bm + 4) as int) =~= input@.subrange(
                (pos + w + bm + 4) as int,
                (pos + payload_len) as int,
            ));
        }
        let mut decoded: Vec<u64> = Vec::new();
        let mut rank: usize = 0;
        let mut i: usize = 0;
        while i < length
            invariant
                i <= length <= MAX_PAGE_LEN,
                1 <= w <= 8,
                pos + payload_len <= n == input@.len(),
                w + bm + 4 <= payload_len == payload.len(),
                bm == (length + 7) / 8,
                payload == input@.subrange(pos as int, (pos + payload_len) as int),
                flag_bytes == payload.subrange(w as int, (w + bm) as int),
                exc@.len() == n_exc <= length,
                le_value_of(payload.subrange((w + bm) as int, (w + bm + 4) as int)) == n_exc as nat,
                plain_parse(payload.skip((w + bm + 4) as int), n_exc as nat, w as nat) == Some(
                    exc@,
                ),
                forall|t: int|
                    0 <= t < exc@.len() ==> ((#[trigger] exc@[t]) as nat) < pow256(w as nat),
                rank == zero_bits(flag_bytes, i as nat),
                rank <= n_exc,
                (f as nat) < pow256(w as nat),
                f as nat == le_value_of(payload.take(w as int)),
                decoded@.len() == i,
                forall|t: int|
                    0 <= t < i ==> ((#[trigger] decoded@[t]) as nat) < pow256(w as nat),
                decoded@ == Seq::new(
                    i as nat,
                    |t: int|
                        if bm_bit(flag_bytes, t) {
                            f
                        } else {
                            exc@[zero_bits(flag_bytes, t as nat) as int]
                        },
                ),
            decreases length - i,
        {
            let bit: bool = read_bitmap_bit(input, pos + w, i);
            proof {
                assert(i / 8 < bm);
                assert(input@.skip((pos + w) as int)[(i / 8) as int] == flag_bytes[(i / 8) as int]);
            }
            if bit {
                decoded.push(f);
            } else {
                if rank >= n_exc {
                    proof {
                        assert(zero_bits(flag_bytes, (i + 1) as nat) == rank + 1);
                        lemma_zero_bits_mono(flag_bytes, (i + 1) as nat, length as nat);
                        assert(zero_bits(flag_bytes, length as nat) > n_exc as nat);
                        assert(freq_parse(payload, length as nat, w as nat) is None);
                    }
                    return Err(NativeError::InvalidPayload);
                }
                let e: u64 = exc[rank];
                decoded.push(e);
                rank = rank + 1;
            }
            proof {
                assert(decoded@ =~= Seq::new(
                    (i + 1) as nat,
                    |t: int|
                        if bm_bit(flag_bytes, t) {
                            f
                        } else {
                            exc@[zero_bits(flag_bytes, t as nat) as int]
                        },
                ));
            }
            i = i + 1;
        }
        if rank != n_exc {
            proof {
                assert(freq_parse(payload, length as nat, w as nat) is None);
            }
            return Err(NativeError::InvalidPayload);
        }
        proof {
            let exc_spec = plain_parse(
                payload.skip((w + bm + 4) as int),
                n_exc as nat,
                w as nat,
            )->Some_0;
            assert(exc_spec == exc@);
            assert(f == le_value_of(payload.take(w as int)) as u64);
            assert(decoded@ =~= Seq::new(
                length as nat,
                |t: int|
                    if bm_bit(payload.subrange(w as int, (w + bm) as int), t) {
                        le_value_of(payload.take(w as int)) as u64
                    } else {
                        exc_spec[zero_bits(
                            payload.subrange(w as int, (w + bm) as int),
                            t as nat,
                        ) as int]
                    },
            ));
            assert(freq_parse(payload, length as nat, w as nat) == Some(decoded@));
        }
        let ghost dec = decoded@;
        output.append(&mut decoded);
        proof {
            assert(output@.take(old(output)@.len() as int) =~= old(output)@);
            assert(output@.skip(old(output)@.len() as int) =~= dec);
            assert forall|t: int|
                old(output)@.len() <= t < output@.len() implies ((output@[t]) as nat) < pow256(
                w as nat,
            ) by {
                assert(output@[t] == dec[t - old(output)@.len()]);
                assert((dec[t - old(output)@.len()] as nat) < pow256(w as nat));
            }
        }
        Ok(())
    }
}

/// The count of clear bits grows with the prefix and never exceeds it.
proof fn lemma_zero_bits_mono(bytes: Seq<u8>, a: nat, b: nat)
    requires
        a <= b,
    ensures
        zero_bits(bytes, a) <= zero_bits(bytes, b),
    decreases b,
{
    if a < b {
        lemma_zero_bits_mono(bytes, a, (b - 1) as nat);
    }
}

/// At most `n` of the first `n` bits are clear.
proof fn lemma_zero_bits_le(bytes: Seq<u8>, n: nat)
    ensures
        zero_bits(bytes, n) <= n,
    decreases n,
{
    if n > 0 {
        lemma_zero_bits_le(bytes, (n - 1) as nat);
    }
}

} // verus!
