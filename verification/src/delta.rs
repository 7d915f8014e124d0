use vstd::prelude::*;

use vstd::arithmetic::div_mod::{
    lemma_add_mod_noop, lemma_mod_bound, lemma_small_mod,
};

use crate::bytes::{lemma_pow256_values, pow256};
use crate::error::NativeError;
use crate::page::PrimitivePage;
use crate::stats::MAX_PAGE_LEN;

verus! {

/// The zig-zag image of a `w`-byte pattern `v` under modulus `m = 256^w`:
/// small non-negative and small negative two's-complement values both map
/// to small numbers.
pub open spec fn zigzag(v: nat, m: nat) -> nat {
    if 2 * v < m {
        2 * v
    } else {
        2 * ((m - 1 - v) as nat) + 1
    }
}

/// The inverse of `zigzag`.
pub open spec fn unzigzag(z: nat, m: nat) -> nat {
    if z % 2 == 0 {
        z / 2
    } else {
        (m - 1 - ((z - 1) as nat) / 2) as nat
    }
}

pub proof fn lemma_zigzag_round_trip(v: nat, m: nat)
    requires
        v < m,
        m % 2 == 0,
        m >= 2,
    ensures
        zigzag(v, m) < m,
        unzigzag(zigzag(v, m), m) == v,
{
}

/// The difference stream of a page: slot 0 keeps its value, every later
/// slot stores its wrapping difference from its predecessor.
pub open spec fn delta_at(values: Seq<u64>, i: int, m: nat) -> nat {
    if i == 0 {
        values[0] as nat
    } else {
        ((((values[i] as nat) + m - (values[i - 1] as nat)) as int % (m as int)) as nat)
    }
}

/// The little-endian base-128 varint of `v`: seven value bits per byte, the
/// high bit marking continuation.
pub open spec fn varint_of(v: nat) -> Seq<u8>
    decreases v,
{
    if v < 128 {
        seq![v as u8]
    } else {
        seq![(128 + v % 128) as u8] + varint_of(v / 128)
    }
}

/// `128^k`.
pub open spec fn pow128(k: nat) -> nat
    decreases k,
{
    if k == 0 {
        1
    } else {
        128 * pow128((k - 1) as nat)
    }
}

/// A value below `128^k` takes at most `k` varint bytes.
pub proof fn lemma_varint_len(v: nat, k: nat)
    requires
        k >= 1,
        v < pow128(k),
    ensures
        1 <= varint_of(v).len() <= k,
    decreases k,
{
    if v >= 128 {
        assert(v / 128 < pow128((k - 1) as nat)) by (nonlinear_arith)
            requires
                v < 128 * pow128((k - 1) as nat),
        ;
        if k == 1 {
            reveal_with_fuel(pow128, 2);
            assert(false);
        } else {
            lemma_varint_len(v / 128, (k - 1) as nat);
        }
    }
}

/// Every value a varint of at most ten bytes can carry fits `128^10`; every
/// `u64` fits in ten bytes.
pub proof fn lemma_pow128_values()
    ensures
        pow128(10) == 0x40_0000_0000_0000_0000,
        pow128(9) == 0x8000_0000_0000_0000,
{
    reveal_with_fuel(pow128, 11);
}

/// The varint value and byte count found at `pos` in `payload`, if any
/// terminating byte is reached.
pub open spec fn varint_at(payload: Seq<u8>, pos: int) -> Option<(nat, nat)>
    decreases payload.len() - pos,
{
    if pos < 0 || pos >= payload.len() {
        None
    } else {
        let b = payload[pos];
        if b < 128 {
            Some(((b as nat, 1nat)))
        } else {
            match varint_at(payload, pos + 1) {
                Some(vl) => Some((((b - 128) as nat + 128 * vl.0, vl.1 + 1))),
                None => None,
            }
        }
    }
}

/// A varint written into a longer byte string is read back from it.
pub proof fn lemma_varint_at(payload: Seq<u8>, pos: int, v: nat)
    requires
        0 <= pos,
        pos + varint_of(v).len() <= payload.len(),
        payload.subrange(pos, pos + varint_of(v).len()) == varint_of(v),
    ensures
        varint_at(payload, pos) == Some((v, varint_of(v).len())),
    decreases v,
{
    let enc = varint_of(v);
    assert(payload[pos] == enc[0]);
    if v < 128 {
    } else {
        let rest = varint_of(v / 128);
        assert(enc =~= seq![(128 + v % 128) as u8] + rest);
        assert(payload.subrange(pos + 1, pos + 1 + rest.len()) =~= rest) by {
            assert forall|t: int| 0 <= t < rest.len() implies payload[pos + 1 + t] == rest[t] by {
                assert(payload.subrange(pos, pos + enc.len())[1 + t] == payload[pos + 1 + t]);
                assert(enc[1 + t] == rest[t]);
            }
        }
        lemma_varint_at(payload, pos + 1, v / 128);
        assert((payload[pos] - 128) as nat + 128 * (v / 128) == v) by (nonlinear_arith)
            requires
                payload[pos] == 128 + v % 128,
                v >= 128,
        ;
    }
}

/// The delta payload: the zig-zag varint of each difference, in order.
pub open spec fn delta_payload(values: Seq<u64>, w: nat) -> Seq<u8>
    decreases values.len(),
{
    if values.len() == 0 {
        Seq::empty()
    } else {
        delta_payload(values.drop_last(), w) + varint_of(
            zigzag(delta_at(values, values.len() - 1, pow256(w)), pow256(w)),
        )
    }
}

/// What remains of a delta payload from `pos` on, decoded against the last
/// reconstructed value `prev`.
pub open spec fn delta_parse_from(
    payload: Seq<u8>,
    pos: int,
    length: nat,
    prev: nat,
    m: nat,
) -> Option<Seq<u64>>
    decreases length,
{
    if length == 0 {
        if pos == payload.len() {
            Some(Seq::empty())
        } else {
            None
        }
    } else {
        match varint_at(payload, pos) {
            Some(zl) => {
                if zl.1 > 10 || zl.0 >= m {
                    None
                } else {
                    let v = (prev + unzigzag(zl.0, m)) % m;
                    match delta_parse_from(
                        payload,
                        pos + zl.1,
                        (length - 1) as nat,
                        v,
                        m,
                    ) {
                        Some(rest) => Some(seq![v as u64] + rest),
                        None => None,
                    }
                }
            },
            None => None,
        }
    }
}

/// What a delta payload of `length` slots decodes to.
pub open spec fn delta_parse(payload: Seq<u8>, length: nat, w: nat) -> Option<Seq<u64>> {
    delta_parse_from(payload, 0, length, 0, pow256(w))
}

/// A prefix of the page writes a prefix of the payload.
proof fn lemma_delta_payload_prefix(values: Seq<u64>, w: nat, n: int)
    requires
        0 <= n <= values.len(),
    ensures
        delta_payload(values.take(n), w).len() <= delta_payload(values, w).len(),
        delta_payload(values, w).take(delta_payload(values.take(n), w).len() as int)
            == delta_payload(values.take(n), w),
    decreases values.len() - n,
{
    if n == values.len() {
        assert(values.take(n) =~= values);
        assert(delta_payload(values, w).take(delta_payload(values, w).len() as int)
            =~= delta_payload(values, w));
    } else {
        lemma_delta_payload_prefix(values, w, n + 1);
        let t1 = values.take(n + 1);
        assert(t1.drop_last() =~= values.take(n));
        let pn = delta_payload(values.take(n), w);
        let pn1 = delta_payload(t1, w);
        assert(delta_at(t1, n, pow256(w)) == delta_at(values, n, pow256(w)));
        assert(pn1 == pn + varint_of(zigzag(delta_at(values, n, pow256(w)), pow256(w))));
        assert(delta_payload(values, w).take(pn.len() as int) =~= pn) by {
            assert(delta_payload(values, w).take(pn1.len() as int) == pn1);
            assert forall|t: int| 0 <= t < pn.len() implies delta_payload(values, w)[t] == pn[t] by {
                assert(pn1[t] == pn[t]);
                assert(delta_payload(values, w).take(pn1.len() as int)[t] == delta_payload(
                    values,
                    w,
                )[t]);
            }
        }
    }
}

/// From slot `i` on, the rest of the payload decodes to the rest of the
/// page.
proof fn lemma_delta_parse_suffix(values: Seq<u64>, w: nat, i: int)
    requires
        1 <= w <= 8,
        0 <= i <= values.len(),
        forall|t: int| 0 <= t < values.len() ==> (values[t] as nat) < pow256(w),
    ensures
        delta_parse_from(
            delta_payload(values, w),
            delta_payload(values.take(i), w).len() as int,
            (values.len() - i) as nat,
            if i == 0 {
                0nat
            } else {
                values[i - 1] as nat
            },
            pow256(w),
        ) == Some(values.skip(i)),
    decreases values.len() - i,
{
    let m = pow256(w);
    let payload = delta_payload(values, w);
    let prev: nat = if i == 0 {
        0nat
    } else {
        values[i - 1] as nat
    };
    lemma_pow256_values();
    crate::bytes::lemma_pow256_pos(w);
    assert(m % 2 == 0 && m >= 2) by {
        crate::bytes::lemma_pow256_mono(1, w);
        lemma_pow256_even(w);
    }
    if i == values.len() {
        assert(values.take(i) =~= values);
        assert(values.skip(i) =~= Seq::<u64>::empty());
    } else {
        let d = delta_at(values, i, m);
        lemma_mod_bound(((values[i] as nat) + m - (values[i - 1] as nat)) as int, m as int);
        assert(d < m) by {
            if i > 0 {
                lemma_mod_bound(((values[i] as nat) + m - (values[i - 1] as nat)) as int, m as int);
            }
        }
        let z = zigzag(d, m);
        lemma_zigzag_round_trip(d, m);
        crate::bytes::lemma_pow256_mono(w, 8);
        lemma_pow128_values();
        lemma_varint_len(z, 10);
        let enc = varint_of(z);
        let t1 = values.take(i + 1);
        assert(t1.drop_last() =~= values.take(i));
        assert(delta_at(t1, i, m) == d);
        let pn = delta_payload(values.take(i), w);
        let pn1 = delta_payload(t1, w);
        assert(pn1 == pn + enc);
        lemma_delta_payload_prefix(values, w, i + 1);
        assert(payload.subrange(pn.len() as int, pn.len() as int + enc.len() as int) =~= enc) by {
            assert(payload.take(pn1.len() as int) == pn1);
            assert forall|t: int| 0 <= t < enc.len() implies payload[pn.len() + t] == enc[t] by {
                assert(payload.take(pn1.len() as int)[pn.len() + t] == payload[pn.len() + t]);
                assert(pn1[pn.len() + t] == enc[t]);
            }
        }
        lemma_varint_at(payload, pn.len() as int, z);
        // the decoded slot is the original value
        assert((prev + unzigzag(z, m)) % m == values[i] as nat) by {
            assert(unzigzag(z, m) == d);
            if i == 0 {
                lemma_small_mod(values[0] as nat, m);
            } else {
                let a = values[i] as nat;
                let b = values[i - 1] as nat;
                lemma_add_mod_noop(b as int, ((a + m - b) as int) % (m as int), m as int);
                lemma_small_mod((((b as int) % (m as int)) as nat), m);
                lemma_small_mod(b, m);
                assert(((b + (a + m - b)) as int) % (m as int) == a as int) by {
                    assert(b + ((a + m) - b) == a + m);
                    lemma_add_mod_noop(0, (a + m) as int, m as int);
                    assert((a + m) % m == a % m) by {
                        vstd::arithmetic::div_mod::lemma_mod_add_multiples_vanish(
                            a as int,
                            m as int,
                        );
                    }
                    lemma_small_mod(a, m);
                }
                assert(((b + ((((a + m - b) as int) % (m as int)) as nat)) as int) % (m as int) == ((b + (a + m - b)) as int) % (m as int)) by {
                    lemma_add_mod_noop(b as int, ((a + m) - b) as int, m as int);
                    lemma_small_mod(b, m);
                }
            }
        }
        lemma_delta_parse_suffix(values, w, i + 1);
        assert(seq![values[i]] + values.skip(i + 1) =~= values.skip(i));
    }
}

/// Adding a wrapping difference back restores the original value.
pub proof fn lemma_wrap_round(a: nat, b: nat, m: nat)
    requires
        a < m,
        b < m,
        1 <= m,
    ensures
        ((b + ((((a + m - b) as int) % (m as int)) as nat)) as int) % (m as int) == a as int,
{
    lemma_add_mod_noop(b as int, ((a + m) - b) as int, m as int);
    lemma_small_mod(b, m);
    assert(((b as int) % (m as int) + (((a + m) - b) as int) % (m as int)) % (m as int) == ((b + (
    a + m - b)) as int) % (m as int));
    assert(b + ((a + m) - b) == a + m);
    vstd::arithmetic::div_mod::lemma_mod_add_multiples_vanish(a as int, m as int);
    lemma_small_mod(a, m);
    lemma_add_mod_noop(b as int, (((a + m - b) as int) % (m as int)), m as int);
}

/// `256^w` is even for positive `w`.
proof fn lemma_pow256_even(w: nat)
    requires
        w >= 1,
    ensures
        pow256(w) % 2 == 0,
    decreases w,
{
    crate::bytes::lemma_pow256_pos((w - 1) as nat);
    assert(pow256(w) == 256 * pow256((w - 1) as nat));
    assert((256 * pow256((w - 1) as nat)) % 2 == 0) by (nonlinear_arith)
        requires
            pow256((w - 1) as nat) >= 1,
    ;
}

/// Decoding the delta payload of a page gives the page back, storage slots
/// included.
pub proof fn lemma_delta_round_trip(values: Seq<u64>, w: nat)
    requires
        1 <= w <= 8,
        forall|t: int| 0 <= t < values.len() ==> (values[t] as nat) < pow256(w),
    ensures
        delta_parse(delta_payload(values, w), values.len(), w) == Some(values),
{
    lemma_delta_parse_suffix(values, w, 0);
    assert(values.take(0) =~= Seq::<u64>::empty());
    assert(values.skip(0) =~= values);
}


/// Reading a varint is unaffected by dropping bytes before it.
proof fn lemma_varint_at_offset(big: Seq<u8>, small: Seq<u8>, off: int, pos: int)
    requires
        0 <= off <= pos,
        off <= big.len(),
        small == big.subrange(off, big.len() as int),
    ensures
        varint_at(big, pos) == varint_at(small, pos - off),
    decreases big.len() - pos,
{
    assert(small.len() == big.len() - off);
    if pos >= big.len() {
        assert(varint_at(big, pos) is None);
        assert(pos - off >= small.len());
    } else {
        assert(small[pos - off] == big[pos]);
        if big[pos] >= 128 {
            lemma_varint_at_offset(big, small, off, pos + 1);
        }
    }
}

/// Appends the varint of `v` to `out`.
pub fn push_varint(out: &mut Vec<u8>, v: u64)
    ensures
        final(out)@ == old(out)@ + varint_of(v as nat),
        final(out)@.len() <= old(out)@.len() + 10,
{
    let ghost orig = out@;
    let mut x: u64 = v;
    proof {
        assert(out@.skip(orig.len() as int) =~= Seq::<u8>::empty());
        assert(out@.take(orig.len() as int) =~= orig);
        lemma_pow128_values();
        lemma_varint_len(v as nat, 10);
    }
    while x >= 128
        invariant
            varint_of(v as nat) == out@.skip(orig.len() as int) + varint_of(x as nat),
            out@.take(orig.len() as int) == orig,
            out@.len() >= orig.len(),
            out@.len() - orig.len() + varint_of(x as nat).len() == varint_of(v as nat).len(),
        decreases x,
    {
        let b: u8 = (x % 128) as u8 + 128;
        let ghost emitted = out@.skip(orig.len() as int);
        out.push(b);
        proof {
            assert(varint_of(x as nat) == seq![(128 + (x as nat) % 128) as u8] + varint_of(
                (x as nat) / 128,
            ));
            assert(out@.skip(orig.len() as int) =~= emitted + seq![b]);
            assert(out@.take(orig.len() as int) =~= orig);
            assert((emitted + seq![b]) + varint_of((x as nat) / 128) =~= emitted + (seq![b]
                + varint_of((x as nat) / 128)));
            crate::bytes::lemma_le_bytes_len(0, 0);
            assert(varint_of((x / 128) as nat).len() + 1 == varint_of(x as nat).len());
        }
        x = x / 128;
    }
    let ghost emitted = out@.skip(orig.len() as int);
    out.push(x as u8);
    proof {
        assert(varint_of(x as nat) == seq![x as u8]);
        assert(out@.skip(orig.len() as int) =~= emitted + seq![x as u8]);
        assert(out@.take(orig.len() as int) =~= orig);
        assert(out@ =~= orig + (emitted + seq![x as u8]));
        assert(out@ =~= orig + varint_of(v as nat));
    }
}

/// Reads one varint lying between `pos` and `end` in `input`; rejects one
/// that runs past `end` or takes more than ten bytes.
fn read_varint(input: &[u8], pos: usize, end: usize) -> (r: Result<(u128, usize), NativeError>)
    requires
        pos <= end <= input@.len(),
    ensures
        match r {
            Ok(vl) => {
                &&& varint_at(input@.subrange(pos as int, end as int), 0) == Some(
                    (vl.0 as nat, vl.1 as nat),
                )
                &&& 1 <= vl.1 <= 10
                &&& pos + vl.1 <= end
                &&& (vl.0 as nat) < pow128(10)
            },
            Err(e) => {
                &&& e == NativeError::InvalidPayload
                &&& {
                    let va = varint_at(input@.subrange(pos as int, end as int), 0);
                    va is None || va->Some_0.1 > 10
                }
            },
        },
{
    let n: usize = input.len();
    let ghost payload = input@.subrange(pos as int, end as int);
    let mut value: u128 = 0;
    let mut mult: u128 = 1;
    let mut count: usize = 0;
    proof {
        lemma_pow128_values();
    }
    while count < 10
        invariant
            pos <= end <= n == input@.len(),
            payload == input@.subrange(pos as int, end as int),
            count <= 10,
            mult == pow128(count as nat),
            (value as nat) < mult,
            mult <= pow128(10),
            varint_at(payload, 0) == (match varint_at(payload, count as int) {
                Some(vl) => Some((((value as nat) + (mult as nat) * vl.0, vl.1 + count as nat))),
                None => None::<(nat, nat)>,
            }),
        decreases 10 - count,
    {
        if end - pos <= count {
            proof {
                assert(varint_at(payload, count as int) is None);
            }
            return Err(NativeError::InvalidPayload);
        }
        let b: u8 = input[pos + count];
        let ghost inv_value = value;
        let ghost inv_mult = mult;
        let ghost inv_count = count;
        proof {
            lemma_pow128_values();
            assert(payload[count as int] == input@[(pos + count) as int]);
            assert(pow128((count + 1) as nat) == 128 * pow128(count as nat));
            assert((value as nat) + ((b % 128) as nat) * (mult as nat) < 128 * (mult as nat))
                by (nonlinear_arith)
                requires
                    (value as nat) < (mult as nat),
                    ((b % 128) as nat) < 128,
            ;
            assert(128 * (mult as nat) <= pow128(10)) by {
                if count < 10 {
                    lemma_pow128_mono((count + 1) as nat, 10);
                }
            }
        }
        value = value + ((b % 128) as u128) * mult;
        count = count + 1;
        if b < 128 {
            proof {
                assert(varint_at(payload, inv_count as int) == Some((b as nat, 1nat)));
                assert((value as nat) == (inv_value as nat) + ((b % 128) as nat) * (
                inv_mult as nat));
                assert(((b % 128) as nat) * (inv_mult as nat) == (inv_mult as nat) * (b as nat))
                    by (nonlinear_arith)
                    requires
                        b < 128,
                ;
                assert(varint_at(payload, 0) == Some(
                    ((inv_value as nat) + (inv_mult as nat) * (b as nat), 1 + inv_count as nat),
                ));
                assert(pow128(count as nat) == 128 * pow128((count - 1) as nat));
                lemma_pow128_mono(count as nat, 10);
                assert((value as nat) < pow128(count as nat));
                assert(varint_at(payload, 0) == Some(((value as nat), count as nat)));
            }
            return Ok((value, count));
        }
        proof {
            let prev_count = count - 1;
            assert(varint_at(payload, prev_count as int) == (
            match varint_at(payload, count as int) {
                Some(vl) => Some((((b - 128) as nat + 128 * vl.0, vl.1 + 1))),
                None => None::<(nat, nat)>,
            }));
            if varint_at(payload, count as int) is Some {
                let vl = varint_at(payload, count as int)->Some_0;
                assert(((value - ((b % 128) as u128) * mult) as nat) + (mult as nat) * ((b
                    - 128) as nat + 128 * vl.0) == (value as nat) + (128 * (mult as nat)) * vl.0)
                    by (nonlinear_arith)
                    requires
                        b >= 128,
                        value >= ((b % 128) as u128) * mult,
                        (value as nat) == ((value - ((b % 128) as u128) * mult) as nat) + ((b
                            % 128) as nat) * (mult as nat),
                ;
            }
        }
        mult = mult * 128;
    }
    proof {
        if varint_at(payload, 0) is Some {
            let vl0 = varint_at(payload, 0)->Some_0;
            if varint_at(payload, 10) is Some {
                let vl = varint_at(payload, 10)->Some_0;
                assert(vl0.1 == vl.1 + 10 > 10);
            }
        }
    }
    Err(NativeError::InvalidPayload)
}

proof fn lemma_pow128_mono(a: nat, b: nat)
    requires
        a <= b,
    ensures
        pow128(a) <= pow128(b),
    decreases b,
{
    if a < b {
        lemma_pow128_mono(a, (b - 1) as nat);
        lemma_pow128_pos((b - 1) as nat);
    }
}

proof fn lemma_pow128_pos(k: nat)
    ensures
        pow128(k) >= 1,
    decreases k,
{
    if k > 0 {
        lemma_pow128_pos((k - 1) as nat);
    }
}

/// Computes `256^w` for a byte width up to eight.
fn pow256_exec(w: usize) -> (r: u128)
    requires
        1 <= w <= 8,
    ensures
        r == pow256(w as nat),
        r >= 2,
        r % 2 == 0,
{
    proof {
        lemma_pow256_values();
        reveal_with_fuel(pow256, 9);
        lemma_pow256_even(w as nat);
        crate::bytes::lemma_pow256_mono(1, w as nat);
    }
    if w == 1 {
        0x100
    } else if w == 2 {
        0x1_0000
    } else if w == 3 {
        0x100_0000
    } else if w == 4 {
        0x1_0000_0000
    } else if w == 5 {
        0x100_0000_0000
    } else if w == 6 {
        0x1_0000_0000_0000
    } else if w == 7 {
        0x100_0000_0000_0000
    } else {
        0x1_0000_0000_0000_0000
    }
}

/// The delta codec: zig-zag encoded wrapping first differences, stored as
/// varints.
pub struct Delta {}

impl Delta {
    /// Appends the delta payload of `array` to `output`; returns the number
    /// of bytes written.
    pub fn compress(&self, array: &PrimitivePage, output: &mut Vec<u8>) -> (r: usize)
        requires
            array.wf(),
            array.spec_len() <= MAX_PAGE_LEN,
        ensures
            final(output)@ == old(output)@ + delta_payload(
                array.values@,
                crate::page::kind_width(array.kind),
            ),
            final(output)@.len() == old(output)@.len() + r,
            r <= array.spec_len() * 10,
    {
        let w: usize = array.kind.width();
        let len: usize = array.values.len();
        let out0: usize = output.len();
        let m: u128 = pow256_exec(w);
        let ghost vals = array.values@;
        let ghost orig = output@;
        let mut prev: u64 = 0;
        let mut i: usize = 0;
        proof {
            assert(vals.take(0) =~= Seq::<u64>::empty());
            assert(output@ =~= orig + delta_payload(vals.take(0), w as nat));
        }
        while i < len
            invariant
                array.wf(),
                vals == array.values@,
                1 <= w <= 8,
                w == crate::page::kind_width(array.kind),
                i <= len == vals.len() <= MAX_PAGE_LEN,
                m == pow256(w as nat),
                m >= 2,
                m % 2 == 0,
                output@ == orig + delta_payload(vals.take(i as int), w as nat),
                output@.len() <= orig.len() + i * 10,
                i > 0 ==> prev == vals[i - 1],
                i == 0 ==> prev == 0,
                (prev as nat) < m as nat,
            decreases len - i,
        {
            let v: u64 = array.values[i];
            proof {
                lemma_pow256_values();
                crate::bytes::lemma_pow256_mono(w as nat, 8);
                if i > 0 {
                    lemma_mod_bound(((v as nat) + (m as nat) - (prev as nat)) as int, m as int);
                }
            }
            let d128: u128 = if i == 0 {
                v as u128
            } else {
                ((v as u128) + m - (prev as u128)) % m
            };
            proof {
                assert(vals.take(i + 1).drop_last() =~= vals.take(i as int));
                assert(d128 < m);
                assert((d128 as nat) == delta_at(vals, i as int, m as nat)) by {
                    if i == 0 {
                        assert((v as nat) < m as nat);
                    }
                }
                assert(delta_at(vals.take(i + 1), i as int, m as nat) == delta_at(
                    vals,
                    i as int,
                    m as nat,
                ));
                lemma_zigzag_round_trip(d128 as nat, m as nat);
            }
            let z128: u128 = if 2 * d128 < m {
                2 * d128
            } else {
                2 * (m - 1 - d128) + 1
            };
            proof {
                assert((z128 as nat) == zigzag(d128 as nat, m as nat));
                assert(z128 < m);
            }
            let z: u64 = z128 as u64;
            let ghost before = output@;
            push_varint(output, z);
            proof {
                assert((z as nat) == zigzag(delta_at(vals, i as int, m as nat), m as nat));
                assert(output@ =~= orig + delta_payload(vals.take(i + 1), w as nat)) by {
                    assert(delta_payload(vals.take(i + 1), w as nat) == delta_payload(
                        vals.take(i as int),
                        w as nat,
                    ) + varint_of(zigzag(delta_at(vals, i as int, m as nat), m as nat)));
                    assert(before =~= orig + delta_payload(vals.take(i as int), w as nat));
                }
                assert(output@.len() <= orig.len() + (i + 1) * 10) by (nonlinear_arith)
                    requires
                        output@.len() <= before.len() + 10,
                        before.len() <= orig.len() + i * 10,
                ;
            }
            prev = v;
            i = i + 1;
        }
        proof {
            assert(vals.take(len as int) =~= vals);
            assert(len * 10 >= output@.len() - orig.len());
        }
        output.len() - out0
    }

    /// Decodes a delta payload of `payload_len` bytes at `input[pos..]` into
    /// `length` slots appended to `output`.
    #[verifier::rlimit(100)]
    pub fn decompress(
        &self,
        input: &[u8],
        pos: usize,
        payload_len: usize,
        length: usize,
        w: usize,
        output: &mut Vec<u64>,
    ) -> (r: Result<(), NativeError>)
        requires
            pos + payload_len <= input@.len(),
            1 <= w <= 8,
            length <= MAX_PAGE_LEN,
        ensures
            match r {
                Ok(()) => {
                    &&& delta_parse(
                        input@.subrange(pos as int, (pos + payload_len) as int),
                        length as nat,
                        w as nat,
                    ) == Some(final(output)@.skip(old(output)@.len() as int))
                    &&& final(output)@.len() == old(output)@.len() + length
                    &&& final(output)@.take(old(output)@.len() as int) == old(output)@
                    &&& forall|i: int|
                        old(output)@.len() <= i < final(output)@.len() ==> ((final(
                            output)@[i]) as nat) < pow256(w as nat)
                },
                Err(e) => {
                    &&& final(output)@ == old(output)@
                    &&& e == NativeError::InvalidPayload
                    &&& delta_parse(
                        input@.subrange(pos as int, (pos + payload_len) as int),
                        length as nat,
                        w as nat,
                    ) is None
                },
            },
    {
        let n: usize = input.len();
        let ghost payload = input@.subrange(pos as int, (pos + payload_len) as int);
        let m: u128 = pow256_exec(w);
        let mut decoded: Vec<u64> = Vec::new();
        let mut consumed: usize = 0;
        let mut prev: u64 = 0;
        while decoded.len() < length
            invariant
                1 <= w <= 8,
                pos + payload_len <= n == input@.len(),
                length <= MAX_PAGE_LEN,
                payload == input@.subrange(pos as int, (pos + payload_len) as int),
                payload.len() == payload_len,
                consumed <= payload_len,
                m == pow256(w as nat),
                m >= 2,
                m % 2 == 0,
                decoded@.len() <= length,
                forall|t: int|
                    0 <= t < decoded@.len() ==> ((#[trigger] decoded@[t]) as nat) < pow256(w as nat),
                delta_parse_from(payload, 0, length as nat, 0, m as nat) == (
                match delta_parse_from(
                    payload,
                    consumed as int,
                    (length - decoded@.len()) as nat,
                    prev as nat,
                    m as nat,
                ) {
                    Some(rest) => Some(decoded@ + rest),
                    None => None::<Seq<u64>>,
                }),
            decreases length - decoded.len(),
        {
            let produced: usize = decoded.len();
            let ghost dec = decoded@;
            let zl = match read_varint(input, pos + consumed, pos + payload_len) {
                Ok(zl) => zl,
                Err(e) => {
                    proof {
                        assert(input@.subrange(
                            (pos + consumed) as int,
                            (pos + payload_len) as int,
                        ) =~= payload.subrange(consumed as int, payload.len() as int));
                        lemma_varint_at_offset(
                            payload,
                            input@.subrange((pos + consumed) as int, (pos + payload_len) as int),
                            consumed as int,
                            consumed as int,
                        );
                    }
                    return Err(e);
                },
            };
            proof {
                assert(input@.subrange(
                    (pos + consumed) as int,
                    (pos + payload_len) as int,
                ) =~= payload.subrange(consumed as int, payload.len() as int));
                lemma_varint_at_offset(
                    payload,
                    input@.subrange((pos + consumed) as int, (pos + payload_len) as int),
                    consumed as int,
                    consumed as int,
                );
            }
            let z: u128 = zl.0;
            let l: usize = zl.1;
            if z >= m {
                return Err(NativeError::InvalidPayload);
            }
            let uz: u128 = if z % 2 == 0 {
                z / 2
            } else {
                m - 1 - (z - 1) / 2
            };
            proof {
                assert((uz as nat) == unzigzag(z as nat, m as nat));
                assert(uz < m);
            }
            proof {
                lemma_mod_bound(((prev as u128) + uz) as int, m as int);
                crate::bytes::lemma_pow256_mono(w as nat, 8);
                lemma_pow256_values();
            }
            let v128: u128 = ((prev as u128) + uz) % m;
            proof {
                assert(v128 < m);
            }
            let v: u64 = v128 as u64;
            proof {
                assert((v as nat) == ((prev as nat) + unzigzag(z as nat, m as nat)) % (m as nat));
            }
            decoded.push(v);
            proof {
                let lrest = (length - produced - 1) as nat;
                if delta_parse_from(payload, (consumed + l) as int, lrest, v as nat, m as nat)
                    is Some {
                    let rest = delta_parse_from(
                        payload,
                        (consumed + l) as int,
                        lrest,
                        v as nat,
                        m as nat,
                    )->Some_0;
                    assert(dec + (seq![v] + rest) =~= (dec + seq![v]) + rest);
                }
                assert(decoded@ =~= dec + seq![v]);
            }
            prev = v;
            consumed = consumed + l;
        }
        if consumed != payload_len {
            return Err(NativeError::InvalidPayload);
        }
        proof {
            assert(delta_parse_from(payload, consumed as int, 0, prev as nat, m as nat) == Some(
                Seq::<u64>::empty(),
            ));
            assert(decoded@ + Seq::<u64>::empty() =~= decoded@);
        }
        let ghost dec = decoded@;
        output.append(&mut decoded);
        proof {
            assert(output@.take(old(output)@.len() as int) =~= old(output)@);
            assert(output@.skip(old(output)@.len() as int) =~= dec);
            assert forall|t: int|
                old(output)@.len() <= t < output@.len() implies ((output@[t]) as nat) < pow256(
                w as nat,
            ) by {
                assert(output@[t] == dec[t - old(output)@.len()]);
                assert((dec[t - old(output)@.len()] as nat) < pow256(w as nat));
            }
        }
        Ok(())
    }
}

} // verus!
