use vstd::prelude::*;

use vstd::arithmetic::div_mod::lemma_div_denominator;

verus! {

/// `256^w`: the number of distinct values a `w`-byte field can hold.
pub open spec fn pow256(w: nat) -> nat
    decreases w,
{
    if w == 0 {
        1
    } else {
        256 * pow256((w - 1) as nat)
    }
}

pub proof fn lemma_pow256_pos(w: nat)
    ensures
        pow256(w) >= 1,
    decreases w,
{
    if w > 0 {
        lemma_pow256_pos((w - 1) as nat);
    }
}

/// The values of `pow256` on the widths this library uses.
pub proof fn lemma_pow256_values()
    ensures
        pow256(1) == 0x100,
        pow256(2) == 0x1_0000,
        pow256(4) == 0x1_0000_0000,
        pow256(8) == 0x1_0000_0000_0000_0000,
{
    reveal_with_fuel(pow256, 9);
}

pub proof fn lemma_pow256_mono(a: nat, b: nat)
    requires
        a <= b,
    ensures
        pow256(a) <= pow256(b),
    decreases b,
{
    if a < b {
        lemma_pow256_mono(a, (b - 1) as nat);
        lemma_pow256_pos((b - 1) as nat);
    }
}

/// The `w` little-endian bytes of `v` (`v` is taken modulo `256^w`).
pub open spec fn le_bytes_of(v: nat, w: nat) -> Seq<u8>
    decreases w,
{
    if w == 0 {
        Seq::empty()
    } else {
        seq![(v % 256) as u8] + le_bytes_of(v / 256, (w - 1) as nat)
    }
}

/// The value that a little-endian byte string denotes.
pub open spec fn le_value_of(b: Seq<u8>) -> nat
    decreases b.len(),
{
    if b.len() == 0 {
        0
    } else {
        (b[0] as nat) + 256 * le_value_of(b.drop_first())
    }
}

pub proof fn lemma_le_bytes_len(v: nat, w: nat)
    ensures
        le_bytes_of(v, w).len() == w,
    decreases w,
{
    if w > 0 {
        lemma_le_bytes_len(v / 256, (w - 1) as nat);
    }
}

/// Reading the bytes of `v` back yields `v`, provided `v` fits in `w` bytes.
pub proof fn lemma_le_bytes_value(v: nat, w: nat)
    requires
        v < pow256(w),
    ensures
        le_value_of(le_bytes_of(v, w)) == v,
    decreases w,
{
    if w > 0 {
        assert(v / 256 < pow256((w - 1) as nat)) by (nonlinear_arith)
            requires
                v < 256 * pow256((w - 1) as nat),
        ;
        lemma_le_bytes_value(v / 256, (w - 1) as nat);
        let s = seq![(v % 256) as u8] + le_bytes_of(v / 256, (w - 1) as nat);
        assert(s.drop_first() =~= le_bytes_of(v / 256, (w - 1) as nat));
        assert(v == v % 256 + 256 * (v / 256)) by (nonlinear_arith);
    }
}

/// A `w`-byte string never denotes a value of `256^w` or above.
pub proof fn lemma_le_value_bound(b: Seq<u8>)
    ensures
        le_value_of(b) < pow256(b.len()),
    decreases b.len(),
{
    if b.len() > 0 {
        lemma_le_value_bound(b.drop_first());
        assert(le_value_of(b) < 256 * pow256((b.len() - 1) as nat)) by (nonlinear_arith)
            requires
                le_value_of(b) == (b[0] as nat) + 256 * le_value_of(b.drop_first()),
                b[0] < 256,
                le_value_of(b.drop_first()) < pow256((b.len() - 1) as nat),
        ;
    }
}

/// Writing one more byte appends the next byte of `v` at the end.
pub proof fn lemma_le_bytes_snoc(v: nat, w: nat)
    ensures
        le_bytes_of(v, w + 1) =~= le_bytes_of(v, w) + seq![((v / pow256(w)) % 256) as u8],
    decreases w,
{
    if w == 0 {
        reveal_with_fuel(le_bytes_of, 3);
        assert(pow256(0) == 1);
        assert(v / 1 == v);
        assert(le_bytes_of(v, 0) =~= Seq::<u8>::empty());
        assert(le_bytes_of(v, 1) =~= Seq::<u8>::empty() + seq![(v % 256) as u8]);
        assert(le_bytes_of(v, w + 1) =~= le_bytes_of(v, w) + seq![((v / pow256(w)) % 256) as u8]);
    } else {
        lemma_le_bytes_snoc(v / 256, (w - 1) as nat);
        lemma_pow256_pos((w - 1) as nat);
        lemma_div_denominator(v as int, 256, pow256((w - 1) as nat) as int);
        assert(256 * pow256((w - 1) as nat) == pow256(w));
        assert((v / 256) / pow256((w - 1) as nat) == v / pow256(w));
        let tail = seq![((v / pow256(w)) % 256) as u8];
        assert(le_bytes_of(v, w + 1) =~= seq![(v % 256) as u8] + le_bytes_of(
            v / 256,
            ((w + 1) - 1) as nat,
        ));
        assert(le_bytes_of(v / 256, w) =~= le_bytes_of(v / 256, (w - 1) as nat) + tail);
        assert(le_bytes_of(v, w + 1) =~= (seq![(v % 256) as u8] + le_bytes_of(
            v / 256,
            (w - 1) as nat,
        )) + tail);
        assert(le_bytes_of(v, w) =~= seq![(v % 256) as u8] + le_bytes_of(v / 256, (w - 1) as nat));
        assert(le_bytes_of(v, w + 1) =~= le_bytes_of(v, w) + tail);
    }
}

/// Appends the `w` little-endian bytes of `v` to `out`.
pub fn push_le(out: &mut Vec<u8>, v: u64, w: usize)
    requires
        w <= 8,
    ensures
        final(out)@ == old(out)@ + le_bytes_of(v as nat, w as nat),
        final(out)@.len() == old(out)@.len() + w,
{
    let ghost orig = out@;
    let mut x: u64 = v;
    let mut i: usize = 0;
    proof {
        assert(out@ =~= orig + le_bytes_of(v as nat, 0));
        assert(pow256(0) == 1);
        assert((v as nat) / 1 == v as nat);
    }
    while i < w
        invariant
            i <= w <= 8,
            out@ == orig + le_bytes_of(v as nat, i as nat),
            x as nat == (v as nat) / pow256(i as nat),
        decreases w - i,
    {
        out.push((x % 256) as u8);
        proof {
            lemma_le_bytes_snoc(v as nat, i as nat);
            lemma_le_bytes_len(v as nat, i as nat);
            assert(out@ =~= orig + le_bytes_of(v as nat, (i + 1) as nat));
            lemma_pow256_pos(i as nat);
            lemma_div_denominator(v as int, pow256(i as nat) as int, 256);
            assert(pow256(i as nat) * 256 == pow256((i + 1) as nat));
        }
        x = x / 256;
        i = i + 1;
    }
    proof {
        lemma_le_bytes_len(v as nat, w as nat);
    }
}

/// Reads the value that the `w` bytes of `input` starting at `pos` denote.
pub fn read_le(input: &[u8], pos: usize, w: usize) -> (r: u64)
    requires
        w <= 8,
        pos + w <= input@.len(),
    ensures
        r as nat == le_value_of(input@.subrange(pos as int, (pos + w) as int)),
        (r as nat) < pow256(w as nat),
{
    let n: usize = input.len();
    let mut r: u64 = 0;
    let mut i: usize = w;
    proof {
        assert(input@.subrange((pos + w) as int, (pos + w) as int) =~= Seq::<u8>::empty());
    }
    while i > 0
        invariant
            i <= w <= 8,
            pos + w <= n == input@.len(),
            r as nat == le_value_of(input@.subrange((pos + i) as int, (pos + w) as int)),
            (r as nat) < pow256((w - i) as nat),
        decreases i,
    {
        i = i - 1;
        let b: u8 = input[pos + i];
        proof {
            let s = input@.subrange((pos + i) as int, (pos + w) as int);
            assert(s.drop_first() =~= input@.subrange((pos + i + 1) as int, (pos + w) as int));
            assert(s[0] == input@[(pos + i) as int]);
            lemma_pow256_mono((w - i - 1) as nat, 7);
            lemma_pow256_values();
            assert(256 * (r as nat) + (b as nat) < 256 * pow256((w - i - 1) as nat)) by (
            nonlinear_arith)
                requires
                    (r as nat) < pow256((w - i - 1) as nat),
                    (b as nat) < 256,
            ;
        }
        r = r * 256 + (b as u64);
    }
    r
}

} // verus!
