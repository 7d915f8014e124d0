use vstd::prelude::*;

verus! {

/// Bit `i` of a flag sequence as a number, with positions past the end
/// reading as zero.
pub open spec fn bit_at(flags: Seq<bool>, i: int) -> nat {
    if 0 <= i < flags.len() && flags[i] {
        1
    } else {
        0
    }
}

/// Byte `j` of the packed bitmap: bits are packed least-significant first.
pub open spec fn bitmap_byte(flags: Seq<bool>, j: int) -> u8 {
    (bit_at(flags, 8 * j) + 2 * bit_at(flags, 8 * j + 1) + 4 * bit_at(flags, 8 * j + 2) + 8
        * bit_at(flags, 8 * j + 3) + 16 * bit_at(flags, 8 * j + 4) + 32 * bit_at(flags, 8 * j + 5)
        + 64 * bit_at(flags, 8 * j + 6) + 128 * bit_at(flags, 8 * j + 7)) as u8
}

/// The packed bitmap of a flag sequence: one byte per eight bits, the last
/// byte padded with zeros.
pub open spec fn bitmap_bytes(flags: Seq<bool>) -> Seq<u8> {
    Seq::new((flags.len() + 7) / 8, |j: int| bitmap_byte(flags, j))
}

/// `2^k` for a bit position inside one byte.
pub open spec fn pow2_in_byte(k: int) -> nat {
    if k == 0 {
        1
    } else if k == 1 {
        2
    } else if k == 2 {
        4
    } else if k == 3 {
        8
    } else if k == 4 {
        16
    } else if k == 5 {
        32
    } else if k == 6 {
        64
    } else {
        128
    }
}

/// Bit `i` of a packed bitmap.
pub open spec fn bm_bit(bytes: Seq<u8>, i: int) -> bool {
    ((bytes[i / 8] as nat) / pow2_in_byte(i % 8)) % 2 == 1
}

/// The packed sum of eight bits yields each bit back under shift-and-mask.
proof fn lemma_byte_bits(b0: u8, b1: u8, b2: u8, b3: u8, b4: u8, b5: u8, b6: u8, b7: u8, b: u8)
    requires
        b0 <= 1 && b1 <= 1 && b2 <= 1 && b3 <= 1 && b4 <= 1 && b5 <= 1 && b6 <= 1 && b7 <= 1,
        b == b0 + 2 * b1 + 4 * b2 + 8 * b3 + 16 * b4 + 32 * b5 + 64 * b6 + 128 * b7,
    ensures
        (b as nat) / 1 % 2 == b0,
        (b as nat) / 2 % 2 == b1,
        (b as nat) / 4 % 2 == b2,
        (b as nat) / 8 % 2 == b3,
        (b as nat) / 16 % 2 == b4,
        (b as nat) / 32 % 2 == b5,
        (b as nat) / 64 % 2 == b6,
        (b as nat) / 128 % 2 == b7,
{
    assert(b / 1 % 2 == b0 && b / 2 % 2 == b1 && b / 4 % 2 == b2 && b / 8 % 2 == b3 && b / 16 % 2
        == b4 && b / 32 % 2 == b5 && b / 64 % 2 == b6 && b / 128 % 2 == b7) by (bit_vector)
        requires
            b0 <= 1 && b1 <= 1 && b2 <= 1 && b3 <= 1 && b4 <= 1 && b5 <= 1 && b6 <= 1 && b7 <= 1,
            b == b0 + 2 * b1 + 4 * b2 + 8 * b3 + 16 * b4 + 32 * b5 + 64 * b6 + 128 * b7,
    ;
}

/// Reading any bit of the packed bitmap gives the flag back.
pub proof fn lemma_bitmap_round_trip(flags: Seq<bool>, i: int)
    requires
        0 <= i < flags.len(),
    ensures
        bm_bit(bitmap_bytes(flags), i) == flags[i],
{
    let j = i / 8;
    let k = i % 8;
    let b = bitmap_byte(flags, j);
    assert(bitmap_bytes(flags)[j] == b);
    lemma_byte_bits(
        bit_at(flags, 8 * j) as u8,
        bit_at(flags, 8 * j + 1) as u8,
        bit_at(flags, 8 * j + 2) as u8,
        bit_at(flags, 8 * j + 3) as u8,
        bit_at(flags, 8 * j + 4) as u8,
        bit_at(flags, 8 * j + 5) as u8,
        bit_at(flags, 8 * j + 6) as u8,
        bit_at(flags, 8 * j + 7) as u8,
        b,
    );
    assert(8 * j + k == i);
}

/// Packs byte `j` of the bitmap of `flags`.
fn pack_bitmap_byte(flags: &Vec<bool>, j: usize) -> (b: u8)
    requires
        8 * j < flags@.len(),
    ensures
        b == bitmap_byte(flags@, j as int),
{
    let len: usize = flags.len();
    let base: usize = 8 * j;
    let mut b: u8 = 0;
    if flags[base] {
        b = b + 1;
    }
    if base + 1 < len && flags[base + 1] {
        b = b + 2;
    }
    if base + 2 < len && flags[base + 2] {
        b = b + 4;
    }
    if base + 3 < len && flags[base + 3] {
        b = b + 8;
    }
    if base + 4 < len && flags[base + 4] {
        b = b + 16;
    }
    if base + 5 < len && flags[base + 5] {
        b = b + 32;
    }
    if base + 6 < len && flags[base + 6] {
        b = b + 64;
    }
    if base + 7 < len && flags[base + 7] {
        b = b + 128;
    }
    b
}

/// Appends the packed bitmap of `flags` to `out`.
pub fn push_bitmap(flags: &Vec<bool>, out: &mut Vec<u8>)
    requires
        flags@.len() <= crate::stats::MAX_PAGE_LEN,
    ensures
        final(out)@ == old(out)@ + bitmap_bytes(flags@),
        final(out)@.len() == old(out)@.len() + (flags@.len() + 7) / 8,
{
    let len: usize = flags.len();
    let nbytes: usize = (len + 7) / 8;
    let ghost orig = out@;
    let mut j: usize = 0;
    proof {
        assert(out@.skip(orig.len() as int) =~= Seq::<u8>::empty());
    }
    while j < nbytes
        invariant
            j <= nbytes,
            len == flags@.len(),
            nbytes == (len + 7) / 8,
            out@.len() == orig.len() + j,
            out@.take(orig.len() as int) == orig,
            out@.skip(orig.len() as int) == bitmap_bytes(flags@).take(j as int),
        decreases nbytes - j,
    {
        proof {
            assert(8 * ((len + 7) / 8) <= len + 7);
        }
        let b: u8 = pack_bitmap_byte(flags, j);
        out.push(b);
        proof {
            assert(out@.take(orig.len() as int) =~= orig);
            assert(out@.skip(orig.len() as int) =~= bitmap_bytes(flags@).take((j + 1) as int));
        }
        j = j + 1;
    }
    proof {
        assert(bitmap_bytes(flags@).take(nbytes as int) =~= bitmap_bytes(flags@));
        assert(out@ =~= orig + bitmap_bytes(flags@));
    }
}

/// Reads bit `i` of a packed bitmap lying at `input[pos..]`.
pub fn read_bitmap_bit(input: &[u8], pos: usize, i: usize) -> (r: bool)
    requires
        pos + i / 8 < input@.len(),
    ensures
        r == bm_bit(input@.skip(pos as int), i as int),
{
    let n: usize = input.len();
    let byte: u8 = input[pos + i / 8];
    let k: usize = i % 8;
    let mask: u8 = if k == 0 {
        1
    } else if k == 1 {
        2
    } else if k == 2 {
        4
    } else if k == 3 {
        8
    } else if k == 4 {
        16
    } else if k == 5 {
        32
    } else if k == 6 {
        64
    } else {
        128
    };
    let r: bool = byte / mask % 2 == 1;
    proof {
        assert(input@.skip(pos as int)[(i / 8) as int] == input@[(pos + i / 8) as int]);
        assert(mask == pow2_in_byte((i % 8) as int));
    }
    r
}

} // verus!
