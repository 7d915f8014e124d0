use vstd::prelude::*;

use bitpacking::BitPacker;

use crate::error::NativeError;
use crate::page::PrimitivePage;
use crate::stats::MAX_PAGE_LEN;

verus! {

/// The number of values a bit-packed block holds.
pub const BLOCK_LEN: usize = 128;

/// The least number of bits that can represent `v`.
pub open spec fn bits_needed(v: nat) -> nat
    decreases v,
{
    if v == 0 {
        0
    } else {
        1 + bits_needed(v / 2)
    }
}

/// `2^k`.
pub open spec fn pow2(k: nat) -> nat
    decreases k,
{
    if k == 0 {
        1
    } else {
        2 * pow2((k - 1) as nat)
    }
}

pub proof fn lemma_bits_needed_le(v: nat, k: nat)
    requires
        v < pow2(k),
    ensures
        bits_needed(v) <= k,
    decreases k,
{
    if v > 0 {
        assert(v / 2 < pow2((k - 1) as nat)) by (nonlinear_arith)
            requires
                k >= 1,
                v < 2 * pow2((k - 1) as nat),
        ;
        lemma_bits_needed_le(v / 2, (k - 1) as nat);
    }
}

pub proof fn lemma_pow2_32()
    ensures
        pow2(32) == 0x1_0000_0000,
{
    reveal_with_fuel(pow2, 33);
}

pub proof fn lemma_pow2_64()
    ensures
        pow2(64) == 0x1_0000_0000_0000_0000,
{
    reveal_with_fuel(pow2, 65);
}

/// The largest value of a block (zero for an empty one).
pub open spec fn max_u32(s: Seq<u32>) -> u32
    decreases s.len(),
{
    if s.len() == 0 {
        0
    } else {
        let m = max_u32(s.drop_last());
        if s.last() > m {
            s.last()
        } else {
            m
        }
    }
}

/// The common bit width of a block: the least width that fits its largest
/// value.
pub open spec fn block_width(s: Seq<u32>) -> nat {
    bits_needed(max_u32(s) as nat)
}

pub proof fn lemma_block_width_le_32(s: Seq<u32>)
    ensures
        block_width(s) <= 32,
{
    lemma_pow2_32();
    lemma_bits_needed_le(max_u32(s) as nat, 32);
}

/// The bytes that the fixed 128-lane bit packer produces for a block, at
/// its own bit width. The packing format is the outside packer's; this
/// library never states what the bytes are, only that packing and unpacking
/// are inverse.
pub uninterp spec fn bp_packed_of(block: Seq<u32>) -> Seq<u8>;

/// Relies on `bitpacking::BitPacker4x::num_bits`: the minimum number of
/// bits that represents the largest value of a 128-value block.
#[verifier::external_body]
pub(crate) fn bp_num_bits(block: &[u32]) -> (r: u8)
    requires
        block@.len() == 128,
    ensures
        r as nat == block_width(block@),
        r <= 32,
{
    bitpacking::BitPacker4x::new().num_bits(block)
}

/// Relies on `bitpacking::BitPacker4x::compress`: packing a 128-value block
/// at its own bit width writes exactly `16 * num_bits` bytes.
#[verifier::external_body]
pub(crate) fn bp_pack(block: &[u32], num_bits: u8) -> (r: Vec<u8>)
    requires
        block@.len() == 128,
        num_bits as nat == block_width(block@),
    ensures
        r@ == bp_packed_of(block@),
        r@.len() == 16 * (num_bits as nat),
{
    let packer = bitpacking::BitPacker4x::new();
    let mut out: Vec<u8> = vec![0u8; 4 * bitpacking::BitPacker4x::BLOCK_LEN];
    let n = packer.compress(block, &mut out, num_bits);
    out.truncate(n);
    out
}

/// Relies on `bitpacking::BitPacker4x::decompress`: unpacking the bytes
/// that `compress` wrote, at the same bit width, yields the original block.
#[verifier::external_body]
pub(crate) fn bp_unpack(bytes: &[u8], num_bits: u8) -> (r: Vec<u32>)
    requires
        num_bits <= 32,
        bytes@.len() == 16 * (num_bits as nat),
    ensures
        r@.len() == 128,
        forall|b: Seq<u32>|
            b.len() == 128 && block_width(b) == num_bits as nat && bytes@ == bp_packed_of(b)
                ==> r@ == b,
{
    let packer = bitpacking::BitPacker4x::new();
    let mut out: Vec<u32> = vec![0u32; bitpacking::BitPacker4x::BLOCK_LEN];
    packer.decompress(bytes, &mut out, num_bits);
    out
}

/// The page's patterns as 32-bit lanes.
pub open spec fn as_u32s(vals: Seq<u64>) -> Seq<u32> {
    Seq::new(vals.len(), |i: int| vals[i] as u32)
}

/// The bit-packed payload: for each 128-lane block, one width byte followed
/// by the packed bits.
pub open spec fn bp_payload(vals: Seq<u32>) -> Seq<u8>
    decreases vals.len(),
{
    if vals.len() < 128 {
        Seq::empty()
    } else {
        let block = vals.take(128);
        seq![block_width(block) as u8] + bp_packed_of(block) + bp_payload(vals.skip(128))
    }
}

/// Every block's packed bytes take exactly sixteen bytes per bit of width.
/// This holds of everything the packer writes; a payload is only read back
/// against blocks for which it holds.
pub open spec fn bp_blocks_sized(vals: Seq<u32>) -> bool
    decreases vals.len(),
{
    if vals.len() < 128 {
        true
    } else {
        bp_packed_of(vals.take(128)).len() == 16 * block_width(vals.take(128)) && bp_blocks_sized(
            vals.skip(128),
        )
    }
}

/// A payload of the bit-packing codec for a page: the page is whole blocks
/// of 128 four-byte lanes.
pub open spec fn bp_encodes(vals: Seq<u64>, length: nat, payload: Seq<u8>) -> bool {
    &&& vals.len() == length
    &&& length % 128 == 0
    &&& forall|i: int| 0 <= i < vals.len() ==> (vals[i] as nat) < 0x1_0000_0000
    &&& payload == bp_payload(as_u32s(vals))
    &&& bp_blocks_sized(as_u32s(vals))
}

/// The bit-packing codec: fixed blocks of 128 lanes, each packed at the
/// width of its largest value.
pub struct Bitpacking {}

impl Bitpacking {
    /// Appends the bit-packed payload of `array` to `output`; returns the
    /// number of bytes written.
    pub fn compress(&self, array: &PrimitivePage, output: &mut Vec<u8>) -> (r: usize)
        requires
            array.wf(),
            array.spec_len() <= MAX_PAGE_LEN,
            array.spec_len() % 128 == 0,
            crate::page::kind_width(array.kind) == 4,
        ensures
            final(output)@ == old(output)@ + bp_payload(as_u32s(array.values@)),
            bp_blocks_sized(as_u32s(array.values@)),
            bp_encodes(
                array.values@,
                array.spec_len(),
                final(output)@.skip(old(output)@.len() as int),
            ),
            final(output)@.len() == old(output)@.len() + r,
            r <= array.spec_len() * 5 + 1,
    {
        let len: usize = array.values.len();
        let out0: usize = output.len();
        let ghost vals = array.values@;
        let ghost v32 = as_u32s(vals);
        let ghost orig = output@;
        proof {
            crate::bytes::lemma_pow256_values();
            assert(v32.skip(0) =~= v32);
            assert(output@.skip(orig.len() as int) =~= Seq::<u8>::empty());
            assert(output@.take(orig.len() as int) =~= orig);
        }
        let mut done: usize = 0;
        while done < len
            invariant
                array.wf(),
                vals == array.values@,
                v32 == as_u32s(vals),
                crate::page::kind_width(array.kind) == 4,
                len == vals.len() <= MAX_PAGE_LEN,
                len % 128 == 0,
                done <= len,
                done % 128 == 0,
                output@.take(orig.len() as int) == orig,
                output@.len() >= orig.len() == out0,
                bp_payload(v32) == output@.skip(orig.len() as int) + bp_payload(
                    v32.skip(done as int),
                ),
                bp_blocks_sized(v32) == bp_blocks_sized(v32.skip(done as int)),
                output@.len() - orig.len() <= done * 5 + if done > 0 {
                    1int
                } else {
                    0int
                },
            decreases len - done,
        {
            let mut block: Vec<u32> = Vec::new();
            let mut j: usize = 0;
            proof {
                assert(len - done >= 128) by (nonlinear_arith)
                    requires
                        done < len,
                        done % 128 == 0,
                        len % 128 == 0,
                ;
            }
            while j < 128
                invariant
                    j <= 128,
                    done + 128 <= len == vals.len(),
                    vals == array.values@,
                    array.wf(),
                    crate::page::kind_width(array.kind) == 4,
                    block@.len() == j,
                    forall|t: int| 0 <= t < j ==> #[trigger] block@[t] == vals[done + t] as u32,
                decreases 128 - j,
            {
                proof {
                    crate::bytes::lemma_pow256_values();
                }
                let v: u64 = array.values[done + j];
                block.push(v as u32);
                j = j + 1;
            }
            proof {
                assert(block@ =~= v32.skip(done as int).take(128));
            }
            let nb: u8 = bp_num_bits(block.as_slice());
            let ghost emitted = output@.skip(orig.len() as int);
            output.push(nb);
            let mut packed: Vec<u8> = bp_pack(block.as_slice(), nb);
            let ghost packed_seq = packed@;
            output.append(&mut packed);
            proof {
                let suffix = v32.skip(done as int);
                let block_s = suffix.take(128);
                assert(suffix.skip(128) =~= v32.skip(done + 128));
                assert(output@.skip(orig.len() as int) =~= emitted + (seq![nb] + packed_seq));
                assert(output@.take(orig.len() as int) =~= orig);
                assert(bp_payload(suffix) == seq![block_width(block_s) as u8] + bp_packed_of(
                    block_s,
                ) + bp_payload(suffix.skip(128)));
                assert(emitted + ((seq![nb] + packed_seq) + bp_payload(v32.skip(done + 128)))
                    =~= (emitted + (seq![nb] + packed_seq)) + bp_payload(v32.skip(done + 128)));
                assert(seq![nb] + packed_seq =~= seq![block_width(block_s) as u8] + bp_packed_of(
                    block_s,
                ));
                assert(output@.len() - orig.len() <= (done + 128) * 5 + 1) by (nonlinear_arith)
                    requires
                        output@.len() - orig.len() <= done * 5 + 1 + 1 + 16 * 32,
                ;
            }
            done = done + 128;
        }
        proof {
            assert(v32.skip(len as int) =~= Seq::<u32>::empty());
            assert(bp_payload(v32) =~= output@.skip(orig.len() as int));
            assert(output@.skip(orig.len() as int) =~= bp_payload(as_u32s(vals)));
            assert(len * 5 + 1 >= output@.len() - orig.len()) by (nonlinear_arith)
                requires
                    output@.len() - orig.len() <= len * 5 + 1,
            ;
            assert forall|i: int| 0 <= i < vals.len() implies (#[trigger] vals[i] as nat)
                < 0x1_0000_0000 by {
                crate::bytes::lemma_pow256_values();
            }
        }
        output.len() - out0
    }

    /// Decodes a bit-packed payload of `payload_len` bytes at `input[pos..]`
    /// into `length` slots appended to `output`. Any page whose payload this
    /// is comes back exactly.
    #[verifier::rlimit(100)]
    #[verifier::spinoff_prover]
    pub fn decompress(
        &self,
        input: &[u8],
        pos: usize,
        payload_len: usize,
        length: usize,
        output: &mut Vec<u64>,
    ) -> (r: Result<(), NativeError>)
        requires
            pos + payload_len <= input@.len(),
            length <= MAX_PAGE_LEN,
        ensures
            forall|bv: Seq<u64>|
                bp_encodes(
                    bv,
                    length as nat,
                    input@.subrange(pos as int, (pos + payload_len) as int),
                ) ==> r == Ok::<(), NativeError>(()) && final(output)@ == old(output)@ + bv,
            length % 128 != 0 ==> r == Err::<(), NativeError>(NativeError::InvalidPayload),
            length > 0 && payload_len == 0 ==> r == Err::<(), NativeError>(
                NativeError::InvalidPayload,
            ),
            length > 0 && payload_len > 0 && input@[pos as int] > 32 ==> r == Err::<
                (),
                NativeError,
            >(NativeError::InvalidPayload),
            match r {
                Ok(()) => {
                    &&& final(output)@.len() == old(output)@.len() + length
                    &&& final(output)@.take(old(output)@.len() as int) == old(output)@
                    &&& forall|i: int|
                        old(output)@.len() <= i < final(output)@.len() ==> ((final(
                            output)@[i]) as nat) < 0x1_0000_0000
                },
                Err(e) => {
                    &&& final(output)@ == old(output)@
                    &&& e == NativeError::InvalidPayload
                },
            },
    {
        let n: usize = input.len();
        let ghost payload = input@.subrange(pos as int, (pos + payload_len) as int);
        if length % 128 != 0 {
            return Err(NativeError::InvalidPayload);
        }
        let mut decoded: Vec<u64> = Vec::new();
        let mut consumed: usize = 0;
        proof {
            assert(payload.skip(0) =~= payload);
            assert forall|bv: Seq<u64>|
                bp_encodes(bv, length as nat, payload) implies decoded@ == bv.take(
                decoded@.len() as int,
            ) && payload.skip(0) == bp_payload(as_u32s(bv).skip(decoded@.len() as int))
                && bp_blocks_sized(as_u32s(bv).skip(decoded@.len() as int)) by {
                assert(bv.take(0) =~= Seq::<u64>::empty());
                assert(as_u32s(bv).skip(0) =~= as_u32s(bv));
            }
        }
        while decoded.len() < length
            invariant
                pos + payload_len <= n == input@.len(),
                length <= MAX_PAGE_LEN,
                length % 128 == 0,
                payload == input@.subrange(pos as int, (pos + payload_len) as int),
                payload.len() == payload_len,
                consumed <= payload_len,
                decoded@.len() <= length,
                decoded@.len() % 128 == 0,
                (decoded@.len() == 0) == (consumed == 0),
                decoded@.len() > 0 ==> payload_len > 0 && input@[pos as int] <= 32,
                forall|t: int|
                    0 <= t < decoded@.len() ==> ((#[trigger] decoded@[t]) as nat) < 0x1_0000_0000,
                forall|bv: Seq<u64>|
                    bp_encodes(bv, length as nat, payload) ==> decoded@ == bv.take(
                        decoded@.len() as int,
                    ) && payload.skip(consumed as int) == bp_payload(
                        as_u32s(bv).skip(decoded@.len() as int),
                    ) && bp_blocks_sized(as_u32s(bv).skip(decoded@.len() as int)),
            decreases length - decoded.len(),
        {
            let produced: usize = decoded.len();
            let ghost dec = decoded@;
            if consumed >= payload_len {
                proof {
                    assert forall|bv: Seq<u64>|
                        bp_encodes(bv, length as nat, payload) implies false by {
                        assert(as_u32s(bv).skip(produced as int).len() >= 128);
                    }
                }
                return Err(NativeError::InvalidPayload);
            }
            let nb: u8 = input[pos + consumed];
            proof {
                assert(payload[consumed as int] == input@[(pos + consumed) as int]);
            }
            if nb > 32 {
                proof {
                    assert forall|bv: Seq<u64>|
                        bp_encodes(bv, length as nat, payload) implies false by {
                        let suffix = as_u32s(bv).skip(produced as int);
                        lemma_block_width_le_32(suffix.take(128));
                        assert(payload.skip(consumed as int)[0] == payload[consumed as int]);
                    }
                }
                return Err(NativeError::InvalidPayload);
            }
            let seg: usize = 16 * (nb as usize);
            if payload_len - consumed < 1 + seg {
                proof {
                    assert forall|bv: Seq<u64>|
                        bp_encodes(bv, length as nat, payload) implies false by {
                        let suffix = as_u32s(bv).skip(produced as int);
                        let block_s = suffix.take(128);
                        assert(payload.skip(consumed as int)[0] == payload[consumed as int]);
                        assert(payload.skip(consumed as int).len() >= 1 + 16 * block_width(
                            block_s,
                        ));
                    }
                }
                return Err(NativeError::InvalidPayload);
            }
            let seg_slice: &[u8] = vstd::slice::slice_subrange(
                input,
                pos + consumed + 1,
                pos + consumed + 1 + seg,
            );
            let block: Vec<u32> = bp_unpack(seg_slice, nb);
            let mut j: usize = 0;
            let ghost block_seq = block@;
            while j < 128
                invariant
                    j <= 128,
                    block@ == block_seq,
                    block_seq.len() == 128,
                    decoded@.len() == dec.len() + j,
                    decoded@ == dec + block_seq.take(j as int).map_values(|x: u32| x as u64),
                    forall|t: int|
                        0 <= t < dec.len() ==> ((#[trigger] dec[t]) as nat) < 0x1_0000_0000,
                decreases 128 - j,
            {
                decoded.push(block[j] as u64);
                proof {
                    assert(decoded@ =~= dec + block_seq.take(j + 1).map_values(
                        |x: u32| x as u64,
                    ));
                }
                j = j + 1;
            }
            proof {
                assert forall|bv: Seq<u64>|
                    bp_encodes(bv, length as nat, payload) implies decoded@ == bv.take(
                    decoded@.len() as int,
                ) && payload.skip((consumed + 1 + seg) as int) == bp_payload(
                    as_u32s(bv).skip(decoded@.len() as int),
                ) && bp_blocks_sized(as_u32s(bv).skip(decoded@.len() as int)) by {
                    assert(seg_slice@ == payload.subrange(
                        (consumed + 1) as int,
                        (consumed + 1 + seg) as int,
                    )) by {
                        assert(seg_slice@ =~= payload.subrange(
                            (consumed + 1) as int,
                            (consumed + 1 + seg) as int,
                        ));
                    }
                    assert(decoded@ == dec + block_seq.map_values(|x: u32| x as u64)) by {
                        assert(block_seq.take(128) =~= block_seq);
                    }
                    assert(produced + 128 <= length) by (nonlinear_arith)
                        requires
                            produced % 128 == 0,
                            length % 128 == 0,
                            produced < length,
                    ;
                    lemma_bp_block_step(
                        payload,
                        length as nat,
                        consumed as int,
                        produced as int,
                        dec,
                        decoded@,
                        block_seq,
                        nb,
                        seg as int,
                        bv,
                    );
                }
            }
            proof {
                if produced == 0 {
                    assert(payload[0] == input@[pos as int]);
                }
            }
            consumed = consumed + 1 + seg;
        }
        if consumed != payload_len {
            proof {
                assert forall|bv: Seq<u64>|
                    bp_encodes(bv, length as nat, payload) implies false by {
                    assert(as_u32s(bv).skip(length as int) =~= Seq::<u32>::empty());
                }
            }
            return Err(NativeError::InvalidPayload);
        }
        let ghost dec = decoded@;
        output.append(&mut decoded);
        proof {
            assert(output@.take(old(output)@.len() as int) =~= old(output)@);
            assert(output@.skip(old(output)@.len() as int) =~= dec);
            assert forall|bv: Seq<u64>|
                bp_encodes(bv, length as nat, payload) implies output@ == old(output)@ + bv by {
                assert(dec == bv.take(length as int));
                assert(bv.take(length as int) =~= bv);
                assert(output@ =~= old(output)@ + dec);
            }
            assert forall|t: int|
                old(output)@.len() <= t < output@.len() implies ((output@[t]) as nat)
                < 0x1_0000_0000 by {
                assert(output@[t] == dec[t - old(output)@.len()]);
            }
        }
        Ok(())
    }
}


/// One decoded block extends the reconstruction by 128 slots and advances
/// the payload by its segment, for every page this payload encodes.
#[verifier::spinoff_prover]
proof fn lemma_bp_block_step(
    payload: Seq<u8>,
    length: nat,
    consumed: int,
    produced: int,
    dec: Seq<u64>,
    decoded: Seq<u64>,
    block_seq: Seq<u32>,
    nb: u8,
    seg: int,
    bv: Seq<u64>,
)
    requires
        0 <= consumed,
        consumed + 1 + seg <= payload.len(),
        seg == 16 * (nb as int),
        produced == dec.len(),
        block_seq.len() == 128,
        decoded == dec + block_seq.map_values(|x: u32| x as u64),
        payload[consumed] == nb,
        forall|b: Seq<u32>|
            b.len() == 128 && block_width(b) == nb as nat && payload.subrange(
                consumed + 1,
                consumed + 1 + seg,
            ) == bp_packed_of(b) ==> block_seq == b,
        bp_encodes(bv, length, payload),
        dec == bv.take(produced),
        produced + 128 <= length,
        payload.skip(consumed) == bp_payload(as_u32s(bv).skip(produced)),
        bp_blocks_sized(as_u32s(bv).skip(produced)),
    ensures
        decoded == bv.take(produced + 128),
        payload.skip(consumed + 1 + seg) == bp_payload(as_u32s(bv).skip(produced + 128)),
        bp_blocks_sized(as_u32s(bv).skip(produced + 128)),
{
    let suffix = as_u32s(bv).skip(produced);
    let block_s = suffix.take(128);
    let tailp = bp_payload(suffix.skip(128));
    assert(payload.skip(consumed) == seq![block_width(block_s) as u8] + bp_packed_of(block_s)
        + tailp);
    assert(payload.skip(consumed)[0] == payload[consumed]);
    lemma_block_width_le_32(block_s);
    assert(nb as nat == block_width(block_s));
    assert(bp_packed_of(block_s).len() == 16 * block_width(block_s));
    assert(payload.subrange(consumed + 1, consumed + 1 + seg) =~= bp_packed_of(block_s)) by {
        assert forall|t: int| 0 <= t < seg implies payload[consumed + 1 + t] == bp_packed_of(
            block_s,
        )[t] by {
            assert(payload.skip(consumed)[1 + t] == payload[consumed + 1 + t]);
            assert((seq![block_width(block_s) as u8] + bp_packed_of(block_s) + tailp)[1 + t]
                == bp_packed_of(block_s)[t]);
        }
    }
    assert(block_seq == block_s);
    assert(decoded =~= bv.take(produced + 128)) by {
        assert forall|t: int| 0 <= t < produced + 128 implies decoded[t] == bv.take(
            produced + 128,
        )[t] by {
            if t < produced {
                assert(decoded[t] == dec[t]);
            } else {
                assert(decoded[t] == block_seq.map_values(|x: u32| x as u64)[t - produced]);
                assert(block_s[t - produced] == as_u32s(bv)[t]);
                assert((bv[t] as nat) < 0x1_0000_0000);
            }
        }
    }
    assert(suffix.skip(128) =~= as_u32s(bv).skip(produced + 128));
    assert(payload.skip(consumed + 1 + seg) =~= tailp) by {
        assert forall|t: int|
            0 <= t < payload.len() - consumed - 1 - seg implies payload.skip(
            consumed + 1 + seg,
        )[t] == tailp[t] by {
            assert(payload.skip(consumed + 1 + seg)[t] == payload[consumed + 1 + seg + t]);
            assert(payload.skip(consumed)[1 + seg + t] == payload[consumed + 1 + seg + t]);
            assert((seq![block_width(block_s) as u8] + bp_packed_of(block_s) + tailp)[1 + seg + t]
                == tailp[t]);
        }
    }
}

} // verus!
