use vstd::prelude::*;

use crate::bp::{block_width, bp_packed_of, lemma_block_width_le_32, as_u32s};
use crate::bytes::{le_bytes_of, le_value_of, lemma_le_bytes_len, lemma_le_bytes_value};
use crate::delta::lemma_wrap_round;
use crate::error::NativeError;
use crate::page::PrimitivePage;
use crate::stats::MAX_PAGE_LEN;

verus! {

/// The wrapping difference stream of a page of 32-bit lanes: slot 0 keeps
/// its value, every later slot stores its difference from its predecessor
/// modulo `2^32`.
pub open spec fn deltas32(vals: Seq<u32>) -> Seq<u32> {
    Seq::new(
        vals.len(),
        |i: int|
            if i == 0 {
                vals[0]
            } else {
                (((((vals[i] as nat) + 0x1_0000_0000 - (vals[i - 1] as nat)) as int) % (
                0x1_0000_0000int)) as u32)
            },
    )
}

/// The smallest value of a block (zero for an empty one).
pub open spec fn min_u32(s: Seq<u32>) -> u32
    decreases s.len(),
{
    if s.len() == 0 {
        0
    } else if s.len() == 1 {
        s[0]
    } else {
        let m = min_u32(s.drop_last());
        if s.last() < m {
            s.last()
        } else {
            m
        }
    }
}

pub proof fn lemma_min_u32_le(s: Seq<u32>)
    ensures
        forall|i: int| 0 <= i < s.len() ==> min_u32(s) <= #[trigger] s[i],
    decreases s.len(),
{
    if s.len() > 1 {
        lemma_min_u32_le(s.drop_last());
        assert forall|i: int| 0 <= i < s.len() implies min_u32(s) <= #[trigger] s[i] by {
            if i < s.len() - 1 {
                assert(s.drop_last()[i] == s[i]);
            }
        }
    }
}

/// A block of differences with its smallest one subtracted out.
pub open spec fn adj_block(block: Seq<u32>) -> Seq<u32> {
    Seq::new(block.len(), |i: int| ((block[i] - min_u32(block)) as u32))
}

/// The values one block expands to: each lane gets the block minimum added
/// back, then a running prefix sum modulo `2^32` integrates the stream.
pub open spec fn expand_block(adj: Seq<u32>, mn: u32, prev: u32) -> Seq<u32>
    decreases adj.len(),
{
    if adj.len() == 0 {
        Seq::empty()
    } else {
        let front = expand_block(adj.drop_last(), mn, prev);
        let p: nat = if front.len() == 0 {
            prev as nat
        } else {
            front.last() as nat
        };
        front.push(
            (((p + ((adj.last() as nat + mn as nat) % 0x1_0000_0000)) % 0x1_0000_0000) as u32),
        )
    }
}

pub proof fn lemma_expand_block_len(adj: Seq<u32>, mn: u32, prev: u32)
    ensures
        expand_block(adj, mn, prev).len() == adj.len(),
    decreases adj.len(),
{
    if adj.len() > 0 {
        lemma_expand_block_len(adj.drop_last(), mn, prev);
    }
}

/// Element `i` of an expanded block obeys the prefix-sum recurrence.
pub proof fn lemma_expand_block_elem(adj: Seq<u32>, mn: u32, prev: u32, i: int)
    requires
        0 <= i < adj.len(),
    ensures
        expand_block(adj, mn, prev).len() == adj.len(),
        (expand_block(adj, mn, prev)[i] as nat) == ((if i == 0 {
            prev as nat
        } else {
            expand_block(adj, mn, prev)[i - 1] as nat
        }) + ((adj[i] as nat + mn as nat) % 0x1_0000_0000)) % 0x1_0000_0000,
    decreases adj.len(),
{
    lemma_expand_block_len(adj, mn, prev);
    lemma_expand_block_len(adj.drop_last(), mn, prev);
    if i == adj.len() - 1 {
        if i > 0 {
            assert(expand_block(adj, mn, prev)[i - 1] == expand_block(
                adj.drop_last(),
                mn,
                prev,
            ).last());
        }
    } else {
        lemma_expand_block_elem(adj.drop_last(), mn, prev, i);
        assert(adj.drop_last()[i] == adj[i]);
        if i > 0 {
            assert(expand_block(adj, mn, prev)[i - 1] == expand_block(adj.drop_last(), mn, prev)[i
                - 1]);
        }
        assert(expand_block(adj, mn, prev)[i] == expand_block(adj.drop_last(), mn, prev)[i]);
    }
}

/// The delta-bit-packed payload: for each 128-lane block of differences,
/// the block minimum, one width byte, and the packed adjusted lanes.
pub open spec fn dbp_payload(ds: Seq<u32>) -> Seq<u8>
    decreases ds.len(),
{
    if ds.len() < 128 {
        Seq::empty()
    } else {
        let block = ds.take(128);
        let adj = adj_block(block);
        le_bytes_of(min_u32(block) as nat, 4) + seq![block_width(adj) as u8] + bp_packed_of(adj)
            + dbp_payload(ds.skip(128))
    }
}

/// Every block's packed bytes take exactly sixteen bytes per bit of width.
pub open spec fn dbp_blocks_sized(ds: Seq<u32>) -> bool
    decreases ds.len(),
{
    if ds.len() < 128 {
        true
    } else {
        bp_packed_of(adj_block(ds.take(128))).len() == 16 * block_width(adj_block(ds.take(128)))
            && dbp_blocks_sized(ds.skip(128))
    }
}

/// A payload of the delta-bit-packing codec for a page.
#[verifier::opaque]
pub open spec fn dbp_encodes(vals: Seq<u64>, length: nat, payload: Seq<u8>) -> bool {
    &&& vals.len() == length
    &&& length % 128 == 0
    &&& forall|i: int| 0 <= i < vals.len() ==> (vals[i] as nat) < 0x1_0000_0000
    &&& payload == dbp_payload(deltas32(as_u32s(vals)))
    &&& dbp_blocks_sized(deltas32(as_u32s(vals)))
}

/// The decoder's position in a valid payload: everything before `consumed`
/// encodes the first `produced` slots, and `prev` is the last lane
/// reconstructed so far.
#[verifier::opaque]
pub open spec fn dbp_cursor(
    bv: Seq<u64>,
    payload: Seq<u8>,
    produced: nat,
    consumed: nat,
    prev: u32,
) -> bool {
    &&& payload.skip(consumed as int) == dbp_payload(deltas32(as_u32s(bv)).skip(produced as int))
    &&& dbp_blocks_sized(deltas32(as_u32s(bv)).skip(produced as int))
    &&& produced > 0 ==> prev as nat == bv[produced - 1] as nat
    &&& produced == 0 ==> prev == 0
}

/// The delta-bit-packing codec: wrapping first differences, then fixed
/// 128-lane blocks packed after subtracting each block's minimum.
pub struct DeltaBitpacking {}

impl DeltaBitpacking {
    /// Appends the delta-bit-packed payload of `array` to `output`; returns
    /// the number of bytes written.
    #[verifier::rlimit(100)]
    #[verifier::spinoff_prover]
    pub fn compress(&self, array: &PrimitivePage, output: &mut Vec<u8>) -> (r: usize)
        requires
            array.wf(),
            array.spec_len() <= MAX_PAGE_LEN,
            array.spec_len() % 128 == 0,
            crate::page::kind_width(array.kind) == 4,
        ensures
            final(output)@ == old(output)@ + dbp_payload(deltas32(as_u32s(array.values@))),
            dbp_encodes(
                array.values@,
                array.spec_len(),
                final(output)@.skip(old(output)@.len() as int),
            ),
            final(output)@.len() == old(output)@.len() + r,
            r <= array.spec_len() * 5 + 5,
    {
        let len: usize = array.values.len();
        let out0: usize = output.len();
        let ghost vals = array.values@;
        let ghost v32 = as_u32s(vals);
        let ghost ds = deltas32(v32);
        let ghost orig = output@;
        proof {
            crate::bytes::lemma_pow256_values();
            assert(ds.skip(0) =~= ds);
            assert(output@.skip(orig.len() as int) =~= Seq::<u8>::empty());
            assert(output@.take(orig.len() as int) =~= orig);
        }
        let mut prev: u32 = 0;
        let mut done: usize = 0;
        while done < len
            invariant
                array.wf(),
                vals == array.values@,
                v32 == as_u32s(vals),
                ds == deltas32(v32),
                crate::page::kind_width(array.kind) == 4,
                len == vals.len() <= MAX_PAGE_LEN,
                len % 128 == 0,
                done <= len,
                done % 128 == 0,
                done > 0 ==> prev == v32[done - 1],
                done == 0 ==> prev == 0,
                output@.take(orig.len() as int) == orig,
                output@.len() >= orig.len() == out0,
                dbp_payload(ds) == output@.skip(orig.len() as int) + dbp_payload(
                    ds.skip(done as int),
                ),
                dbp_blocks_sized(ds) == dbp_blocks_sized(ds.skip(done as int)),
                output@.len() - orig.len() <= done * 5 + if done > 0 {
                    5int
                } else {
                    0int
                },
            decreases len - done,
        {
            proof {
                assert(len - done >= 128) by (nonlinear_arith)
                    requires
                        done < len,
                        done % 128 == 0,
                        len % 128 == 0,
                ;
                crate::bytes::lemma_pow256_values();
            }
            // the 128 wrapping differences of this block
            let mut dblock: Vec<u32> = Vec::new();
            let mut j: usize = 0;
            while j < 128
                invariant
                    j <= 128,
                    done + 128 <= len == vals.len(),
                    vals == array.values@,
                    v32 == as_u32s(vals),
                    ds == deltas32(v32),
                    array.wf(),
                    crate::page::kind_width(array.kind) == 4,
                    dblock@.len() == j,
                    j > 0 || done > 0 ==> prev == v32[done + j - 1],
                    done == 0 && j == 0 ==> prev == 0,
                    forall|t: int| 0 <= t < j ==> #[trigger] dblock@[t] == ds[done + t],
                decreases 128 - j,
            {
                proof {
                    crate::bytes::lemma_pow256_values();
                }
                let v: u64 = array.values[done + j];
                let v32e: u32 = v as u32;
                let d: u32 = if done + j == 0 {
                    v32e
                } else {
                    ((((v32e as u64) + 0x1_0000_0000u64 - (prev as u64)) % 0x1_0000_0000u64) as u32)
                };
                proof {
                    assert(v32[done + j] == v32e);
                    if done + j > 0 {
                        vstd::arithmetic::div_mod::lemma_mod_bound(
                            ((v32e as nat) + 0x1_0000_0000 - (prev as nat)) as int,
                            0x1_0000_0000int,
                        );
                        assert(d == ds[done + j]);
                    } else {
                        assert(d == ds[0]);
                    }
                }
                dblock.push(d);
                prev = v32e;
                j = j + 1;
            }
            proof {
                assert(dblock@ =~= ds.skip(done as int).take(128));
            }
            // the block minimum
            let mut mn: u32 = dblock[0];
            let mut k: usize = 1;
            proof {
                assert(dblock@.take(1) =~= seq![dblock@[0]]);
            }
            while k < 128
                invariant
                    1 <= k <= 128,
                    dblock@.len() == 128,
                    mn == min_u32(dblock@.take(k as int)),
                decreases 128 - k,
            {
                let d: u32 = dblock[k];
                proof {
                    assert(dblock@.take(k + 1).drop_last() =~= dblock@.take(k as int));
                    assert(dblock@.take(k + 1).last() == d);
                }
                if d < mn {
                    mn = d;
                }
                k = k + 1;
            }
            proof {
                assert(dblock@.take(128) =~= dblock@);
            }
            // the adjusted lanes
            let mut adj: Vec<u32> = Vec::new();
            let mut k2: usize = 0;
            proof {
                lemma_min_u32_le(dblock@);
            }
            while k2 < 128
                invariant
                    k2 <= 128,
                    dblock@.len() == 128,
                    mn == min_u32(dblock@),
                    forall|i: int| 0 <= i < 128 ==> mn <= #[trigger] dblock@[i],
                    adj@.len() == k2,
                    forall|t: int| 0 <= t < k2 ==> #[trigger] adj@[t] == adj_block(dblock@)[t],
                decreases 128 - k2,
            {
                let d: u32 = dblock[k2];
                adj.push(d - mn);
                k2 = k2 + 1;
            }
            proof {
                assert(adj@ =~= adj_block(dblock@));
            }
            let nb: u8 = crate::bp::bp_num_bits(adj.as_slice());
            let ghost emitted = output@.skip(orig.len() as int);
            crate::bytes::push_le(output, mn as u64, 4);
            output.push(nb);
            let mut packed: Vec<u8> = crate::bp::bp_pack(adj.as_slice(), nb);
            let ghost packed_seq = packed@;
            output.append(&mut packed);
            proof {
                let suffix = ds.skip(done as int);
                let block_s = suffix.take(128);
                let adj_s = adj_block(block_s);
                assert(suffix.skip(128) =~= ds.skip(done + 128));
                lemma_le_bytes_len(mn as nat, 4);
                assert(output@.skip(orig.len() as int) =~= emitted + (le_bytes_of(mn as nat, 4)
                    + seq![nb] + packed_seq));
                assert(output@.take(orig.len() as int) =~= orig);
                assert(dbp_payload(suffix) == le_bytes_of(min_u32(block_s) as nat, 4) + seq![
                    block_width(adj_s) as u8] + bp_packed_of(adj_s) + dbp_payload(suffix.skip(128)));
                assert(le_bytes_of(mn as nat, 4) + seq![nb] + packed_seq =~= le_bytes_of(
                    min_u32(block_s) as nat,
                    4,
                ) + seq![block_width(adj_s) as u8] + bp_packed_of(adj_s));
                assert(emitted + ((le_bytes_of(mn as nat, 4) + seq![nb] + packed_seq)
                    + dbp_payload(ds.skip(done + 128))) =~= (emitted + (le_bytes_of(mn as nat, 4)
                    + seq![nb] + packed_seq)) + dbp_payload(ds.skip(done + 128)));
                assert(output@.len() - orig.len() <= (done + 128) * 5 + 5) by (nonlinear_arith)
                    requires
                        output@.len() - orig.len() <= done * 5 + 5 + 5 + 16 * 32,
                ;
            }
            done = done + 128;
        }
        proof {
            assert(ds.skip(len as int) =~= Seq::<u32>::empty());
            assert(dbp_payload(ds) =~= output@.skip(orig.len() as int));
            assert(len * 5 + 5 >= output@.len() - orig.len()) by (nonlinear_arith)
                requires
                    output@.len() - orig.len() <= len * 5 + 5,
            ;
            assert forall|i: int| 0 <= i < vals.len() implies (#[trigger] vals[i] as nat)
                < 0x1_0000_0000 by {
                crate::bytes::lemma_pow256_values();
            }
            reveal(dbp_encodes);
        }
        output.len() - out0
    }

    /// Decodes a delta-bit-packed payload of `payload_len` bytes at
    /// `input[pos..]` into `length` slots appended to `output`. Any page
    /// whose payload this is comes back exactly.
    #[verifier::rlimit(100)]
    #[verifier::spinoff_prover]
    pub fn decompress(
        &self,
        input: &[u8],
        pos: usize,
        payload_len: usize,
        length: usize,
        output: &mut Vec<u64>,
    ) -> (r: Result<(), NativeError>)
        requires
            pos + payload_len <= input@.len(),
            length <= MAX_PAGE_LEN,
        ensures
            forall|bv: Seq<u64>|
                dbp_encodes(
                    bv,
                    length as nat,
                    input@.subrange(pos as int, (pos + payload_len) as int),
                ) ==> r == Ok::<(), NativeError>(()) && final(output)@ == old(output)@ + bv,
            length % 128 != 0 ==> r == Err::<(), NativeError>(NativeError::InvalidPayload),
            length > 0 && payload_len < 5 ==> r == Err::<(), NativeError>(
                NativeError::InvalidPayload,
            ),
            length > 0 && payload_len >= 5 && input@[(pos + 4) as int] > 32 ==> r == Err::<
                (),
                NativeError,
            >(NativeError::InvalidPayload),
            match r {
                Ok(()) => {
                    &&& final(output)@.len() == old(output)@.len() + length
                    &&& final(output)@.take(old(output)@.len() as int) == old(output)@
                    &&& forall|i: int|
                        old(output)@.len() <= i < final(output)@.len() ==> ((final(
                            output)@[i]) as nat) < 0x1_0000_0000
                },
                Err(e) => {
                    &&& final(output)@ == old(output)@
                    &&& e == NativeError::InvalidPayload
                },
            },
    {
        let n: usize = input.len();
        let ghost payload = input@.subrange(pos as int, (pos + payload_len) as int);
        if length % 128 != 0 {
            proof {
                reveal(dbp_encodes);
            }
            return Err(NativeError::InvalidPayload);
        }
        let mut decoded: Vec<u64> = Vec::new();
        let mut consumed: usize = 0;
        let mut prev: u32 = 0;
        proof {
            assert forall|bv: Seq<u64>|
                dbp_encodes(bv, length as nat, payload) implies decoded@ == bv.take(
                decoded@.len() as int,
            ) && dbp_cursor(bv, payload, decoded@.len(), consumed as nat, prev) by {
                reveal(dbp_cursor);
                reveal(dbp_encodes);
                assert(bv.take(0) =~= Seq::<u64>::empty());
                assert(deltas32(as_u32s(bv)).skip(0) =~= deltas32(as_u32s(bv)));
                assert(payload.skip(0) =~= payload);
            }
        }
        while decoded.len() < length
            invariant
                pos + payload_len <= n == input@.len(),
                length <= MAX_PAGE_LEN,
                length % 128 == 0,
                payload == input@.subrange(pos as int, (pos + payload_len) as int),
                payload.len() == payload_len,
                consumed <= payload_len,
                decoded@.len() <= length,
                decoded@.len() % 128 == 0,
                (decoded@.len() == 0) == (consumed == 0),
                decoded@.len() > 0 ==> payload_len >= 5 && input@[(pos + 4) as int] <= 32,
                forall|t: int|
                    0 <= t < decoded@.len() ==> ((#[trigger] decoded@[t]) as nat) < 0x1_0000_0000,
                forall|bv: Seq<u64>|
                    dbp_encodes(bv, length as nat, payload) ==> decoded@ == bv.take(
                        decoded@.len() as int,
                    ) && dbp_cursor(bv, payload, decoded@.len(), consumed as nat, prev),
            decreases length - decoded.len(),
        {
            match dbp_read_block(
                input,
                pos,
                payload_len,
                consumed,
                length,
                prev,
                &mut decoded,
                Ghost(payload),
            ) {
                Ok(step) => {
                    consumed = step.0;
                    prev = step.1;
                },
                Err(e) => {
                    return Err(e);
                },
            }
        }
        if consumed != payload_len {
            proof {
                assert forall|bv: Seq<u64>|
                    dbp_encodes(bv, length as nat, payload) implies false by {
                    reveal(dbp_cursor);
                    reveal(dbp_encodes);
                    assert(deltas32(as_u32s(bv)).skip(length as int) =~= Seq::<u32>::empty());
                }
            }
            return Err(NativeError::InvalidPayload);
        }
        let ghost dec = decoded@;
        output.append(&mut decoded);
        proof {
            assert(output@.take(old(output)@.len() as int) =~= old(output)@);
            assert(output@.skip(old(output)@.len() as int) =~= dec);
            assert forall|bv: Seq<u64>|
                dbp_encodes(bv, length as nat, payload) implies output@ == old(output)@ + bv by {
                reveal(dbp_encodes);
                assert(dec == bv.take(length as int));
                assert(bv.take(length as int) =~= bv);
                assert(output@ =~= old(output)@ + dec);
            }
            assert forall|t: int|
                old(output)@.len() <= t < output@.len() implies ((output@[t]) as nat)
                < 0x1_0000_0000 by {
                assert(output@[t] == dec[t - old(output)@.len()]);
            }
        }
        Ok(())
    }
}


/// Reads and checks the minimum and width fields of one block header.
#[verifier::rlimit(100)]
#[verifier::spinoff_prover]
fn dbp_read_header(
    input: &[u8],
    pos: usize,
    payload_len: usize,
    consumed: usize,
    length: usize,
    prev: u32,
    Ghost(payload): Ghost<Seq<u8>>,
    Ghost(produced): Ghost<nat>,
) -> (r: Result<(u32, u8), NativeError>)
    requires
        pos + payload_len <= input@.len(),
        payload == input@.subrange(pos as int, (pos + payload_len) as int),
        consumed <= payload_len,
        produced + 128 <= length,
        length % 128 == 0,
        produced % 128 == 0,
        length <= MAX_PAGE_LEN,
    ensures
        match r {
            Ok(h) => {
                &&& consumed + 5 + 16 * (h.1 as int) <= payload_len
                &&& h.1 <= 32
                &&& (h.0 as nat) == le_value_of(
                    payload.subrange(consumed as int, (consumed + 4) as int),
                )
                &&& payload[(consumed + 4) as int] == h.1
            },
            Err(e) => {
                &&& e == NativeError::InvalidPayload
                &&& forall|bv: Seq<u64>|
                    dbp_encodes(bv, length as nat, payload) && dbp_cursor(
                        bv,
                        payload,
                        produced,
                        consumed as nat,
                        prev,
                    ) ==> false
            },
        },
{
    let n: usize = input.len();
    if payload_len - consumed < 5 {
        proof {
            assert forall|bv: Seq<u64>|
                dbp_encodes(bv, length as nat, payload) && dbp_cursor(
                    bv,
                    payload,
                    produced,
                    consumed as nat,
                    prev,
                ) implies false by {
                lemma_dbp_suffix_shape(
                    payload,
                    length as nat,
                    consumed as int,
                    produced as int,
                    bv,
                    prev,
                );
            }
        }
        return Err(NativeError::InvalidPayload);
    }
    let mn64: u64 = crate::bytes::read_le(input, pos + consumed, 4);
    let mn: u32 = mn64 as u32;
    let nb: u8 = input[pos + consumed + 4];
    proof {
        crate::bytes::lemma_pow256_values();
        assert(payload[(consumed + 4) as int] == input@[(pos + consumed + 4) as int]);
        assert(payload.subrange(consumed as int, (consumed + 4) as int) =~= input@.subrange(
            (pos + consumed) as int,
            (pos + consumed + 4) as int,
        ));
    }
    if nb > 32 {
        proof {
            assert forall|bv: Seq<u64>|
                dbp_encodes(bv, length as nat, payload) && dbp_cursor(
                    bv,
                    payload,
                    produced,
                    consumed as nat,
                    prev,
                ) implies false by {
                lemma_dbp_suffix_shape(
                    payload,
                    length as nat,
                    consumed as int,
                    produced as int,
                    bv,
                    prev,
                );
            }
        }
        return Err(NativeError::InvalidPayload);
    }
    let seg: usize = 16 * (nb as usize);
    if payload_len - consumed < 5 + seg {
        proof {
            assert forall|bv: Seq<u64>|
                dbp_encodes(bv, length as nat, payload) && dbp_cursor(
                    bv,
                    payload,
                    produced,
                    consumed as nat,
                    prev,
                ) implies false by {
                lemma_dbp_suffix_shape(
                    payload,
                    length as nat,
                    consumed as int,
                    produced as int,
                    bv,
                    prev,
                );
            }
        }
        return Err(NativeError::InvalidPayload);
    }
    Ok((mn, nb))
}


/// Expands one unpacked block: adds the minimum back to each lane and
/// integrates the running prefix sum, appending 128 slots.
#[verifier::rlimit(100)]
#[verifier::spinoff_prover]
fn dbp_expand_block(adj: &Vec<u32>, mn: u32, prev: u32, decoded: &mut Vec<u64>) -> (r: u32)
    requires
        adj@.len() == 128,
        forall|t: int|
            0 <= t < old(decoded)@.len() ==> ((#[trigger] old(decoded)@[t]) as nat) < 0x1_0000_0000,
        old(decoded)@.len() + 128 <= usize::MAX,
    ensures
        final(decoded)@.len() == old(decoded)@.len() + 128,
        final(decoded)@.take(old(decoded)@.len() as int) == old(decoded)@,
        forall|t: int|
            0 <= t < final(decoded)@.len() ==> ((#[trigger] final(decoded)@[t]) as nat)
                < 0x1_0000_0000,
        final(decoded)@.skip(old(decoded)@.len() as int) == expand_block(
            adj@,
            mn,
            prev,
        ).map_values(|x: u32| x as u64),
        r == final(decoded)@[final(decoded)@.len() - 1],
{
    let produced: usize = decoded.len();
    let ghost dec = decoded@;
    let ghost adj_seq = adj@;
    let prev_entry: u32 = prev;
    let mut prev_cur: u32 = prev;
    let mut j: usize = 0;
    proof {
        lemma_expand_block_len(adj_seq, mn, prev_entry);
        assert(adj_seq.take(0) =~= Seq::<u32>::empty());
        assert(decoded@.skip(produced as int) =~= expand_block(
            adj_seq.take(0),
            mn,
            prev_entry,
        ).map_values(|x: u32| x as u64));
    }
    while j < 128
        invariant
            j <= 128,
            adj@ == adj_seq,
            adj_seq.len() == 128,
            decoded@.len() == dec.len() + j,
            dec.len() == produced,
            produced + 128 <= usize::MAX,
            forall|t: int|
                0 <= t < decoded@.len() ==> ((#[trigger] decoded@[t]) as nat) < 0x1_0000_0000,
            decoded@.take(produced as int) == dec,
            decoded@.skip(produced as int) == expand_block(
                adj_seq.take(j as int),
                mn,
                prev_entry,
            ).map_values(|x: u32| x as u64),
            j > 0 ==> prev_cur as nat == expand_block(
                adj_seq.take(j as int),
                mn,
                prev_entry,
            ).last() as nat,
            j == 0 ==> prev_cur == prev_entry,
        decreases 128 - j,
    {
        let a: u32 = adj[j];
        let d: u32 = ((((a as u64) + (mn as u64)) % 0x1_0000_0000u64) as u32);
        let v: u32 = ((((prev_cur as u64) + (d as u64)) % 0x1_0000_0000u64) as u32);
        proof {
            vstd::arithmetic::div_mod::lemma_mod_bound(
                ((a as nat) + (mn as nat)) as int,
                0x1_0000_0000int,
            );
            vstd::arithmetic::div_mod::lemma_mod_bound(
                ((prev_cur as nat) + (d as nat)) as int,
                0x1_0000_0000int,
            );
            lemma_expand_block_len(adj_seq.take(j as int), mn, prev_entry);
            lemma_expand_block_len(adj_seq.take(j + 1), mn, prev_entry);
            assert(adj_seq.take(j + 1).drop_last() =~= adj_seq.take(j as int));
            assert(adj_seq.take(j + 1).last() == adj_seq[j as int]);
        }
        decoded.push(v as u64);
        proof {
            assert(decoded@.take(produced as int) =~= dec);
            let front = expand_block(adj_seq.take(j as int), mn, prev_entry);
            assert(expand_block(adj_seq.take(j + 1), mn, prev_entry) == front.push(v)) by {
                let p: nat = if front.len() == 0 {
                    prev_entry as nat
                } else {
                    front.last() as nat
                };
                assert(p == prev_cur as nat);
                assert((d as nat) == (a as nat + mn as nat) % 0x1_0000_0000);
                assert((v as nat) == (p + ((adj_seq.take(j + 1).last() as nat + mn as nat)
                    % 0x1_0000_0000)) % 0x1_0000_0000);
            }
            assert(front.push(v).map_values(|x: u32| x as u64) =~= front.map_values(
                |x: u32| x as u64,
            ).push(v as u64));
            assert(decoded@.skip(produced as int) =~= expand_block(
                adj_seq.take(j + 1),
                mn,
                prev_entry,
            ).map_values(|x: u32| x as u64));
        }
        prev_cur = v;
        j = j + 1;
    }
    proof {
        assert(adj_seq.take(128) =~= adj_seq);
        lemma_expand_block_len(adj_seq, mn, prev_entry);
        assert(decoded@[decoded@.len() - 1] == decoded@.skip(produced as int)[127]);
    }
    prev_cur
}

/// Reads one block of a delta-bit-packed payload: the block minimum, the
/// width byte and the packed lanes, appending the 128 reconstructed slots.
/// Returns the new consumed count and the last reconstructed lane.
#[verifier::rlimit(100)]
#[verifier::spinoff_prover]
fn dbp_read_block(
    input: &[u8],
    pos: usize,
    payload_len: usize,
    consumed: usize,
    length: usize,
    prev: u32,
    decoded: &mut Vec<u64>,
    Ghost(payload): Ghost<Seq<u8>>,
) -> (r: Result<(usize, u32), NativeError>)
    requires
        pos + payload_len <= input@.len(),
        payload == input@.subrange(pos as int, (pos + payload_len) as int),
        consumed <= payload_len,
        old(decoded)@.len() + 128 <= length,
        length % 128 == 0,
        old(decoded)@.len() % 128 == 0,
        length <= MAX_PAGE_LEN,
        forall|t: int|
            0 <= t < old(decoded)@.len() ==> ((#[trigger] old(decoded)@[t]) as nat) < 0x1_0000_0000,
    ensures
        match r {
            Ok(step) => {
                &&& consumed <= step.0 <= payload_len
                &&& step.0 >= consumed + 5
                &&& payload.len() >= consumed + 5
                &&& payload[(consumed + 4) as int] <= 32
                &&& final(decoded)@.len() == old(decoded)@.len() + 128
                &&& final(decoded)@.take(old(decoded)@.len() as int) == old(decoded)@
                &&& forall|t: int|
                    0 <= t < final(decoded)@.len() ==> ((#[trigger] final(decoded)@[t]) as nat)
                        < 0x1_0000_0000
                &&& forall|bv: Seq<u64>|
                    dbp_encodes(bv, length as nat, payload) && old(decoded)@ == bv.take(
                        old(decoded)@.len() as int,
                    ) && dbp_cursor(bv, payload, old(decoded)@.len(), consumed as nat, prev)
                        ==> final(decoded)@ == bv.take(final(decoded)@.len() as int)
                        && dbp_cursor(bv, payload, final(decoded)@.len(), step.0 as nat, step.1)
            },
            Err(e) => {
                &&& final(decoded)@ == old(decoded)@
                &&& e == NativeError::InvalidPayload
                &&& forall|bv: Seq<u64>|
                    dbp_encodes(bv, length as nat, payload) && old(decoded)@ == bv.take(
                        old(decoded)@.len() as int,
                    ) && dbp_cursor(bv, payload, old(decoded)@.len(), consumed as nat, prev)
                        ==> false
            },
        },
{
    let n: usize = input.len();
    let produced: usize = decoded.len();
    let ghost dec = decoded@;
    let header = match dbp_read_header(
        input,
        pos,
        payload_len,
        consumed,
        length,
        prev,
        Ghost(payload),
        Ghost(produced as nat),
    ) {
        Ok(h) => h,
        Err(e) => {
            return Err(e);
        },
    };
    let mn: u32 = header.0;
    let nb: u8 = header.1;
    let seg: usize = 16 * (nb as usize);
    let seg_slice: &[u8] = vstd::slice::slice_subrange(
        input,
        pos + consumed + 5,
        pos + consumed + 5 + seg,
    );
    let adj: Vec<u32> = crate::bp::bp_unpack(seg_slice, nb);
    let ghost adj_seq = adj@;
    let prev_entry: u32 = prev;
    let prev_cur: u32 = dbp_expand_block(&adj, mn, prev, decoded);
    proof {
        assert(decoded@.take(produced as int) == dec);
        assert(decoded@.skip(produced as int) == expand_block(adj_seq, mn, prev).map_values(
            |x: u32| x as u64,
        ));
        assert(prev_cur == decoded@[decoded@.len() - 1]);
    }
    proof {
        assert forall|bv: Seq<u64>|
            dbp_encodes(bv, length as nat, payload) && dec == bv.take(produced as int)
                && dbp_cursor(bv, payload, produced as nat, consumed as nat, prev) implies decoded@
            == bv.take(decoded@.len() as int) && dbp_cursor(
            bv,
            payload,
            decoded@.len(),
            (consumed + 5 + seg) as nat,
            prev_cur,
        ) by {
            assert(seg_slice@ == payload.subrange(
                (consumed + 5) as int,
                (consumed + 5 + seg) as int,
            )) by {
                assert(seg_slice@ =~= payload.subrange(
                    (consumed + 5) as int,
                    (consumed + 5 + seg) as int,
                ));
            }
            lemma_dbp_block_step(
                payload,
                length as nat,
                consumed as int,
                produced as int,
                dec,
                decoded@,
                adj_seq,
                mn,
                nb,
                seg as int,
                prev_entry,
                prev_cur,
                bv,
            );
        }
    }
    Ok((consumed + 5 + seg, prev_cur))
}

/// The slots of the block starting at `base` decode to the original
/// values: adding the adjusted lane, the block minimum and the previous
/// value back modulo `2^32` undoes the difference chain.
#[verifier::rlimit(100)]
#[verifier::spinoff_prover]
proof fn lemma_dbp_prefix(
    bv: Seq<u64>,
    decoded: Seq<u64>,
    adj_seq: Seq<u32>,
    mn: u32,
    prev_entry: u32,
    base: int,
    t: int,
)
    requires
        base <= t < base + 128,
        0 <= base,
        base + 128 <= bv.len(),
        decoded.len() == base + 128,
        forall|i: int| 0 <= i < bv.len() ==> ((#[trigger] bv[i]) as nat) < 0x1_0000_0000,
        decoded.take(base) == bv.take(base),
        base > 0 ==> prev_entry as nat == bv[base - 1] as nat,
        base == 0 ==> prev_entry == 0,
        adj_seq == adj_block(deltas32(as_u32s(bv)).skip(base).take(128)),
        mn == min_u32(deltas32(as_u32s(bv)).skip(base).take(128)),
        decoded.skip(base) == expand_block(adj_seq, mn, prev_entry).map_values(|x: u32| x as u64),
    ensures
        forall|i: int| base <= i <= t ==> #[trigger] decoded[i] == bv[i],
    decreases t - base,
{
    let m: nat = 0x1_0000_0000;
    let dsv = deltas32(as_u32s(bv));
    let block_s = dsv.skip(base).take(128);
    if t > base {
        lemma_dbp_prefix(bv, decoded, adj_seq, mn, prev_entry, base, t - 1);
    }
    lemma_expand_block_elem(adj_seq, mn, prev_entry, t - base);
    assert((decoded[t] as nat) == ((if t == base {
        prev_entry as nat
    } else {
        decoded[t - 1] as nat
    }) + ((adj_seq[t - base] as nat + mn as nat) % m)) % m) by {
        assert(decoded.skip(base)[t - base] == decoded[t]);
        if t > base {
            assert(decoded.skip(base)[t - base - 1] == decoded[t - 1]);
        }
    }
    lemma_min_u32_le(block_s);
    let d_t: u32 = block_s[t - base];
    assert(adj_seq[t - base] == ((d_t - mn) as u32));
    assert((adj_seq[t - base] as nat + mn as nat) % m == d_t as nat) by {
        lemma_small_mod_u32(((d_t - mn) as nat + mn as nat) as nat);
    }
    assert(d_t == dsv[t]);
    let prev_val: nat = if t == base {
        prev_entry as nat
    } else {
        decoded[t - 1] as nat
    };
    if t == 0 {
        assert(dsv[0] == as_u32s(bv)[0]);
        assert(prev_val == 0);
        lemma_small_mod_u32(bv[0] as nat);
        assert((decoded[t] as nat) == (0 + (d_t as nat)) % m);
    } else {
        assert(prev_val == bv[t - 1] as nat);
        assert((dsv[t] as nat) == ((((as_u32s(bv)[t] as nat) + m - (as_u32s(bv)[t
            - 1] as nat)) as int) % (m as int)) as nat);
        lemma_wrap_round(bv[t] as nat, bv[t - 1] as nat, m);
        assert((decoded[t] as nat) == ((prev_val + (d_t as nat)) % m));
    }
    assert(decoded[t] == bv[t]);
}

/// What the payload must look like at a block boundary of a page it
/// encodes: there is room for the block minimum, the width byte and the
/// packed lanes, and each of the three reads back the block's own data.
#[verifier::rlimit(100)]
#[verifier::spinoff_prover]
proof fn lemma_dbp_suffix_shape(
    payload: Seq<u8>,
    length: nat,
    consumed: int,
    produced: int,
    bv: Seq<u64>,
    prev: u32,
)
    requires
        dbp_encodes(bv, length, payload),
        0 <= consumed <= payload.len(),
        0 <= produced,
        produced % 128 == 0,
        produced < length,
        dbp_cursor(bv, payload, produced as nat, consumed as nat, prev),
    ensures
        ({
            let block_s = deltas32(as_u32s(bv)).skip(produced).take(128);
            let adj_s = adj_block(block_s);
            &&& block_width(adj_s) <= 32
            &&& bp_packed_of(adj_s).len() == 16 * block_width(adj_s)
            &&& payload.len() - consumed >= 5 + 16 * block_width(adj_s)
            &&& payload[consumed + 4] == block_width(adj_s) as u8
            &&& le_value_of(payload.subrange(consumed, consumed + 4)) == min_u32(block_s) as nat
            &&& payload.subrange(consumed + 5, consumed + 5 + 16 * block_width(adj_s) as int)
                == bp_packed_of(adj_s)
            &&& payload.skip(consumed + 5 + 16 * block_width(adj_s) as int) == dbp_payload(
                deltas32(as_u32s(bv)).skip(produced + 128),
            )
            &&& dbp_blocks_sized(deltas32(as_u32s(bv)).skip(produced + 128))
        }),
{
    reveal(dbp_cursor);
    reveal(dbp_encodes);
    lemma_produced_block(produced, length as int);
    let dsv = deltas32(as_u32s(bv));
    let suffix = dsv.skip(produced);
    let block_s = suffix.take(128);
    let adj_s = adj_block(block_s);
    let tailp = dbp_payload(suffix.skip(128));
    let seg = 16 * block_width(adj_s) as int;
    lemma_le_bytes_len(min_u32(block_s) as nat, 4);
    lemma_block_width_le_32(adj_s);
    assert(bv.len() == length);
    assert(suffix.len() >= 128);
    assert(payload.skip(consumed as int) == dbp_payload(suffix));
    assert(dbp_payload(suffix) == le_bytes_of(min_u32(block_s) as nat, 4) + seq![block_width(
        adj_s,
    ) as u8] + bp_packed_of(adj_s) + tailp);
    assert(payload.skip(consumed).len() == payload.len() - consumed);
    assert(payload.len() - consumed >= 5 + bp_packed_of(adj_s).len());
    assert(payload.skip(consumed)[4] == payload[consumed + 4]);
    assert(payload.subrange(consumed, consumed + 4) =~= le_bytes_of(min_u32(block_s) as nat, 4))
        by {
        assert forall|t: int| 0 <= t < 4 implies payload[consumed + t] == le_bytes_of(
            min_u32(block_s) as nat,
            4,
        )[t] by {
            assert(payload.skip(consumed)[t] == payload[consumed + t]);
        }
    }
    crate::bytes::lemma_pow256_values();
    lemma_le_bytes_value(min_u32(block_s) as nat, 4);
    assert(payload.subrange(consumed + 5, consumed + 5 + seg) =~= bp_packed_of(adj_s)) by {
        assert forall|t: int| 0 <= t < seg implies payload[consumed + 5 + t] == bp_packed_of(
            adj_s,
        )[t] by {
            assert(payload.skip(consumed)[5 + t] == payload[consumed + 5 + t]);
        }
    }
    assert(suffix.skip(128) =~= dsv.skip(produced + 128));
    assert(payload.skip(consumed + 5 + seg) =~= tailp) by {
        assert forall|t: int|
            0 <= t < payload.len() - consumed - 5 - seg implies payload.skip(
            consumed + 5 + seg,
        )[t] == tailp[t] by {
            assert(payload.skip(consumed + 5 + seg)[t] == payload[consumed + 5 + seg + t]);
            assert(payload.skip(consumed)[5 + seg + t] == payload[consumed + 5 + seg + t]);
        }
    }
}

/// Whole blocks remain: a decoded count below a block-multiple length is
/// at least one block short of it.
proof fn lemma_produced_block(produced: int, length: int)
    requires
        0 <= produced < length,
        produced % 128 == 0,
        length % 128 == 0,
    ensures
        produced + 128 <= length,
{
    assert(produced + 128 <= length) by (nonlinear_arith)
        requires
            0 <= produced < length,
            produced % 128 == 0,
            length % 128 == 0,
    ;
}

/// A value below `2^32` is its own remainder.
proof fn lemma_small_mod_u32(x: nat)
    requires
        x < 0x1_0000_0000,
    ensures
        x % 0x1_0000_0000 == x,
{
}

/// One decoded block extends the reconstruction by 128 slots and advances
/// the cursor past its segment, for every page this payload encodes.
#[verifier::rlimit(100)]
#[verifier::spinoff_prover]
proof fn lemma_dbp_block_step(
    payload: Seq<u8>,
    length: nat,
    consumed: int,
    produced: int,
    dec: Seq<u64>,
    decoded: Seq<u64>,
    adj_seq: Seq<u32>,
    mn: u32,
    nb: u8,
    seg: int,
    prev_entry: u32,
    prev: u32,
    bv: Seq<u64>,
)
    requires
        0 <= consumed,
        consumed + 5 + seg <= payload.len(),
        seg == 16 * (nb as int),
        produced == dec.len(),
        produced % 128 == 0,
        adj_seq.len() == 128,
        decoded.len() == produced + 128,
        decoded.take(produced) == dec,
        mn as nat == le_value_of(payload.subrange(consumed, consumed + 4)),
        payload[consumed + 4] == nb,
        forall|b: Seq<u32>|
            b.len() == 128 && block_width(b) == nb as nat && payload.subrange(
                consumed + 5,
                consumed + 5 + seg,
            ) == bp_packed_of(b) ==> adj_seq == b,
        decoded.skip(produced) == expand_block(adj_seq, mn, prev_entry).map_values(
            |x: u32| x as u64,
        ),
        prev == decoded[produced + 127],
        dbp_encodes(bv, length, payload),
        dec == bv.take(produced),
        produced < length,
        dbp_cursor(bv, payload, produced as nat, consumed as nat, prev_entry),
    ensures
        decoded == bv.take(produced + 128),
        dbp_cursor(bv, payload, (produced + 128) as nat, (consumed + 5 + seg) as nat, prev),
{
    reveal(dbp_encodes);
    lemma_dbp_suffix_shape(payload, length, consumed, produced, bv, prev_entry);
    lemma_produced_block(produced, length as int);
    let dsv = deltas32(as_u32s(bv));
    let suffix = dsv.skip(produced);
    let block_s = suffix.take(128);
    let adj_s = adj_block(block_s);
    assert(mn == min_u32(block_s));
    assert(nb as nat == block_width(adj_s));
    assert(adj_seq == adj_s);
    reveal(dbp_cursor);
    lemma_dbp_prefix(bv, decoded, adj_seq, mn, prev_entry, produced, produced + 127);
    assert(decoded =~= bv.take(produced + 128)) by {
        assert forall|t: int| 0 <= t < produced + 128 implies decoded[t] == bv.take(
            produced + 128,
        )[t] by {
            if t < produced {
                assert(decoded.take(produced)[t] == decoded[t]);
            }
        }
    }
    assert(prev as nat == bv[produced + 127] as nat);
}

} // verus!
