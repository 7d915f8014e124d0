use vstd::prelude::*;

use crate::basic::{lemma_plain_round_trip, plain_parse, plain_payload};
use crate::bytes::{
    le_bytes_of, le_value_of, lemma_le_bytes_len, lemma_le_bytes_value, lemma_pow256_values,
    pow256, push_le, read_le,
};
use crate::codec::Codec;
use crate::error::NativeError;
use crate::integer::{
    compress_integer_nodict, decompress_integer_nodict, frame_encodes_nodict, frame_seq,
    int_payload_nodict, in_width, WriteOptions,
};
use crate::page::{kind_bound, kind_width, masked_eq, PrimKind, PrimitivePage};
use crate::stats::MAX_PAGE_LEN;

verus! {

/// The pieces of a dictionary payload: a complete frame of `u32` indices
/// written by a non-dictionary codec, the dictionary cardinality, and the
/// dictionary values as a plain list. Every present slot's index points at
/// its own value.
pub open spec fn dict_parts(
    c2: Codec,
    indices: Seq<u64>,
    ipayload: Seq<u8>,
    dsets: Seq<u64>,
    vals: Seq<u64>,
    valid: Seq<bool>,
    w: nat,
    payload: Seq<u8>,
) -> bool {
    &&& c2 != Codec::Dict
    &&& int_payload_nodict(c2, indices, crate::page::all_true(indices.len()), 4, ipayload)
    &&& indices.len() == vals.len()
    &&& ipayload.len() < 0x1_0000_0000
    &&& indices.len() * 4 < 0x1_0000_0000
    &&& dsets.len() <= MAX_PAGE_LEN
    &&& in_width(dsets, w)
    &&& forall|i: int| 0 <= i < indices.len() ==> ((#[trigger] indices[i]) as nat) < dsets.len()
    &&& forall|i: int|
        0 <= i < vals.len() && valid[i] ==> dsets[#[trigger] indices[i] as int] == vals[i]
    &&& payload == frame_seq(c2, indices.len() * 4, ipayload) + le_bytes_of(dsets.len(), 4)
        + plain_payload(dsets, w)
}

/// `payload` is a dictionary encoding of the page `(vals, valid)`: null
/// slots may point anywhere inside the dictionary, present slots point at
/// their value.
pub open spec fn dict_encodes(vals: Seq<u64>, valid: Seq<bool>, w: nat, payload: Seq<u8>) -> bool {
    exists|c2: Codec, indices: Seq<u64>, ipayload: Seq<u8>, dsets: Seq<u64>|
        #[trigger] dict_parts(c2, indices, ipayload, dsets, vals, valid, w, payload)
}


/// The canonical dictionary of the first `n` slots, built exactly as the
/// encoder builds it: a present slot inserts its value on first sight and
/// emits that value's index; a null slot re-emits the previous index, or
/// enters the zero pattern into a still-empty dictionary.
pub open spec fn dict_spec(vals: Seq<u64>, valid: Seq<bool>, n: int) -> (Seq<u64>, Seq<u32>)
    decreases n,
{
    if n <= 0 {
        (Seq::empty(), Seq::empty())
    } else {
        let prev = dict_spec(vals, valid, n - 1);
        let i = n - 1;
        if valid[i] {
            if prev.0.contains(vals[i]) {
                (prev.0, prev.1.push(prev.0.index_of(vals[i]) as u32))
            } else {
                (prev.0.push(vals[i]), prev.1.push(prev.0.len() as u32))
            }
        } else {
            if prev.0.len() == 0 {
                (prev.0.push(0), prev.1.push(0))
            } else {
                (prev.0, prev.1.push(prev.1.last()))
            }
        }
    }
}

/// The whole page's canonical dictionary values, in first-occurrence order.
pub open spec fn dict_sets_of(vals: Seq<u64>, valid: Seq<bool>) -> Seq<u64> {
    dict_spec(vals, valid, vals.len() as int).0
}

/// The whole page's canonical index stream.
pub open spec fn dict_indices_of(vals: Seq<u64>, valid: Seq<bool>) -> Seq<u32> {
    dict_spec(vals, valid, vals.len() as int).1
}

/// The canonical indices widened into page slots.
pub open spec fn indices_as_u64s(s: Seq<u32>) -> Seq<u64> {
    Seq::new(s.len(), |i: int| s[i] as u64)
}

/// The shape of the canonical dictionary: one index per slot, every index
/// inside the dictionary, no value twice, every present slot pointing at
/// its own value, and the last emitted index tracking the build.
pub proof fn lemma_dict_spec_props(vals: Seq<u64>, valid: Seq<bool>, n: int)
    requires
        0 <= n <= vals.len(),
        valid.len() == vals.len(),
        vals.len() < 0x1_0000_0000,
    ensures
        ({
            let d = dict_spec(vals, valid, n);
            &&& d.1.len() == n
            &&& d.0.len() <= n
            &&& forall|a: int, b: int| 0 <= a < b < d.0.len() ==> d.0[a] != d.0[b]
            &&& forall|j: int| 0 <= j < n ==> ((#[trigger] d.1[j]) as nat) < d.0.len()
            &&& forall|j: int|
                0 <= j < n && valid[j] ==> d.0[(#[trigger] d.1[j]) as int] == vals[j]
        }),
    decreases n,
{
    if n > 0 {
        lemma_dict_spec_props(vals, valid, n - 1);
        let prev = dict_spec(vals, valid, n - 1);
        let d = dict_spec(vals, valid, n);
        let i = n - 1;
        if valid[i] && prev.0.contains(vals[i]) {
            let k = prev.0.index_of(vals[i]);
            assert(0 <= k < prev.0.len() && prev.0[k] == vals[i]);
        }
        assert forall|j: int| 0 <= j < n && valid[j] implies d.0[(#[trigger] d.1[j]) as int]
            == vals[j] by {
            if j < n - 1 {
                assert(d.1[j] == prev.1[j]);
                assert((prev.1[j] as nat) < prev.0.len());
                assert(prev.0[(prev.1[j]) as int] == vals[j]);
                assert(d.0[(prev.1[j]) as int] == prev.0[(prev.1[j]) as int]);
            } else {
                assert(valid[i]);
                if prev.0.contains(vals[i]) {
                    let k = prev.0.index_of(vals[i]);
                    assert(0 <= k < prev.0.len() && prev.0[k] == vals[i]);
                    assert(k < 0x1_0000_0000);
                    assert((k as u32) as int == k);
                    assert(d.1[j] == k as u32);
                    assert(d.0[k] == vals[i]);
                } else {
                    assert(d.1[j] == prev.0.len() as u32);
                    assert(d.0[prev.0.len() as int] == vals[i]);
                }
            }
        }
        assert forall|a: int, b: int| 0 <= a < b < d.0.len() implies d.0[a] != d.0[b] by {
            if valid[i] && !prev.0.contains(vals[i]) && b == d.0.len() - 1 {
                assert(d.0[b] == vals[i]);
                assert(prev.0[a] == d.0[a]);
                if d.0[a] == vals[i] {
                    assert(prev.0.contains(vals[i]));
                }
            } else if !valid[i] && prev.0.len() == 0 && b == d.0.len() - 1 {
                assert(false);
            }
        }
    }
}

/// In a duplicate-free dictionary, an index holding a value is that
/// value's first (and only) index.
pub proof fn lemma_index_of_unique(sets: Seq<u64>, j: int)
    requires
        0 <= j < sets.len(),
        forall|a: int, b: int| 0 <= a < b < sets.len() ==> sets[a] != sets[b],
    ensures
        sets.index_of(sets[j]) == j,
{
    assert(sets.contains(sets[j]));
    let k = sets.index_of(sets[j]);
    assert(0 <= k < sets.len() && sets[k] == sets[j]);
    if k < j {
        assert(sets[k] != sets[j]);
    } else if k > j {
        assert(sets[j] != sets[k]);
    }
}

/// The canonical payload: the canonical index stream as a non-dictionary
/// sub-frame, the canonical cardinality, and the canonical values in
/// first-occurrence order as a plain list.
pub open spec fn dict_canonical_payload(
    c2: Codec,
    ipayload: Seq<u8>,
    vals: Seq<u64>,
    valid: Seq<bool>,
    w: nat,
    payload: Seq<u8>,
) -> bool {
    let sets = dict_sets_of(vals, valid);
    let idxs = indices_as_u64s(dict_indices_of(vals, valid));
    &&& c2 != Codec::Dict
    &&& int_payload_nodict(c2, idxs, crate::page::all_true(idxs.len()), 4, ipayload)
    &&& ipayload.len() < 0x1_0000_0000
    &&& payload == frame_seq(c2, idxs.len() * 4, ipayload) + le_bytes_of(sets.len(), 4)
        + plain_payload(sets, w)
}

/// The insertion-order dictionary builder: values in first-seen order, one
/// index per slot, and the last emitted index for null slots.
pub struct DictEncoder {
    pub sets: Vec<u64>,
    pub indices: Vec<u32>,
    pub last_index: u32,
}

impl DictEncoder {
    pub open spec fn wf(self, w: nat) -> bool {
        &&& self.sets@.len() <= self.indices@.len()
        &&& in_width(self.sets@, w)
        &&& forall|i: int|
            0 <= i < self.indices@.len() ==> ((#[trigger] self.indices@[i]) as nat)
                < self.sets@.len()
        &&& self.indices@.len() > 0 ==> (self.last_index as nat) < self.sets@.len()
    }

    /// Creates an empty dictionary builder.
    pub fn with_capacity(_cap: usize) -> (r: DictEncoder)
        ensures
            r.sets@.len() == 0,
            r.indices@.len() == 0,
    {
        DictEncoder { sets: Vec::new(), indices: Vec::new(), last_index: 0 }
    }

    /// Whether no value has been pushed yet.
    pub fn is_empty(&self) -> (r: bool)
        ensures
            r == (self.sets@.len() == 0),
    {
        self.sets.len() == 0
    }

    /// Pushes one present value: inserts it if it is new and appends its
    /// index.
    pub fn push(&mut self, v: u64, Ghost(w): Ghost<nat>)
        requires
            old(self).wf(w),
            (v as nat) < pow256(w),
            old(self).indices@.len() < MAX_PAGE_LEN,
        ensures
            final(self).wf(w),
            final(self).indices@.len() == old(self).indices@.len() + 1,
            final(self).indices@.take(old(self).indices@.len() as int) == old(self).indices@,
            final(self).sets@.take(old(self).sets@.len() as int) == old(self).sets@,
            final(self).sets@[final(self).indices@.last() as int] == v,
            final(self).sets@.len() >= old(self).sets@.len(),
            final(self).last_index == final(self).indices@.last(),
            // a known value is never re-inserted; a new one gets the next
            // fresh index
            old(self).sets@.contains(v) ==> final(self).sets@ == old(self).sets@,
            !old(self).sets@.contains(v) ==> final(self).sets@ == old(self).sets@.push(v)
                && final(self).indices@.last() == old(self).sets@.len(),
    {
        let n: usize = self.sets.len();
        let mut i: usize = 0;
        let mut found: bool = false;
        let mut ix: u32 = 0;
        while i < n
            invariant
                n == self.sets@.len() <= MAX_PAGE_LEN,
                i <= n,
                found ==> (ix as nat) < n && self.sets@[ix as int] == v,
                !found ==> forall|t: int| 0 <= t < i ==> self.sets@[t] != v,
            decreases n - i,
        {
            if self.sets[i] == v {
                found = true;
                ix = i as u32;
                proof {
                    assert((i as nat) < MAX_PAGE_LEN);
                }
                i = n;
            } else {
                i = i + 1;
            }
        }
        proof {
            if found {
                assert(old(self).sets@.contains(v));
            } else {
                assert(!old(self).sets@.contains(v)) by {
                    if old(self).sets@.contains(v) {
                        let t = choose|t: int|
                            0 <= t < old(self).sets@.len() && old(self).sets@[t] == v;
                        assert(self.sets@[t] != v);
                    }
                }
            }
        }
        if !found {
            ix = self.sets.len() as u32;
            self.sets.push(v);
        }
        self.last_index = ix;
        self.indices.push(ix);
        proof {
            assert(self.indices@.take(old(self).indices@.len() as int) =~= old(self).indices@);
            assert(self.sets@.take(old(self).sets@.len() as int) =~= old(self).sets@);
        }
    }

    /// Re-emits the previous index; used for a null slot once the
    /// dictionary is non-empty.
    pub fn push_last_index(&mut self, Ghost(w): Ghost<nat>)
        requires
            old(self).wf(w),
            old(self).indices@.len() > 0,
            old(self).indices@.len() < MAX_PAGE_LEN,
        ensures
            final(self).wf(w),
            final(self).sets@ == old(self).sets@,
            final(self).indices@ == old(self).indices@.push(old(self).last_index),
            final(self).last_index == old(self).last_index,
    {
        let ix: u32 = self.last_index;
        self.indices.push(ix);
    }
}

/// The dictionary codec: first-seen values become the dictionary, the page
/// becomes a sub-page of indices compressed by any other integer codec.
pub struct Dict {}

impl Dict {
    /// Appends the dictionary payload of `array` to `output`, compressing
    /// the index sub-page with the given options plus a dictionary ban;
    /// returns the number of bytes written.
    #[verifier::rlimit(100)]
    pub fn compress(
        &self,
        array: &PrimitivePage,
        write_options: &WriteOptions,
        output: &mut Vec<u8>,
    ) -> (r: Result<usize, NativeError>)
        requires
            array.wf(),
            array.spec_len() <= MAX_PAGE_LEN,
            write_options.wf(),
        ensures
            match r {
                Ok(nbytes) => {
                    &&& final(output)@.len() == old(output)@.len() + nbytes
                    &&& dict_encodes(
                        array.values@,
                        array.valid_seq(),
                        kind_width(array.kind),
                        final(output)@.skip(old(output)@.len() as int),
                    )
                    // the dictionary written is the canonical one: distinct
                    // values in first-occurrence order, fresh indices, and
                    // the previous index re-emitted at null slots
                    &&& exists|c2: Codec, ipayload: Seq<u8>|
                        #[trigger] dict_canonical_payload(
                            c2,
                            ipayload,
                            array.values@,
                            array.valid_seq(),
                            kind_width(array.kind),
                            final(output)@.skip(old(output)@.len() as int),
                        )
                    &&& final(output)@.len() - old(output)@.len() < 0x1_0000_0000
                },
                Err(e) => false,
            },
    {
        let w: usize = array.kind.width();
        let len: usize = array.values.len();
        let ghost vals = array.values@;
        let ghost valid = array.valid_seq();
        let mut encoder: DictEncoder = DictEncoder::with_capacity(len);
        let mut i: usize = 0;
        proof {
            assert(encoder.sets@ =~= dict_spec(vals, valid, 0).0);
            assert(encoder.indices@ =~= dict_spec(vals, valid, 0).1);
        }
        while i < len
            invariant
                array.wf(),
                vals == array.values@,
                valid == array.valid_seq(),
                valid.len() == len,
                i <= len == vals.len() <= MAX_PAGE_LEN,
                w == kind_width(array.kind),
                encoder.wf(w as nat),
                encoder.indices@.len() == i,
                i > 0 ==> encoder.sets@.len() > 0,
                encoder.sets@ == dict_spec(vals, valid, i as int).0,
                encoder.indices@ == dict_spec(vals, valid, i as int).1,
                encoder.indices@.len() > 0 ==> encoder.last_index == encoder.indices@.last(),
                forall|t: int|
                    0 <= t < i && valid[t] ==> encoder.sets@[(
                    #[trigger] encoder.indices@[t]) as int] == vals[t],
            decreases len - i,
        {
            let ghost pre = encoder;
            proof {
                lemma_dict_spec_props(vals, valid, i as int);
            }
            let present: bool = array.is_present(i);
            if present {
                encoder.push(array.values[i], Ghost(w as nat));
                proof {
                    if pre.sets@.contains(vals[i as int]) {
                        // the found slot is the value's unique index
                        assert(encoder.sets@ == pre.sets@);
                        assert(encoder.sets@[encoder.indices@.last() as int] == vals[i as int]);
                        lemma_index_of_unique(pre.sets@, encoder.indices@.last() as int);
                        assert(encoder.indices@.last() == pre.sets@.index_of(
                            vals[i as int],
                        ) as u32);
                    }
                }
            } else {
                if encoder.is_empty() {
                    proof {
                        crate::bytes::lemma_pow256_pos(w as nat);
                        assert(!pre.sets@.contains(0u64));
                    }
                    encoder.push(0u64, Ghost(w as nat));
                } else {
                    proof {
                        assert(encoder.indices@.len() > 0);
                    }
                    encoder.push_last_index(Ghost(w as nat));
                }
            }
            proof {
                assert(encoder.indices@ =~= pre.indices@.push(encoder.indices@.last()));
                assert(encoder.sets@ =~= dict_spec(vals, valid, i + 1).0);
                assert(encoder.indices@ =~= dict_spec(vals, valid, i + 1).1);
                assert forall|t: int|
                    0 <= t < i + 1 && valid[t] implies encoder.sets@[(
                #[trigger] encoder.indices@[t]) as int] == vals[t] by {
                    if t < i {
                        assert(encoder.indices@[t] == pre.indices@[t]);
                        assert((pre.indices@[t] as nat) < pre.sets@.len());
                        assert(encoder.sets@.take(pre.sets@.len() as int)[pre.indices@[t] as int]
                            == pre.sets@[pre.indices@[t] as int]);
                    }
                }
            }
            i = i + 1;
        }
        // the index sub-page, with the dictionary banned
        let mut forb: Vec<Codec> = Vec::new();
        let mut k: usize = 0;
        let fn_len: usize = write_options.forbidden_compressions.len();
        while k < fn_len
            invariant
                k <= fn_len == write_options.forbidden_compressions@.len(),
                forb@ == write_options.forbidden_compressions@.take(k as int),
            decreases fn_len - k,
        {
            forb.push(write_options.forbidden_compressions[k]);
            proof {
                assert(forb@ =~= write_options.forbidden_compressions@.take(k + 1));
            }
            k = k + 1;
        }
        proof {
            assert(forb@ =~= write_options.forbidden_compressions@);
        }
        forb.push(Codec::Dict);
        let opts2 = WriteOptions {
            default_compression: write_options.default_compression,
            default_compress_ratio: match &write_options.default_compress_ratio {
                Some(t) => Some(*t),
                None => None,
            },
            max_page_size: match &write_options.max_page_size {
                Some(m) => Some(*m),
                None => None,
            },
            forbidden_compressions: forb,
        };
        proof {
            assert(opts2.forbidden_compressions@.contains(Codec::Dict)) by {
                assert(opts2.forbidden_compressions@.last() == Codec::Dict);
            }
            assert(opts2.wf()) by {
                assert(opts2.forbidden_compressions@ == write_options.forbidden_compressions@.push(
                    Codec::Dict,
                ));
                if opts2.forbidden_compressions@.contains(opts2.default_compression) {
                    let t = choose|t: int|
                        0 <= t < opts2.forbidden_compressions@.len()
                            && opts2.forbidden_compressions@[t] == opts2.default_compression;
                    assert(t < write_options.forbidden_compressions@.len());
                    assert(write_options.forbidden_compressions@.contains(
                        write_options.default_compression,
                    ));
                }
            }
        }
        // indices as a u32 page
        let mut ivals: Vec<u64> = Vec::new();
        let mut k2: usize = 0;
        let icount: usize = encoder.indices.len();
        while k2 < icount
            invariant
                k2 <= icount == encoder.indices@.len(),
                ivals@.len() == k2,
                forall|t: int|
                    0 <= t < k2 ==> (#[trigger] ivals@[t]) as nat == encoder.indices@[t] as nat,
            decreases icount - k2,
        {
            ivals.push(encoder.indices[k2] as u64);
            k2 = k2 + 1;
        }
        let ghost sets_seq = encoder.sets@;
        let ghost idx_seq = ivals@;
        let ipage = PrimitivePage { kind: PrimKind::U32, values: ivals, validity: None };
        proof {
            lemma_pow256_values();
            assert(ipage.wf()) by {
                assert forall|t: int|
                    0 <= t < ipage.values@.len() implies ((#[trigger] ipage.values@[t]) as nat)
                    < kind_bound(ipage.kind) by {
                    assert((ipage.values@[t] as nat) == (encoder.indices@[t] as nat));
                }
            }
        }
        let out0: usize = output.len();
        let ghost before_inner = output@;
        match compress_integer_nodict(&ipage, &opts2, output) {
            Ok(()) => {},
            Err(e) => {
                proof {
                    assert(false);
                }
                return Err(e);
            },
        }
        let ghost after_inner = output@;
        let card: usize = encoder.sets.len();
        push_le(output, card as u64, 4);
        let spage = PrimitivePage { kind: array.kind, values: encoder.sets, validity: None };
        crate::basic::compress_plain(&spage, output);
        proof {
            let (c2v, ipl): (Codec, Seq<u8>) = choose|c2v: Codec, ipl: Seq<u8>|
                {
                    &&& #[trigger] int_payload_nodict(
                        c2v,
                        ipage.values@,
                        ipage.valid_seq(),
                        kind_width(ipage.kind),
                        ipl,
                    )
                    &&& crate::integer::selection_ok(c2v, ipage, opts2)
                    &&& c2v != Codec::Dict
                    &&& ipl.len() <= 12 * ipage.spec_len() + 16
                    &&& ipl.len() < 0x1_0000_0000
                    &&& after_inner == before_inner + frame_seq(
                        c2v,
                        ipage.spec_len() * kind_width(ipage.kind),
                        ipl,
                    )
                };
            assert(len * 4 <= MAX_PAGE_LEN * 4) by (nonlinear_arith)
                requires
                    len <= MAX_PAGE_LEN,
            ;
            lemma_le_bytes_len(card as nat, 4);
            crate::basic::lemma_plain_payload_len(sets_seq, w as nat);
            assert(sets_seq.len() * w <= MAX_PAGE_LEN * 8) by (nonlinear_arith)
                requires
                    sets_seq.len() <= MAX_PAGE_LEN,
                    w <= 8,
            ;
            lemma_le_bytes_len(ipl.len(), 4);
            lemma_le_bytes_len(idx_seq.len() * 4, 4);
            assert(sets_seq.len() * w + 12 * len + 16 + 13 < 0x1_0000_0000) by (nonlinear_arith)
                requires
                    sets_seq.len() <= MAX_PAGE_LEN,
                    len <= MAX_PAGE_LEN,
                    w <= 8,
            ;
            assert(ipl.len() <= 12 * len + 16);
            let payload = output@.skip(old(output)@.len() as int);
            assert(dict_parts(c2v, idx_seq, ipl, sets_seq, vals, valid, w as nat, payload)) by {
                assert(ipage.valid_seq() =~= crate::page::all_true(idx_seq.len()));
                assert(payload =~= frame_seq(c2v, idx_seq.len() * 4, ipl) + le_bytes_of(
                    card as nat,
                    4,
                ) + plain_payload(sets_seq, w as nat));
            }
            assert(dict_encodes(vals, valid, w as nat, payload));
            assert(idx_seq =~= indices_as_u64s(dict_indices_of(vals, valid)));
            assert(sets_seq == dict_sets_of(vals, valid));
            assert(dict_canonical_payload(c2v, ipl, vals, valid, w as nat, payload));
            assert(payload.len() < 0x1_0000_0000);
        }
        Ok(output.len() - out0)
    }

    /// Decodes a dictionary payload of `payload_len` bytes at `input[pos..]`
    /// into `length` slots appended to `output`. Every present slot of the
    /// encoded page comes back exactly; a null slot holds whichever
    /// dictionary value its index named.
    #[verifier::rlimit(100)]
    #[verifier::spinoff_prover]
    pub fn decompress(
        &self,
        input: &[u8],
        pos: usize,
        payload_len: usize,
        length: usize,
        w: usize,
        output: &mut Vec<u64>,
    ) -> (r: Result<(), NativeError>)
        requires
            pos + payload_len <= input@.len(),
            1 <= w <= 8,
            length <= MAX_PAGE_LEN,
        ensures
            forall|vals: Seq<u64>, valid: Seq<bool>|
                vals.len() == length && #[trigger] dict_encodes(
                    vals,
                    valid,
                    w as nat,
                    input@.subrange(pos as int, (pos + payload_len) as int),
                ) ==> r is Ok && masked_eq(
                    final(output)@.skip(old(output)@.len() as int),
                    vals,
                    valid,
                ),
            // a dictionary list shorter than its own cardinality demands is
            // a structural fault
            forall|c2: Codec, ivals: Seq<u64>, ipayload: Seq<u8>|
                ivals.len() == length && #[trigger] frame_encodes_nodict(
                    c2,
                    ivals,
                    crate::page::all_true(length as nat),
                    4,
                    ipayload,
                    input@.skip(pos as int),
                ) && 9 + ipayload.len() + 4 <= payload_len && payload_len < 9 + ipayload.len() + 4
                    + le_value_of(
                    input@.subrange(
                        (pos + 9 + ipayload.len()) as int,
                        (pos + 9 + ipayload.len() + 4) as int,
                    ),
                ) * w ==> r == Err::<(), NativeError>(NativeError::InvalidPayload),
            match r {
                Ok(()) => {
                    &&& final(output)@.len() == old(output)@.len() + length
                    &&& final(output)@.take(old(output)@.len() as int) == old(output)@
                    &&& forall|i: int|
                        old(output)@.len() <= i < final(output)@.len() ==> ((final(
                            output)@[i]) as nat) < pow256(w as nat)
                },
                Err(e) => final(output)@ == old(output)@ && (e == NativeError::Truncated || e
                    == NativeError::UnknownCodec || e == NativeError::InvalidPayload),
            },
    {
        let n: usize = input.len();
        let ghost payload = input@.subrange(pos as int, (pos + payload_len) as int);
        let mut ivec: Vec<u64> = Vec::new();
        let np: usize = match decompress_integer_nodict(input, pos, length, 4, &mut ivec) {
            Ok(np) => np,
            Err(e) => {
                proof {
                    assert forall|vals: Seq<u64>, valid: Seq<bool>|
                        vals.len() == length && #[trigger] dict_encodes(
                            vals,
                            valid,
                            w as nat,
                            payload,
                        ) implies false by {
                        let (c2, indices, ipayload, dsets): (Codec, Seq<u64>, Seq<u8>, Seq<u64>) =
                            choose|c2: Codec, indices: Seq<u64>, ipayload: Seq<u8>, dsets: Seq<u64>|
                            #[trigger] dict_parts(
                                c2,
                                indices,
                                ipayload,
                                dsets,
                                vals,
                                valid,
                                w as nat,
                                payload,
                            );
                        lemma_dict_frame_at(
                            payload,
                            input@,
                            pos as int,
                            payload_len as int,
                            c2,
                            indices,
                            ipayload,
                            dsets,
                            vals,
                            valid,
                            w as nat,
                        );
                    }
                }
                return Err(e);
            },
        };
        if np > pos + payload_len || pos + payload_len - np < 4 {
            proof {
                assert forall|vals: Seq<u64>, valid: Seq<bool>|
                    vals.len() == length && #[trigger] dict_encodes(
                        vals,
                        valid,
                        w as nat,
                        payload,
                    ) implies false by {
                    let (c2, indices, ipayload, dsets): (Codec, Seq<u64>, Seq<u8>, Seq<u64>) =
                        choose|c2: Codec, indices: Seq<u64>, ipayload: Seq<u8>, dsets: Seq<u64>|
                        #[trigger] dict_parts(
                            c2,
                            indices,
                            ipayload,
                            dsets,
                            vals,
                            valid,
                            w as nat,
                            payload,
                        );
                    lemma_dict_frame_at(
                        payload,
                        input@,
                        pos as int,
                        payload_len as int,
                        c2,
                        indices,
                        ipayload,
                        dsets,
                        vals,
                        valid,
                        w as nat,
                    );
                }
            }
            return Err(NativeError::InvalidPayload);
        }
        let card64: u64 = read_le(input, np, 4);
        proof {
            lemma_pow256_values();
        }
        if card64 > MAX_PAGE_LEN as u64 {
            proof {
                assert forall|vals: Seq<u64>, valid: Seq<bool>|
                    vals.len() == length && #[trigger] dict_encodes(
                        vals,
                        valid,
                        w as nat,
                        payload,
                    ) implies false by {
                    let (c2, indices, ipayload, dsets): (Codec, Seq<u64>, Seq<u8>, Seq<u64>) =
                        choose|c2: Codec, indices: Seq<u64>, ipayload: Seq<u8>, dsets: Seq<u64>|
                        #[trigger] dict_parts(
                            c2,
                            indices,
                            ipayload,
                            dsets,
                            vals,
                            valid,
                            w as nat,
                            payload,
                        );
                    lemma_dict_frame_at(
                        payload,
                        input@,
                        pos as int,
                        payload_len as int,
                        c2,
                        indices,
                        ipayload,
                        dsets,
                        vals,
                        valid,
                        w as nat,
                    );
                    assert(np == pos + 9 + ipayload.len());
                    assert(input@.subrange(np as int, (np + 4) as int) == input@.subrange(
                        pos + 9 + ipayload.len() as int,
                        pos + 9 + ipayload.len() as int + 4,
                    ));
                    assert(card64 as nat == dsets.len());
                }
            }
            return Err(NativeError::InvalidPayload);
        }
        let card: usize = card64 as usize;
        let mut dvec: Vec<u64> = Vec::new();
        match crate::basic::decompress_plain(
            input,
            np + 4,
            pos + payload_len - np - 4,
            card,
            w,
            &mut dvec,
        ) {
            Ok(()) => {},
            Err(e) => {
                proof {
                    assert forall|vals: Seq<u64>, valid: Seq<bool>|
                        vals.len() == length && #[trigger] dict_encodes(
                            vals,
                            valid,
                            w as nat,
                            payload,
                        ) implies false by {
                        let (c2, indices, ipayload, dsets): (Codec, Seq<u64>, Seq<u8>, Seq<u64>) =
                            choose|c2: Codec, indices: Seq<u64>, ipayload: Seq<u8>, dsets: Seq<u64>|
                            #[trigger] dict_parts(
                                c2,
                                indices,
                                ipayload,
                                dsets,
                                vals,
                                valid,
                                w as nat,
                                payload,
                            );
                        lemma_dict_frame_at(
                            payload,
                            input@,
                            pos as int,
                            payload_len as int,
                            c2,
                            indices,
                            ipayload,
                            dsets,
                            vals,
                            valid,
                            w as nat,
                        );
                        assert(np == pos + 9 + ipayload.len());
                        assert(card64 as nat == dsets.len());
                        lemma_plain_round_trip(dsets, w as nat);
                        assert(input@.subrange((np + 4) as int, (pos + payload_len) as int)
                            == plain_payload(dsets, w as nat));
                    }
                }
                return Err(e);
            },
        }
        let mut decoded: Vec<u64> = Vec::new();
        let mut i: usize = 0;
        while i < length
            invariant
                1 <= w <= 8,
                i <= length <= MAX_PAGE_LEN,
                pos + payload_len <= n == input@.len(),
                np <= pos + payload_len,
                payload == input@.subrange(pos as int, (pos + payload_len) as int),
                ivec@.len() == length,
                card == dvec@.len(),
                decoded@.len() == i,
                forall|t: int|
                    0 <= t < dvec@.len() ==> ((#[trigger] dvec@[t]) as nat) < pow256(w as nat),
                forall|c2: Codec, vs: Seq<u64>, vld: Seq<bool>, pl: Seq<u8>|
                    vs.len() == length && #[trigger] frame_encodes_nodict(
                        c2,
                        vs,
                        vld,
                        4,
                        pl,
                        input@.skip(pos as int),
                    ) ==> np == pos + 9 + pl.len() && crate::page::masked_eq(ivec@, vs, vld),
                plain_parse(
                    input@.subrange((np + 4) as int, (pos + payload_len) as int),
                    card as nat,
                    w as nat,
                ) == Some(dvec@),
                card64 as nat == le_value_of(input@.subrange(np as int, (np + 4) as int)),
                card == card64 as nat,
                forall|t: int|
                    0 <= t < i ==> (#[trigger] decoded@[t]) == dvec@[ivec@[t] as int] && (
                    ivec@[t] as nat) < dvec@.len(),
            decreases length - i,
        {
            let ix64: u64 = ivec[i];
            if ix64 >= dvec.len() as u64 {
                proof {
                    assert forall|vals: Seq<u64>, valid: Seq<bool>|
                        vals.len() == length && #[trigger] dict_encodes(
                            vals,
                            valid,
                            w as nat,
                            payload,
                        ) implies false by {
                        let (c2, indices, ipayload, dsets): (Codec, Seq<u64>, Seq<u8>, Seq<u64>) =
                            choose|c2: Codec, indices: Seq<u64>, ipayload: Seq<u8>, dsets: Seq<u64>|
                            #[trigger] dict_parts(
                                c2,
                                indices,
                                ipayload,
                                dsets,
                                vals,
                                valid,
                                w as nat,
                                payload,
                            );
                        lemma_dict_frame_at(
                            payload,
                            input@,
                            pos as int,
                            payload_len as int,
                            c2,
                            indices,
                            ipayload,
                            dsets,
                            vals,
                            valid,
                            w as nat,
                        );
                        assert(crate::page::masked_eq(
                            ivec@,
                            indices,
                            crate::page::all_true(indices.len()),
                        ));
                        crate::page::lemma_masked_all_true(ivec@, indices);
                        assert(ivec@ == indices);
                        assert(card64 as nat == dsets.len());
                        lemma_plain_round_trip(dsets, w as nat);
                        assert(dvec@ == dsets);
                        assert((indices[i as int] as nat) < dsets.len());
                    }
                }
                return Err(NativeError::InvalidPayload);
            }
            let ix: usize = ix64 as usize;
            let ghost prev_dec = decoded@;
            decoded.push(dvec[ix]);
            proof {
                assert(decoded@ == prev_dec.push(dvec@[ix as int]));
                assert forall|t: int|
                    0 <= t < i + 1 implies (#[trigger] decoded@[t]) == dvec@[ivec@[t] as int] && (
                ivec@[t] as nat) < dvec@.len() by {
                    if t < i {
                        assert(decoded@[t] == prev_dec[t]);
                    } else {
                        assert(decoded@[t] == dvec@[ix as int]);
                    }
                }
            }
            i = i + 1;
        }
        let ghost dec = decoded@;
        output.append(&mut decoded);
        proof {
            assert(output@.take(old(output)@.len() as int) =~= old(output)@);
            assert(output@.skip(old(output)@.len() as int) =~= dec);
            assert forall|vals: Seq<u64>, valid: Seq<bool>|
                vals.len() == length && #[trigger] dict_encodes(
                    vals,
                    valid,
                    w as nat,
                    payload,
                ) implies masked_eq(dec, vals, valid) by {
                let (c2, indices, ipayload, dsets): (Codec, Seq<u64>, Seq<u8>, Seq<u64>) = choose|
                    c2: Codec,
                    indices: Seq<u64>,
                    ipayload: Seq<u8>,
                    dsets: Seq<u64>,
                |
                    #[trigger] dict_parts(
                        c2,
                        indices,
                        ipayload,
                        dsets,
                        vals,
                        valid,
                        w as nat,
                        payload,
                    );
                lemma_dict_frame_at(
                    payload,
                    input@,
                    pos as int,
                    payload_len as int,
                    c2,
                    indices,
                    ipayload,
                    dsets,
                    vals,
                    valid,
                    w as nat,
                );
                assert(crate::page::masked_eq(
                    ivec@,
                    indices,
                    crate::page::all_true(indices.len()),
                ));
                crate::page::lemma_masked_all_true(ivec@, indices);
                assert(ivec@ == indices);
                assert(card64 as nat == dsets.len());
                lemma_plain_round_trip(dsets, w as nat);
                assert(dvec@ == dsets);
                assert forall|t: int| 0 <= t < length && valid[t] implies dec[t] == vals[t] by {
                    assert(dec[t] == dvec@[ivec@[t] as int]);
                }
            }
            assert forall|c2: Codec, ivals: Seq<u64>, ipayload: Seq<u8>|
                ivals.len() == length && #[trigger] frame_encodes_nodict(
                    c2,
                    ivals,
                    crate::page::all_true(length as nat),
                    4,
                    ipayload,
                    input@.skip(pos as int),
                ) && 9 + ipayload.len() + 4 <= payload_len implies !(payload_len < 9
                + ipayload.len() + 4 + le_value_of(
                input@.subrange(
                    (pos + 9 + ipayload.len()) as int,
                    (pos + 9 + ipayload.len() + 4) as int,
                ),
            ) * w) by {
                // the index frame pins the positions; the plain decode of
                // the dictionary list succeeded, so the region is exactly
                // the cardinality times the width
                assert(np == pos + 9 + ipayload.len());
                assert(card64 as nat == le_value_of(
                    input@.subrange(np as int, (np + 4) as int),
                ));
                assert(input@.subrange((np + 4) as int, (pos + payload_len) as int).len()
                    == card * w);
            }
        }
        Ok(())
    }
}

/// Where the pieces of a dictionary payload lie inside the whole input:
/// the index frame starts at `pos`, the cardinality follows it, and the
/// dictionary list runs to the end of the payload.
#[verifier::rlimit(100)]
#[verifier::spinoff_prover]
pub proof fn lemma_dict_frame_at(
    payload: Seq<u8>,
    whole: Seq<u8>,
    pos: int,
    payload_len: int,
    c2: Codec,
    indices: Seq<u64>,
    ipayload: Seq<u8>,
    dsets: Seq<u64>,
    vals: Seq<u64>,
    valid: Seq<bool>,
    w: nat,
)
    requires
        dict_parts(c2, indices, ipayload, dsets, vals, valid, w, payload),
        0 <= pos,
        pos + payload_len <= whole.len(),
        payload == whole.subrange(pos, pos + payload_len),
        payload.len() == payload_len,
        w <= 8,
    ensures
        frame_encodes_nodict(
            c2,
            indices,
            crate::page::all_true(indices.len()),
            4,
            ipayload,
            whole.skip(pos),
        ),
        pos + 9 + ipayload.len() + 4 <= pos + payload_len,
        le_value_of(
            whole.subrange(pos + 9 + ipayload.len(), pos + 9 + ipayload.len() + 4),
        ) == dsets.len(),
        whole.subrange(pos + 9 + ipayload.len() + 4, pos + payload_len) == plain_payload(
            dsets,
            w,
        ),
        payload_len == 9 + ipayload.len() + 4 + dsets.len() * w,
{
    let fr = frame_seq(c2, indices.len() * 4, ipayload);
    let cb = le_bytes_of(dsets.len(), 4);
    let pp = plain_payload(dsets, w);
    lemma_le_bytes_len(indices.len() * 4, 4);
    lemma_le_bytes_len(ipayload.len(), 4);
    lemma_le_bytes_len(dsets.len(), 4);
    crate::basic::lemma_plain_payload_len(dsets, w);
    assert(fr.len() == 9 + ipayload.len());
    assert(payload.len() == fr.len() + 4 + pp.len());
    assert(whole.skip(pos).subrange(0, 9 + ipayload.len() as int) =~= fr) by {
        assert forall|t: int| 0 <= t < fr.len() implies whole.skip(pos)[t] == fr[t] by {
            assert(whole.skip(pos)[t] == whole[pos + t]);
            assert(payload[t] == whole[pos + t]);
            assert((fr + cb + pp)[t] == fr[t]);
        }
    }
    assert(frame_encodes_nodict(
        c2,
        indices,
        crate::page::all_true(indices.len()),
        4,
        ipayload,
        whole.skip(pos),
    )) by {
        assert(whole.skip(pos).len() >= 9 + ipayload.len());
    }
    assert(whole.subrange(pos + 9 + ipayload.len(), pos + 9 + ipayload.len() + 4) =~= cb) by {
        assert forall|t: int| 0 <= t < 4 implies whole[pos + 9 + ipayload.len() + t] == cb[t] by {
            assert(payload[9 + ipayload.len() + t] == whole[pos + 9 + ipayload.len() + t]);
            assert((fr + cb + pp)[fr.len() + t] == cb[t]);
        }
    }
    crate::bytes::lemma_pow256_values();
    lemma_le_bytes_value(dsets.len(), 4);
    assert(whole.subrange(pos + 9 + ipayload.len() + 4, pos + payload_len) =~= pp) by {
        assert forall|t: int| 0 <= t < pp.len() implies whole[pos + 9 + ipayload.len() + 4 + t]
            == pp[t] by {
            assert(payload[9 + ipayload.len() + 4 + t] == whole[pos + 9 + ipayload.len() + 4 + t]);
            assert((fr + cb + pp)[fr.len() + 4 + t] == pp[t]);
        }
    }
}

} // verus!
