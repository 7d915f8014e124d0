use vstd::prelude::*;

use std::collections::HashMap;

use crate::page::{as_ordered, kind_bound, kind_width, PrimKind, PrimitivePage};

verus! {

broadcast use
    vstd::std_specs::hash::group_hash_axioms,
    vstd::set::group_set_axioms,
    vstd::seq_lib::seq_to_set_is_finite,
;

/// The largest slot count a page may have. The page frame stores byte sizes
/// as `u32`, and every codec of this catalog stays within `32` payload bytes
/// per value plus a constant, so this bound keeps all frames below 4 GiB.
pub const MAX_PAGE_LEN: usize = 0x0400_0000;

/// The multiplicity of `v` in `s`.
pub open spec fn count_eq(s: Seq<u64>, v: u64) -> nat
    decreases s.len(),
{
    if s.len() == 0 {
        0
    } else {
        count_eq(s.drop_last(), v) + if s.last() == v {
            1nat
        } else {
            0nat
        }
    }
}

/// The number of `true` bits in a boolean sequence.
pub open spec fn count_true(s: Seq<bool>) -> nat
    decreases s.len(),
{
    if s.len() == 0 {
        0
    } else {
        count_true(s.drop_last()) + if s.last() {
            1nat
        } else {
            0nat
        }
    }
}

/// The subsequence of the values whose slots are present.
pub open spec fn present_values(vals: Seq<u64>, valid: Seq<bool>) -> Seq<u64>
    decreases vals.len(),
{
    if vals.len() == 0 {
        Seq::empty()
    } else {
        present_values(vals.drop_last(), valid.drop_last()) + if valid[vals.len() - 1] {
            seq![vals.last()]
        } else {
            Seq::empty()
        }
    }
}

/// The number of maximal runs of equal adjacent values in `s`.
pub open spec fn runs_of(s: Seq<u64>) -> nat
    decreases s.len(),
{
    if s.len() == 0 {
        0
    } else if s.len() == 1 {
        1
    } else {
        runs_of(s.drop_last()) + if s[s.len() - 1] == s[s.len() - 2] {
            0nat
        } else {
            1nat
        }
    }
}

/// The present values of the page appear in non-decreasing order.
pub open spec fn present_sorted(k: PrimKind, vals: Seq<u64>, valid: Seq<bool>) -> bool {
    forall|i: int, j: int|
        0 <= i < j < vals.len() && valid[i] && valid[j] ==> as_ordered(k, vals[i]) <= as_ordered(
            k,
            vals[j],
        )
}

/// The single-pass summary of an integer (or float bit pattern) page that
/// the codec selection policy reads. `run_count` is the number of runs of
/// the present subsequence; the average run length of the page is
/// `tuple_count / run_count`.
pub struct IntegerStats {
    pub kind: PrimKind,
    pub tuple_count: usize,
    pub total_bytes: usize,
    pub null_count: usize,
    pub set_count: usize,
    pub run_count: usize,
    pub is_sorted: bool,
    pub min: u64,
    pub max: u64,
    pub unique_count: usize,
    pub top_value: u64,
    pub top_count: usize,
    pub present_uniform: bool,
}

impl IntegerStats {
    /// What each field of the summary says about the page it was taken from.
    pub open spec fn describes(self, page: PrimitivePage) -> bool {
        let vals = page.values@;
        let valid = page.valid_seq();
        let k = page.kind;
        &&& self.kind == k
        &&& self.tuple_count == vals.len()
        &&& self.total_bytes == vals.len() * kind_width(k)
        &&& self.set_count == count_true(valid)
        &&& self.null_count == vals.len() - count_true(valid)
        &&& self.run_count == runs_of(present_values(vals, valid))
        &&& self.is_sorted == present_sorted(k, vals, valid)
        &&& self.unique_count == vals.to_set().len()
        &&& forall|i: int|
            0 <= i < vals.len() ==> as_ordered(k, self.min) <= as_ordered(k, vals[i])
                && as_ordered(k, vals[i]) <= as_ordered(k, self.max)
        &&& if vals.len() == 0 {
            self.min == 0 && self.max == 0
        } else {
            vals.contains(self.min) && vals.contains(self.max)
        }
        &&& count_eq(vals, self.top_value) == self.top_count
        &&& forall|v: u64| count_eq(vals, v) <= self.top_count
        &&& vals.len() == 0 ==> self.top_value == 0
        &&& self.present_uniform == crate::one_value::ov_gate(vals, valid)
    }
}

/// Appending one element to a sequence extends its set of elements by it.
pub proof fn lemma_to_set_push(s: Seq<u64>, x: u64)
    ensures
        s.push(x).to_set() =~= s.to_set().insert(x),
{
    assert forall|a: u64| s.push(x).to_set().contains(a) implies s.to_set().insert(x).contains(
        a,
    ) by {
        let i = choose|i: int| 0 <= i < s.push(x).len() && s.push(x)[i] == a;
        if i < s.len() {
            assert(s.contains(a));
        }
    }
    assert forall|a: u64| s.to_set().insert(x).contains(a) implies s.push(x).to_set().contains(
        a,
    ) by {
        if s.to_set().contains(a) {
            let i = choose|i: int| 0 <= i < s.len() && s[i] == a;
            assert(s.push(x)[i] == a);
        } else {
            assert(s.push(x)[s.len() as int] == x);
        }
        assert(s.push(x).contains(a));
    }
}

/// Appending one element adds one to its multiplicity and leaves the other
/// multiplicities alone.
pub proof fn lemma_count_eq_push(s: Seq<u64>, x: u64, v: u64)
    ensures
        count_eq(s.push(x), v) == count_eq(s, v) + if v == x {
            1nat
        } else {
            0nat
        },
{
    assert(s.push(x).drop_last() =~= s);
    assert(s.push(x).last() == x);
}

/// A multiplicity never exceeds the sequence length.
pub proof fn lemma_count_eq_le_len(s: Seq<u64>, v: u64)
    ensures
        count_eq(s, v) <= s.len(),
    decreases s.len(),
{
    if s.len() > 0 {
        lemma_count_eq_le_len(s.drop_last(), v);
    }
}

/// Computes the single-pass statistics of a page.
///
/// The distinct-value histogram is kept in a hash map during the pass and is
/// read out only through its cardinality and its most frequent entry; null
/// slots contribute their storage pattern to the histogram and to min/max,
/// which is harmless because the consumers gate on null counts first.
#[verifier::rlimit(100)]
#[verifier::spinoff_prover]
pub fn gen_stats(array: &PrimitivePage) -> (r: IntegerStats)
    requires
        array.wf(),
        array.spec_len() <= MAX_PAGE_LEN,
    ensures
        r.describes(*array),
{
    let len: usize = array.len();
    let width: usize = array.kind.width();
    let ghost vals = array.values@;
    let ghost valid = array.valid_seq();

    let mut counts: HashMap<u64, usize> = HashMap::new();
    let mut null_count: usize = 0;
    let mut run_count: usize = 0;
    let mut is_sorted: bool = true;
    let mut min: u64 = 0;
    let mut max: u64 = 0;
    let mut top_value: u64 = 0;
    let mut top_count: usize = 0;
    let mut has_last: bool = false;
    let mut last_value: u64 = 0;
    let ghost mut last_idx: int = 0;
    let mut first_value: u64 = 0;
    let mut present_uniform: bool = true;
    let ghost mut first_idx: int = 0;
    let ghost mut bad_idx: int = 0;

    let mut i: usize = 0;
    proof {
        assert(vals.take(0) =~= Seq::<u64>::empty());
        assert(valid.take(0) =~= Seq::<bool>::empty());
        assert(counts@.dom() =~= vals.take(0).to_set());
    }
    while i < len
        invariant
            array.wf(),
            len == vals.len() <= MAX_PAGE_LEN,
            vals == array.values@,
            valid == array.valid_seq(),
            valid.len() == len,
            i <= len,
            counts@.dom() == vals.take(i as int).to_set(),
            forall|v: u64|
                count_eq(vals.take(i as int), v) == if counts@.contains_key(v) {
                    counts@[v] as nat
                } else {
                    0nat
                },
            null_count == i - count_true(valid.take(i as int)),
            run_count <= i,
            top_count <= i,
            run_count == runs_of(present_values(vals.take(i as int), valid.take(i as int))),
            has_last == (present_values(vals.take(i as int), valid.take(i as int)).len() > 0),
            has_last ==> 0 <= last_idx < i && valid[last_idx] && vals[last_idx] == last_value
                && last_value == present_values(vals.take(i as int), valid.take(i as int)).last(),
            is_sorted ==> present_sorted(array.kind, vals.take(i as int), valid.take(i as int)),
            !is_sorted ==> !present_sorted(array.kind, vals, valid),
            is_sorted && has_last ==> forall|t: int|
                0 <= t < i && valid[t] ==> as_ordered(array.kind, vals[t]) <= as_ordered(
                    array.kind,
                    last_value,
                ),
            !has_last ==> forall|t: int| 0 <= t < i ==> !valid[t],
            !has_last ==> present_uniform,
            has_last ==> 0 <= first_idx < i && valid[first_idx] && vals[first_idx] == first_value
                && (forall|t: int| 0 <= t < first_idx ==> !valid[t]),
            present_uniform ==> forall|t: int|
                0 <= t < i && valid[t] ==> vals[t] == first_value,
            !present_uniform ==> has_last && 0 <= bad_idx < i && valid[bad_idx] && vals[bad_idx]
                != first_value,
            i == 0 ==> min == 0 && max == 0 && top_value == 0 && top_count == 0,
            i > 0 ==> vals.take(i as int).contains(min) && vals.take(i as int).contains(max),
            forall|t: int|
                0 <= t < i ==> as_ordered(array.kind, min) <= as_ordered(array.kind, vals[t])
                    && as_ordered(array.kind, vals[t]) <= as_ordered(array.kind, max),
            count_eq(vals.take(i as int), top_value) == top_count,
            forall|v: u64| count_eq(vals.take(i as int), v) <= top_count as nat,
        decreases len - i,
    {
        let v: u64 = array.values[i];
        let present: bool = array.is_present(i);
        let ghost entry_last = last_value;
        let ghost entry_has = has_last;
        proof {
            assert(vals.take(i + 1).drop_last() =~= vals.take(i as int));
            assert(valid.take(i + 1).drop_last() =~= valid.take(i as int));
            assert(vals.take(i + 1) =~= vals.take(i as int).push(v));
            assert(vals.take(i + 1).last() == v);
            assert(valid.take(i + 1).last() == valid[i as int]);
            lemma_to_set_push(vals.take(i as int), v);
        }

        // run length and sortedness over the present subsequence
        let ghost ps = present_values(vals.take(i as int), valid.take(i as int));
        let ghost ps1 = present_values(vals.take(i + 1), valid.take(i + 1));
        if present {
            proof {
                assert(ps1 =~= ps.push(v));
                if ps.len() > 0 {
                    assert(ps1.drop_last() =~= ps);
                    assert(ps1[ps1.len() - 2] == ps.last());
                }
            }
            if !has_last {
                run_count = run_count + 1;
            } else {
                if array.kind.value_lt(v, last_value) {
                    proof {
                        assert(!present_sorted(array.kind, vals, valid)) by {
                            assert(valid[last_idx] && valid[i as int]);
                            assert(as_ordered(array.kind, vals[i as int]) < as_ordered(
                                array.kind,
                                vals[last_idx],
                            ));
                        }
                    }
                    is_sorted = false;
                }
                if v != last_value {
                    run_count = run_count + 1;
                }
            }
            proof {
                if is_sorted {
                    assert(present_sorted(array.kind, vals.take(i + 1), valid.take(i + 1))) by {
                        assert forall|a: int, b: int|
                            0 <= a < b < i + 1 && #[trigger] valid.take(i + 1)[a]
                                && #[trigger] valid.take(i + 1)[b]
                        implies as_ordered(array.kind, vals.take(i + 1)[a]) <= as_ordered(
                            array.kind,
                            vals.take(i + 1)[b],
                        ) by {
                            assert(vals.take(i + 1)[a] == vals[a] && vals.take(i + 1)[b]
                                == vals[b]);
                            if b == i {
                                assert(valid[a] && a < i);
                                lemma_present_nonempty(
                                    vals.take(i as int),
                                    valid.take(i as int),
                                    a,
                                );
                                assert(as_ordered(array.kind, vals[a]) <= as_ordered(
                                    array.kind,
                                    last_value,
                                ));
                                assert(as_ordered(array.kind, last_value) <= as_ordered(
                                    array.kind,
                                    v,
                                ));
                            } else {
                                assert(valid.take(i as int)[a] && valid.take(i as int)[b]);
                            }
                        }
                    }
                }
            }
            if !has_last {
                first_value = v;
                proof {
                    first_idx = i as int;
                }
            } else {
                if v != first_value {
                    present_uniform = false;
                    proof {
                        bad_idx = i as int;
                    }
                }
            }
            has_last = true;
            last_value = v;
            proof {
                last_idx = i as int;
            }
            proof {
                if is_sorted {
                    assert forall|t: int| 0 <= t < i + 1 && #[trigger] valid[t] implies as_ordered(
                        array.kind,
                        vals[t],
                    ) <= as_ordered(array.kind, last_value) by {
                        if t < i {
                            if entry_has {
                                assert(as_ordered(array.kind, vals[t]) <= as_ordered(
                                    array.kind,
                                    entry_last,
                                ));
                            } else {
                                lemma_present_nonempty(
                                    vals.take(i as int),
                                    valid.take(i as int),
                                    t,
                                );
                            }
                        }
                    }
                }
            }
        } else {
            proof {
                assert(ps1 =~= ps);
                if is_sorted {
                    assert(present_sorted(array.kind, vals.take(i + 1), valid.take(i + 1))) by {
                        assert forall|a: int, b: int|
                            0 <= a < b < i + 1 && #[trigger] valid.take(i + 1)[a]
                                && #[trigger] valid.take(i + 1)[b]
                        implies as_ordered(array.kind, vals.take(i + 1)[a]) <= as_ordered(
                            array.kind,
                            vals.take(i + 1)[b],
                        ) by {
                            assert(b != i);
                            assert(valid.take(i as int)[a] && valid.take(i as int)[b]);
                            assert(vals.take(i + 1)[a] == vals[a] && vals.take(i + 1)[b]
                                == vals[b]);
                        }
                    }
                }
            }
            null_count = null_count + 1;
        }

        // min and max over every storage slot
        if i == 0 {
            min = v;
            max = v;
        } else {
            if array.kind.value_lt(v, min) {
                min = v;
            }
            if array.kind.value_lt(max, v) {
                max = v;
            }
        }
        proof {
            assert(vals.take(i + 1)[i as int] == v);
            assert(vals.take(i + 1).contains(v));
            if i > 0 {
                lemma_contains_take_extend(vals, i as int, min);
                lemma_contains_take_extend(vals, i as int, max);
            }
        }

        // distinct-value histogram and its most frequent entry
        proof {
            lemma_count_eq_le_len(vals.take(i as int), v);
        }
        let c: usize = match counts.get(&v) {
            Some(c0) => *c0 + 1,
            None => 1,
        };
        counts.insert(v, c);
        proof {
            assert forall|u: u64|
                #[trigger] count_eq(vals.take(i + 1), u) == (if counts@.contains_key(u) {
                    counts@[u] as nat
                } else {
                    0nat
                }) by {
                lemma_count_eq_push(vals.take(i as int), v, u);
            }
            assert(counts@.dom() =~= vals.take(i + 1).to_set());
        }
        if c > top_count {
            top_value = v;
            top_count = c;
        }
        proof {
            assert forall|u: u64| #[trigger] count_eq(vals.take(i + 1), u) <= top_count as nat by {
                lemma_count_eq_push(vals.take(i as int), v, u);
            }
            lemma_count_eq_push(vals.take(i as int), v, top_value);
        }
        i = i + 1;
    }

    let unique_count: usize = counts.len();
    proof {
        assert(vals.take(len as int) =~= vals);
        assert(valid.take(len as int) =~= valid);
        broadcast use vstd::seq_lib::group_seq_properties;
    }
    let set_count: usize = len - null_count;
    proof {
        assert(count_true(valid) <= valid.len()) by {
            lemma_count_true_le_len(valid);
        }
        assert(len * width <= MAX_PAGE_LEN * 8) by (nonlinear_arith)
            requires
                len <= MAX_PAGE_LEN,
                width <= 8,
        ;
    }
    proof {
        if has_last {
            crate::one_value::lemma_ov_value_first(vals, valid, first_idx);
        } else {
            crate::one_value::lemma_ov_value_none(vals, valid);
        }
        if present_uniform {
            assert(crate::one_value::ov_gate(vals, valid));
        } else {
            assert(vals[bad_idx] != crate::one_value::ov_value(vals, valid));
            assert(!crate::one_value::ov_gate(vals, valid));
        }
    }
    IntegerStats {
        kind: array.kind,
        tuple_count: len,
        total_bytes: len * width,
        null_count,
        set_count,
        run_count,
        is_sorted,
        min,
        max,
        unique_count,
        top_value,
        top_count,
        present_uniform,
    }
}

/// The count of set bits never exceeds the length.
pub proof fn lemma_count_true_le_len(s: Seq<bool>)
    ensures
        count_true(s) <= s.len(),
    decreases s.len(),
{
    if s.len() > 0 {
        lemma_count_true_le_len(s.drop_last());
    }
}

/// A prefix that contains an element keeps containing it when extended,
/// and a present slot keeps the present subsequence non-empty.
pub proof fn lemma_contains_take_extend(vals: Seq<u64>, i: int, x: u64)
    requires
        0 <= i < vals.len(),
    ensures
        vals.take(i).contains(x) || x == vals[i] ==> vals.take(i + 1).contains(x),
{
    if vals.take(i).contains(x) {
        let j = choose|j: int| 0 <= j < i && vals.take(i)[j] == x;
        assert(vals.take(i + 1)[j] == x);
    } else if x == vals[i] {
        assert(vals.take(i + 1)[i] == x);
    }
}

/// A present slot makes the present subsequence non-empty.
pub proof fn lemma_present_nonempty(vals: Seq<u64>, valid: Seq<bool>, a: int)
    requires
        vals.len() == valid.len(),
        0 <= a < vals.len(),
        valid[a],
    ensures
        present_values(vals, valid).len() > 0,
    decreases vals.len(),
{
    if a < vals.len() - 1 {
        lemma_present_nonempty(vals.drop_last(), valid.drop_last(), a);
    }
}

} // verus!
