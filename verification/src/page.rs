use vstd::prelude::*;

use crate::bytes::{lemma_pow256_values, pow256};

verus! {

/// The primitive type of a page. A page stores every value as the raw
/// little-endian bit pattern of its type, widened into a `u64`; the kind
/// records the byte width and how the bit patterns are ordered. Floats are
/// carried as their IEEE-754 bit patterns and are never reinterpreted, so a
/// round trip is bit-exact.
#[derive(Clone, Copy, Debug, PartialEq, Eq, Structural)]
pub enum PrimKind {
    I8,
    I16,
    I32,
    I64,
    U8,
    U16,
    U32,
    U64,
    F32,
    F64,
}

/// The byte width of a kind.
pub open spec fn kind_width(k: PrimKind) -> nat {
    match k {
        PrimKind::I8 => 1,
        PrimKind::I16 => 2,
        PrimKind::I32 => 4,
        PrimKind::I64 => 8,
        PrimKind::U8 => 1,
        PrimKind::U16 => 2,
        PrimKind::U32 => 4,
        PrimKind::U64 => 8,
        PrimKind::F32 => 4,
        PrimKind::F64 => 8,
    }
}

/// Whether the stored bit patterns are ordered as two's-complement signed
/// integers. Float bit patterns are compared as unsigned integers: their
/// order is never used by a codec's wire format, only by cost estimates.
pub open spec fn kind_signed(k: PrimKind) -> bool {
    match k {
        PrimKind::I8 => true,
        PrimKind::I16 => true,
        PrimKind::I32 => true,
        PrimKind::I64 => true,
        _ => false,
    }
}

/// One more than the largest bit pattern a value of kind `k` can hold.
pub open spec fn kind_bound(k: PrimKind) -> nat {
    pow256(kind_width(k))
}

/// The integer that the bit pattern `v` denotes under kind `k`'s order:
/// the pattern itself for unsigned kinds, the two's-complement reading for
/// signed ones.
pub open spec fn as_ordered(k: PrimKind, v: u64) -> int {
    if kind_signed(k) && 2 * (v as nat) >= kind_bound(k) {
        v - kind_bound(k)
    } else {
        v as int
    }
}

impl PrimKind {
    /// Returns the byte width of this kind.
    pub fn width(&self) -> (r: usize)
        ensures
            r == kind_width(*self),
            1 <= r <= 8,
    {
        match self {
            PrimKind::I8 => 1,
            PrimKind::I16 => 2,
            PrimKind::I32 => 4,
            PrimKind::I64 => 8,
            PrimKind::U8 => 1,
            PrimKind::U16 => 2,
            PrimKind::U32 => 4,
            PrimKind::U64 => 8,
            PrimKind::F32 => 4,
            PrimKind::F64 => 8,
        }
    }

    /// Returns `kind_bound` as a `u128`.
    pub fn bound128(&self) -> (r: u128)
        ensures
            r == kind_bound(*self),
    {
        proof {
            lemma_pow256_values();
        }
        match self {
            PrimKind::I8 => 0x100,
            PrimKind::I16 => 0x1_0000,
            PrimKind::I32 => 0x1_0000_0000,
            PrimKind::I64 => 0x1_0000_0000_0000_0000,
            PrimKind::U8 => 0x100,
            PrimKind::U16 => 0x1_0000,
            PrimKind::U32 => 0x1_0000_0000,
            PrimKind::U64 => 0x1_0000_0000_0000_0000,
            PrimKind::F32 => 0x1_0000_0000,
            PrimKind::F64 => 0x1_0000_0000_0000_0000,
        }
    }

    /// Decides whether the pattern `a` comes strictly before `b` in this
    /// kind's value order.
    pub fn value_lt(&self, a: u64, b: u64) -> (r: bool)
        requires
            (a as nat) < kind_bound(*self),
            (b as nat) < kind_bound(*self),
        ensures
            r == (as_ordered(*self, a) < as_ordered(*self, b)),
    {
        proof {
            lemma_pow256_values();
        }
        if self.is_signed() {
            let bound: u128 = self.bound128();
            let a_neg: bool = 2 * (a as u128) >= bound;
            let b_neg: bool = 2 * (b as u128) >= bound;
            if a_neg == b_neg {
                a < b
            } else {
                a_neg
            }
        } else {
            a < b
        }
    }

    /// Returns the ordered reading of the pattern `v` as a wide integer.
    pub fn ordered_val(&self, v: u64) -> (r: i128)
        requires
            (v as nat) < kind_bound(*self),
        ensures
            r as int == as_ordered(*self, v),
    {
        proof {
            lemma_pow256_values();
        }
        if self.is_signed() {
            let bound: u128 = self.bound128();
            if 2 * (v as u128) >= bound {
                (v as i128) - (bound as i128)
            } else {
                v as i128
            }
        } else {
            v as i128
        }
    }

    /// Whether this kind orders its bit patterns as signed integers.
    pub fn is_signed(&self) -> (r: bool)
        ensures
            r == kind_signed(*self),
    {
        match self {
            PrimKind::I8 => true,
            PrimKind::I16 => true,
            PrimKind::I32 => true,
            PrimKind::I64 => true,
            _ => false,
        }
    }
}

/// A page of primitive values: `values[i]` is the little-endian bit pattern
/// of slot `i`, and `validity` (when present) tells which slots hold a value.
/// When `validity` is absent every slot is present. A null slot still has a
/// storage pattern; codecs may preserve or discard it, and decoders must not
/// let it influence the decoded present slots.
pub struct PrimitivePage {
    pub kind: PrimKind,
    pub values: Vec<u64>,
    pub validity: Option<Vec<bool>>,
}

impl PrimitivePage {
    /// Well-formed: every pattern fits the kind's width and the validity
    /// bitmap, if any, has one bit per slot.
    pub open spec fn wf(self) -> bool {
        &&& forall|i: int|
            0 <= i < self.values@.len() ==> (self.values@[i] as nat) < kind_bound(self.kind)
        &&& match self.validity {
            Some(v) => v@.len() == self.values@.len(),
            None => true,
        }
    }

    /// The presence bit of every slot, with an absent bitmap meaning
    /// all-present.
    pub open spec fn valid_seq(self) -> Seq<bool> {
        match self.validity {
            Some(v) => v@,
            None => Seq::new(self.values@.len(), |i: int| true),
        }
    }

    pub open spec fn spec_len(self) -> nat {
        self.values@.len()
    }

    /// Returns the number of slots of the page.
    pub fn len(&self) -> (r: usize)
        ensures
            r == self.spec_len(),
    {
        self.values.len()
    }

    /// Reads the presence bit of slot `i`.
    pub fn is_present(&self, i: usize) -> (r: bool)
        requires
            self.wf(),
            i < self.spec_len(),
        ensures
            r == self.valid_seq()[i as int],
    {
        match &self.validity {
            Some(v) => v[i],
            None => true,
        }
    }
}

/// A page of booleans with an optional validity bitmap of the same length.
pub struct BooleanPage {
    pub values: Vec<bool>,
    pub validity: Option<Vec<bool>>,
}

impl BooleanPage {
    pub open spec fn wf(self) -> bool {
        match self.validity {
            Some(v) => v@.len() == self.values@.len(),
            None => true,
        }
    }

    pub open spec fn valid_seq(self) -> Seq<bool> {
        match self.validity {
            Some(v) => v@,
            None => Seq::new(self.values@.len(), |i: int| true),
        }
    }

    pub open spec fn spec_len(self) -> nat {
        self.values@.len()
    }

    /// Returns the number of slots of the page.
    pub fn len(&self) -> (r: usize)
        ensures
            r == self.spec_len(),
    {
        self.values.len()
    }

    /// Reads the presence bit of slot `i`.
    pub fn is_present(&self, i: usize) -> (r: bool)
        requires
            self.wf(),
            i < self.spec_len(),
        ensures
            r == self.valid_seq()[i as int],
    {
        match &self.validity {
            Some(v) => v[i],
            None => true,
        }
    }
}

/// The ordered reading is injective on patterns of one width: two equal
/// readings are the same pattern.
pub proof fn lemma_as_ordered_injective(k: PrimKind, a: u64, b: u64)
    requires
        (a as nat) < kind_bound(k),
        (b as nat) < kind_bound(k),
        as_ordered(k, a) == as_ordered(k, b),
    ensures
        a == b,
{
}

/// The validity of a page with no bitmap: every slot present.
pub open spec fn all_true(n: nat) -> Seq<bool> {
    Seq::new(n, |i: int| true)
}

/// Masked equality against an all-present bitmap is plain equality.
pub proof fn lemma_masked_all_true(decoded: Seq<u64>, original: Seq<u64>)
    requires
        crate::page::masked_eq(decoded, original, all_true(original.len())),
    ensures
        decoded == original,
{
    assert(decoded =~= original);
}

/// Two storage sequences agree on every present slot.
pub open spec fn masked_eq(decoded: Seq<u64>, original: Seq<u64>, valid: Seq<bool>) -> bool {
    &&& decoded.len() == original.len()
    &&& forall|i: int|
        0 <= i < original.len() && valid[i] ==> decoded[i] == original[i]
}

/// Two boolean sequences agree on every present slot.
pub open spec fn masked_eq_bool(decoded: Seq<bool>, original: Seq<bool>, valid: Seq<bool>) -> bool {
    &&& decoded.len() == original.len()
    &&& forall|i: int|
        0 <= i < original.len() && valid[i] ==> decoded[i] == original[i]
}

} // verus!
