//! Declaration-space flags used by tree-shaking.

use oxc_syntax::symbol::SymbolFlags;
use vstd::prelude::*;

use crate::model::SymbolId;

verus! {

/// Why a name was determined to be needed in the bundle.
#[derive(Debug, Clone, Copy, PartialEq, Eq, Structural, Hash)]
pub enum NeededReason {
    EntryNamedReexport,
    EntryStarReexport,
    PropagationNamedReexport,
    PropagationStarReexport,
    SemanticDependency,
    NamespaceRequirement,
    CrossModuleImportDependency,
    InlineImportReference,
}

/// A set of declaration spaces (value space, type space) held as a two-bit mask.
#[derive(Debug, Clone, Copy, PartialEq, Eq)]
pub struct NeededKindFlags(pub u8);

/// The value-space bit.
pub const NEEDED_VALUE_BIT: u8 = 1;
/// The type-space bit.
pub const NEEDED_TYPE_BIT: u8 = 2;

impl Default for NeededKindFlags {
    /// The empty set.
    fn default() -> (r: Self)
        ensures
            r.0 == 0,
    {
        NeededKindFlags(0)
    }
}

impl NeededKindFlags {
    /// Whether the value space is in the set.
    pub open spec fn has_value(self) -> bool {
        self.0 & 1 != 0
    }

    /// Whether the type space is in the set.
    pub open spec fn has_type(self) -> bool {
        self.0 & 2 != 0
    }

    /// The empty set.
    pub fn none() -> (r: Self)
        ensures
            r.0 == 0,
    {
        NeededKindFlags(0)
    }

    /// The value space alone.
    pub fn value() -> (r: Self)
        ensures
            r.0 == 1,
    {
        NeededKindFlags(1)
    }

    /// The type space alone.
    pub fn type_space() -> (r: Self)
        ensures
            r.0 == 2,
    {
        NeededKindFlags(2)
    }

    /// Both spaces.
    pub fn all() -> (r: Self)
        ensures
            r.0 == 3,
    {
        NeededKindFlags(3)
    }

    /// Set union.
    pub fn union(self, other: Self) -> (r: Self)
        ensures
            r.0 == self.0 | other.0,
    {
        NeededKindFlags(self.0 | other.0)
    }

    /// Set intersection.
    pub fn intersection(self, other: Self) -> (r: Self)
        ensures
            r.0 == self.0 & other.0,
    {
        NeededKindFlags(self.0 & other.0)
    }

    /// Whether the two sets share a space.
    pub fn intersects(self, other: Self) -> (r: bool)
        ensures
            r == (self.0 & other.0 != 0),
    {
        (self.0 & other.0) != 0
    }

    /// Whether the set is empty.
    pub fn is_empty(self) -> (r: bool)
        ensures
            r == (self.0 == 0),
    {
        self.0 == 0
    }
}

/// Bits of `SymbolFlags::Value | SymbolFlags::Import`.
pub const VALUE_REFERENCE_MASK: u32 = 40043;

/// Bits of `Type | TypeImport | Import | Namespace`.
pub const TYPE_REFERENCE_MASK: u32 = 65480;

/// Bits of `Import | TypeImport`.
pub const IMPORT_MASK: u32 = 192;

/// Bits of `Type | Value | Namespace`.
pub const NAMING_MASK: u32 = 65323;

/// `SymbolFlags::can_be_referenced_by_value`: the flags intersect
/// `Value | Import` (variables, classes, functions, enums, enum members,
/// value modules, and imports).
#[verifier::external_body]
pub(crate) fn symbol_can_be_referenced_by_value(bits: u32) -> (r: bool)
    ensures
        r == (bits & VALUE_REFERENCE_MASK != 0),
{
    SymbolFlags::from_bits_retain(bits).can_be_referenced_by_value()
}

/// `SymbolFlags::can_be_referenced_by_type`: the flags intersect
/// `Type | TypeImport | Import | Namespace`.
#[verifier::external_body]
pub(crate) fn symbol_can_be_referenced_by_type(bits: u32) -> (r: bool)
    ensures
        r == (bits & TYPE_REFERENCE_MASK != 0),
{
    SymbolFlags::from_bits_retain(bits).can_be_referenced_by_type()
}

/// `SymbolFlags::is_import`: the flags intersect `Import | TypeImport`.
#[verifier::external_body]
pub(crate) fn symbol_is_import(bits: u32) -> (r: bool)
    ensures
        r == (bits & IMPORT_MASK != 0),
{
    SymbolFlags::from_bits_retain(bits).is_import()
}

/// `SymbolFlags::intersects`: whether the flags `bits` and `mask` share a bit.
#[verifier::external_body]
pub(crate) fn symbol_flags_intersect(bits: u32, mask: u32) -> (r: bool)
    ensures
        r == (bits & mask != 0),
{
    SymbolFlags::from_bits_retain(bits).intersects(SymbolFlags::from_bits_retain(mask))
}

/// Whether a symbol lives in a space where two top-level names collide
/// (type, value or namespace).
pub fn symbol_participates_in_naming(bits: u32) -> (r: bool)
    ensures
        r == (bits & NAMING_MASK != 0),
{
    symbol_flags_intersect(bits, NAMING_MASK)
}

/// The declaration spaces a symbol with flag bits `bits` can be referenced from.
pub open spec fn kinds_of_symbol_flags(bits: u32) -> u8 {
    (if bits & VALUE_REFERENCE_MASK != 0 { 1u8 } else { 0u8 }) | (if bits & TYPE_REFERENCE_MASK
        != 0 {
        2u8
    } else {
        0u8
    })
}

impl NeededKindFlags {
    /// The declaration spaces a symbol can be referenced from, from its flag bits.
    pub fn from_symbol_flags(flags: u32) -> (r: Self)
        ensures
            r.0 == kinds_of_symbol_flags(flags),
    {
        let mut kinds = Self::none();
        if symbol_can_be_referenced_by_value(flags) {
            kinds = kinds.union(Self::value());
        }
        if symbol_can_be_referenced_by_type(flags) {
            kinds = kinds.union(Self::type_space());
        }
        assert(0u8 | 1u8 == 1u8) by (bit_vector);
        assert(0u8 | 2u8 == 2u8) by (bit_vector);
        assert(1u8 | 2u8 == 3u8) by (bit_vector);
        assert(0u8 | 0u8 == 0u8) by (bit_vector);
        assert(1u8 | 0u8 == 1u8) by (bit_vector);
        kinds
    }
}

/// Laws of the kind-set operations: union and intersection are commutative,
/// associative and idempotent; two sets intersect exactly when their
/// intersection is not empty; a union is empty exactly when both parts are.
pub proof fn law_needed_kind_set_algebra(a: NeededKindFlags, b: NeededKindFlags, c: NeededKindFlags)
    ensures
        a.0 | b.0 == b.0 | a.0,
        a.0 & b.0 == b.0 & a.0,
        (a.0 | b.0) | c.0 == a.0 | (b.0 | c.0),
        (a.0 & b.0) & c.0 == a.0 & (b.0 & c.0),
        a.0 | a.0 == a.0,
        a.0 & a.0 == a.0,
        ((a.0 | b.0) == 0) == (a.0 == 0 && b.0 == 0),
        a.0 & (b.0 | c.0) == (a.0 & b.0) | (a.0 & c.0),
{
    let (x, y, z) = (a.0, b.0, c.0);
    assert(x | y == y | x) by (bit_vector);
    assert(x & y == y & x) by (bit_vector);
    assert((x | y) | z == x | (y | z)) by (bit_vector);
    assert((x & y) & z == x & (y & z)) by (bit_vector);
    assert(x | x == x) by (bit_vector);
    assert(x & x == x) by (bit_vector);
    assert(((x | y) == 0) == (x == 0 && y == 0)) by (bit_vector);
    assert(x & (y | z) == (x & y) | (x & z)) by (bit_vector);
}


/// The first position of symbol `s` among the references `refs`.
pub open spec fn reference_position(refs: Seq<(SymbolId, NeededKindFlags)>, s: SymbolId) -> Option<int>
    decreases refs.len(),
{
    if refs.len() == 0 {
        None
    } else {
        match reference_position(refs.drop_last(), s) {
            Some(i) => Some(i),
            None => if refs.last().0 == s {
                Some(refs.len() - 1)
            } else {
                None
            },
        }
    }
}

proof fn lemma_reference_position(refs: Seq<(SymbolId, NeededKindFlags)>, s: SymbolId)
    ensures
        match reference_position(refs, s) {
            Some(i) => 0 <= i < refs.len() && refs[i].0 == s && forall|j: int| 0 <= j < i ==> refs[j].0 != s,
            None => forall|j: int| 0 <= j < refs.len() ==> refs[j].0 != s,
        },
    decreases refs.len(),
{
    if refs.len() > 0 {
        let init = refs.drop_last();
        lemma_reference_position(init, s);
        assert(forall|j: int| 0 <= j < init.len() ==> init[j] == refs[j]);
    }
}

/// Records that a declaration refers to root symbol `s` in the spaces
/// `kinds`: the spaces join those of the symbol's entry where it has one,
/// else the symbol is appended with them.
pub fn record_reference(refs: &mut Vec<(SymbolId, NeededKindFlags)>, s: SymbolId, kinds: NeededKindFlags)
    ensures
        final(refs)@ == match reference_position(old(refs)@, s) {
            Some(i) => old(refs)@.update(i, (s, NeededKindFlags(old(refs)@[i].1.0 | kinds.0))),
            None => old(refs)@.push((s, kinds)),
        },
{
    proof {
        lemma_reference_position(refs@, s);
    }
    let mut i: usize = 0;
    while i < refs.len()
        invariant
            0 <= i <= refs@.len(),
            refs@ == old(refs)@,
            forall|j: int| 0 <= j < i ==> refs@[j].0 != s,
            match reference_position(old(refs)@, s) {
                Some(k) => 0 <= k < refs@.len() && refs@[k].0 == s && forall|j: int| 0 <= j < k ==> refs@[j].0 != s,
                None => forall|j: int| 0 <= j < refs@.len() ==> refs@[j].0 != s,
            },
        decreases refs@.len() - i,
    {
        if refs[i].0 == s {
            let joined = refs[i].1.union(kinds);
            refs.set(i, (s, joined));
            return;
        }
        i += 1;
    }
    refs.push((s, kinds));
}

} // verus!
