//! The set of option categories that an argument list carries.
use vstd::prelude::*;

verus! {

pub const INCLUDES: u32 = 0b00000001;
pub const INCLUDES_SYSTEM: u32 = 0b00000010;
pub const DEFINITIONS: u32 = 0b00000100;
pub const WARNINGS: u32 = 0b00001000;
pub const WARNINGS_AS_ERRORS: u32 = 0b00010000;
pub const STANDARD: u32 = 0b00100000;
pub const SOURCE: u32 = 0b01000000;
pub const OUTPUT: u32 = 0b10000000;
/// Every category.
pub const ALL: u32 = 0b11111111;
/// The categories that semantic indexing needs: include paths, system
/// include paths, definitions and the language standard.
pub const REQUIRED_FOR_INDEXING: u32 = 0b00100111;

/// A set of option categories, one bit each.
#[derive(Clone, Copy, Debug, PartialEq, Eq, Hash)]
pub struct CompileOptionFlags {
    bits: u32,
}

impl CompileOptionFlags {
    pub closed spec fn spec_bits(self) -> u32 {
        self.bits
    }

    /// Whether the category bit `bit` is in the set.
    pub open spec fn has(self, bit: u32) -> bool {
        self.spec_bits() & bit != 0
    }

    /// The set of the category bits in `bits`; other bits are dropped.
    pub fn from_bits_truncate(bits: u32) -> (r: Self)
        ensures
            r.spec_bits() == bits & ALL,
    {
        CompileOptionFlags { bits: bits & ALL }
    }

    pub fn bits(&self) -> (r: u32)
        ensures
            r == self.spec_bits(),
    {
        self.bits
    }

    pub fn empty() -> (r: Self)
        ensures
            r.spec_bits() == 0,
    {
        CompileOptionFlags { bits: 0 }
    }

    pub fn all() -> (r: Self)
        ensures
            r.spec_bits() == ALL,
    {
        CompileOptionFlags { bits: ALL }
    }

    pub closed spec fn indexing_flags() -> Self {
        CompileOptionFlags { bits: REQUIRED_FOR_INDEXING }
    }

    pub fn required_for_indexing() -> (r: Self)
        ensures
            r.spec_bits() == REQUIRED_FOR_INDEXING,
            r == Self::indexing_flags(),
    {
        CompileOptionFlags { bits: REQUIRED_FOR_INDEXING }
    }

    pub fn includes() -> (r: Self)
        ensures
            r.spec_bits() == INCLUDES,
    {
        CompileOptionFlags { bits: INCLUDES }
    }

    pub fn includes_system() -> (r: Self)
        ensures
            r.spec_bits() == INCLUDES_SYSTEM,
    {
        CompileOptionFlags { bits: INCLUDES_SYSTEM }
    }

    pub fn definitions() -> (r: Self)
        ensures
            r.spec_bits() == DEFINITIONS,
    {
        CompileOptionFlags { bits: DEFINITIONS }
    }

    pub fn warnings() -> (r: Self)
        ensures
            r.spec_bits() == WARNINGS,
    {
        CompileOptionFlags { bits: WARNINGS }
    }

    pub fn warnings_as_errors() -> (r: Self)
        ensures
            r.spec_bits() == WARNINGS_AS_ERRORS,
    {
        CompileOptionFlags { bits: WARNINGS_AS_ERRORS }
    }

    pub fn standard() -> (r: Self)
        ensures
            r.spec_bits() == STANDARD,
    {
        CompileOptionFlags { bits: STANDARD }
    }

    pub fn source() -> (r: Self)
        ensures
            r.spec_bits() == SOURCE,
    {
        CompileOptionFlags { bits: SOURCE }
    }

    pub fn output() -> (r: Self)
        ensures
            r.spec_bits() == OUTPUT,
    {
        CompileOptionFlags { bits: OUTPUT }
    }

    /// The categories in `self` or in `other`.
    pub fn union(self, other: Self) -> (r: Self)
        ensures
            r.spec_bits() == self.spec_bits() | other.spec_bits(),
    {
        CompileOptionFlags { bits: self.bits | other.bits }
    }

    /// The categories in `self` and in `other`.
    pub fn intersection(self, other: Self) -> (r: Self)
        ensures
            r.spec_bits() == self.spec_bits() & other.spec_bits(),
    {
        CompileOptionFlags { bits: self.bits & other.bits }
    }

    /// The categories in `self` but not in `other`.
    pub fn difference(self, other: Self) -> (r: Self)
        ensures
            r.spec_bits() == self.spec_bits() & !other.spec_bits(),
    {
        CompileOptionFlags { bits: self.bits & !other.bits }
    }

    /// Whether every category of `other` is in `self`.
    pub fn contains(&self, other: Self) -> (r: bool)
        ensures
            r == (self.spec_bits() & other.spec_bits() == other.spec_bits()),
    {
        self.bits & other.bits == other.bits
    }

    pub fn is_empty(&self) -> (r: bool)
        ensures
            r == (self.spec_bits() == 0),
    {
        self.bits == 0
    }

    /// Whether the single category bit `bit` is in the set.
    pub fn has_bit(&self, bit: u32) -> (r: bool)
        ensures
            r == self.has(bit),
    {
        self.bits & bit != 0
    }
}

} // verus!
