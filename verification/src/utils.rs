//! The option set that steers matching.

use vstd::prelude::*;

verus! {

/// Bit of the option "letters match regardless of case".
pub const IGNORECASE_BIT: u8 = 1;

/// Bit of the option "line anchors match at every line".
pub const MULTILINE_BIT: u8 = 2;

/// Bit of the option "the dot also matches a newline".
pub const DOTALL_BIT: u8 = 4;

/// Bit of the option "white space and comments in the pattern are ignored".
pub const FREESPACING_BIT: u8 = 8;

/// A set of matching options, held as bits.
#[derive(Clone, Copy, Debug, PartialEq, Eq, Hash, Structural)]
pub struct RegexFlags {
    pub bits: u8,
}

impl RegexFlags {
    /// The set this value and `other` make together.
    pub open spec fn spec_union(self, other: RegexFlags) -> RegexFlags {
        RegexFlags { bits: self.bits | other.bits }
    }

    /// Whether every option of `other` is in this set.
    pub open spec fn spec_contains(self, other: RegexFlags) -> bool {
        self.bits & other.bits == other.bits
    }

    pub open spec fn spec_no_flag() -> RegexFlags {
        RegexFlags { bits: 0 }
    }

    pub open spec fn spec_ignore_case() -> RegexFlags {
        RegexFlags { bits: IGNORECASE_BIT }
    }

    pub open spec fn spec_multiline() -> RegexFlags {
        RegexFlags { bits: MULTILINE_BIT }
    }

    pub open spec fn spec_dot_all() -> RegexFlags {
        RegexFlags { bits: DOTALL_BIT }
    }

    pub open spec fn spec_free_spacing() -> RegexFlags {
        RegexFlags { bits: FREESPACING_BIT }
    }

    /// The empty set.
    #[verifier::when_used_as_spec(spec_no_flag)]
    pub fn no_flag() -> (r: RegexFlags)
        ensures
            r == Self::spec_no_flag(),
    {
        RegexFlags { bits: 0 }
    }

    #[verifier::when_used_as_spec(spec_ignore_case)]
    pub fn ignore_case() -> (r: RegexFlags)
        ensures
            r == Self::spec_ignore_case(),
    {
        RegexFlags { bits: IGNORECASE_BIT }
    }

    #[verifier::when_used_as_spec(spec_multiline)]
    pub fn multiline() -> (r: RegexFlags)
        ensures
            r == Self::spec_multiline(),
    {
        RegexFlags { bits: MULTILINE_BIT }
    }

    #[verifier::when_used_as_spec(spec_dot_all)]
    pub fn dot_all() -> (r: RegexFlags)
        ensures
            r == Self::spec_dot_all(),
    {
        RegexFlags { bits: DOTALL_BIT }
    }

    #[verifier::when_used_as_spec(spec_free_spacing)]
    pub fn free_spacing() -> (r: RegexFlags)
        ensures
            r == Self::spec_free_spacing(),
    {
        RegexFlags { bits: FREESPACING_BIT }
    }

    /// Joins two sets.
    #[verifier::when_used_as_spec(spec_union)]
    pub fn union(self, other: RegexFlags) -> (r: RegexFlags)
        ensures
            r == self.spec_union(other),
    {
        RegexFlags { bits: self.bits | other.bits }
    }

    /// Tests whether every option of `other` is set.
    #[verifier::when_used_as_spec(spec_contains)]
    pub fn contains(self, other: RegexFlags) -> (r: bool)
        ensures
            r == self.spec_contains(other),
    {
        self.bits & other.bits == other.bits
    }
}

/// The empty set holds none of the four options.
pub proof fn lemma_no_flag_is_empty()
    ensures
        !RegexFlags::spec_no_flag().spec_contains(RegexFlags::spec_ignore_case()),
        !RegexFlags::spec_no_flag().spec_contains(RegexFlags::spec_multiline()),
        !RegexFlags::spec_no_flag().spec_contains(RegexFlags::spec_dot_all()),
        !RegexFlags::spec_no_flag().spec_contains(RegexFlags::spec_free_spacing()),
{
    assert(0u8 & 1u8 != 1u8) by (bit_vector);
    assert(0u8 & 2u8 != 2u8) by (bit_vector);
    assert(0u8 & 4u8 != 4u8) by (bit_vector);
    assert(0u8 & 8u8 != 8u8) by (bit_vector);
}

} // verus!
