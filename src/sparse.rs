//! Conversion between domain ids and the dense integers that index bit sets.
use vstd::prelude::*;

verus! {

/// A domain id that has a dense integer form, used to index bit sets.
pub trait BitSetIndex: Sized {
    /// The dense integer standing for `self`.
    spec fn spec_index(self) -> nat;

    /// Whether `idx` is the dense form of some id of this type.
    spec fn spec_index_valid(idx: nat) -> bool;

    /// The id whose dense form is `idx`.
    spec fn spec_from_index(idx: nat) -> Self;

    fn bit_set_index(self) -> (r: usize)
        ensures
            r as nat == self.spec_index(),
            Self::spec_index_valid(r as nat),
    ;

    fn from_bit_set_index(idx: usize) -> (r: Self)
        requires
            Self::spec_index_valid(idx as nat),
        ensures
            r == Self::spec_from_index(idx as nat),
            r.spec_index() == idx as nat,
    ;
}

impl BitSetIndex for u32 {
    open spec fn spec_index(self) -> nat {
        self as nat
    }

    open spec fn spec_index_valid(idx: nat) -> bool {
        idx <= u32::MAX
    }

    open spec fn spec_from_index(idx: nat) -> u32 {
        idx as u32
    }

    fn bit_set_index(self) -> (r: usize) {
        self as usize
    }

    fn from_bit_set_index(idx: usize) -> (r: u32) {
        idx as u32
    }
}

} // verus!
