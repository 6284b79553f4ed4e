//! Size and alignment of a stored element, as plain integers.
use vstd::prelude::*;

verus! {

/// The memory layout of one element: its size and alignment in bytes.
#[derive(Copy, Clone, PartialEq, Eq, Structural, Debug)]
pub struct ElemLayout {
    pub size: usize,
    pub align: usize,
}

impl ElemLayout {
    /// A usable element layout: a nonzero alignment that divides the size.
    pub open spec fn is_valid(&self) -> bool {
        self.align > 0 && self.size % self.align == 0
    }

    /// The layout of a value of type `V`.
    pub fn of<V>() -> (r: Self)
        ensures
            r.size as nat == vstd::layout::size_of::<V>(),
            r.align as nat == vstd::layout::align_of::<V>(),
            r.is_valid(),
    {
        vstd::layout::layout_for_type_is_valid::<V>();
        ElemLayout { size: core::mem::size_of::<V>(), align: core::mem::align_of::<V>() }
    }
}

} // verus!
