//! Size and alignment of a block of memory.

use crate::bits;
use vstd::arithmetic::power2::*;
use vstd::prelude::*;

verus! {

/// The parameters given to [`Layout::from_size_align`] do not make a layout.
#[derive(Clone, Copy, Debug, PartialEq, Eq)]
pub struct LayoutError;

/// A size, and an alignment that is a power of two, such that the size rounded up to
/// the alignment does not exceed `isize::MAX`.
#[derive(Clone, Copy, Debug, PartialEq, Eq)]
pub struct Layout {
    size: usize,
    align: usize,
}

/// The two numbers make a layout.
pub open spec fn makes_layout(size: int, align: int) -> bool {
    is_pow2(align) && bits::round_up(size, align) <= isize::MAX
}

impl Layout {
    /// The size that [`Layout::size`] returns.
    pub closed spec fn spec_size(&self) -> usize {
        self.size
    }

    /// The alignment that [`Layout::align`] returns.
    pub closed spec fn spec_align(&self) -> usize {
        self.align
    }

    #[verifier::type_invariant]
    spec fn valid(self) -> bool {
        makes_layout(self.size as int, self.align as int)
    }

    /// The layout of the given size and alignment, where there is one.
    pub fn from_size_align(size: usize, align: usize) -> (layout: Result<Layout, LayoutError>)
        ensures
            match layout {
                Ok(layout) => makes_layout(size as int, align as int) && layout.size() == size
                    && layout.align() == align,
                Err(LayoutError) => !makes_layout(size as int, align as int),
            },
    {
        if !bits::is_power_of_two(align) {
            return Err(LayoutError);
        }
        proof {
            reveal(is_pow2);
        }
        match bits::align_up(size, align) {
            Some(rounded) if rounded <= isize::MAX as usize => Ok(Layout { size, align }),
            _ => Err(LayoutError),
        }
    }

    /// The size in bytes.
    #[verifier::when_used_as_spec(spec_size)]
    pub fn size(&self) -> (size: usize)
        ensures
            size == self.size(),
            makes_layout(self.size() as int, self.align() as int),
    {
        proof {
            use_type_invariant(self);
        }
        self.size
    }

    /// The alignment in bytes.
    #[verifier::when_used_as_spec(spec_align)]
    pub fn align(&self) -> (align: usize)
        ensures
            align == self.align(),
            makes_layout(self.size() as int, self.align() as int),
    {
        proof {
            use_type_invariant(self);
        }
        self.align
    }
}

} // verus!
