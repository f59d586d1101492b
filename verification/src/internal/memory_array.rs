use crate::error::InMemoryTableError;
use crate::internal::header::is_misaligned_error;
use vstd::prelude::*;

verus! {

/// A run of `length` fixed-size elements at byte offset `base` of a region.
#[derive(Debug, Clone, Copy)]
pub struct MemoryArray {
    pub base: usize,
    pub length: usize,
}

impl MemoryArray {
    /// Places an array of `length` elements aligned to `align` at offset `base`.
    ///
    /// Fails with `MisalignedMemory` exactly when `base` is not a multiple of `align`.
    pub fn new(base: usize, length: usize, align: usize) -> (r: Result<
        MemoryArray,
        InMemoryTableError,
    >)
        requires
            align > 0,
        ensures
            base % align != 0 <==> r is Err,
            r matches Err(e) ==> is_misaligned_error(e, base, align),
            r matches Ok(a) ==> a.base == base && a.length == length,
    {
        if base % align != 0 {
            return Err(InMemoryTableError::MisalignedMemory { address: base, required: align });
        }
        Ok(MemoryArray { base, length })
    }

    /// The number of elements.
    pub fn len(&self) -> (r: usize)
        ensures
            r == self.length,
    {
        self.length
    }
}

} // verus!
