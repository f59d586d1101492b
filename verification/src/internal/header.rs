use crate::error::InMemoryTableError;
use crate::internal::word::{same_outside, write_bytes};
use vstd::prelude::*;

verus! {

/// A fixed-size header record at byte offset `base` of a region; the data that
/// follows it starts at `base + size`.
#[derive(Debug, Clone, Copy)]
pub struct Header {
    pub base: usize,
    pub size: usize,
}

/// The error a misaligned header or array reports.
pub open spec fn is_misaligned_error(e: InMemoryTableError, address: usize, required: usize) -> bool {
    e == (InMemoryTableError::MisalignedMemory { address, required })
}

impl Header {
    /// Places a header of `size` bytes, aligned to `align`, at offset `base`.
    ///
    /// Fails with `MisalignedMemory` exactly when `base` is not a multiple of
    /// `align`. The region itself is assumed to start on an `align` boundary.
    pub fn new(base: usize, align: usize, size: usize) -> (r: Result<Header, InMemoryTableError>)
        requires
            align > 0,
        ensures
            base % align != 0 <==> r is Err,
            r matches Err(e) ==> is_misaligned_error(e, base, align),
            r matches Ok(h) ==> h.base == base && h.size == size,
    {
        if base % align != 0 {
            return Err(InMemoryTableError::MisalignedMemory { address: base, required: align });
        }
        Ok(Header { base, size })
    }

    /// Places a header holding the bytes `value`, aligned to `align`, at
    /// offset `base` of `mem`, and writes `value` there.
    ///
    /// Fails with `MisalignedMemory`, leaving `mem` as it was, exactly when
    /// `base` is not a multiple of `align`.
    pub fn with_value(mem: &mut [u8], base: usize, align: usize, value: &[u8]) -> (r: Result<
        Header,
        InMemoryTableError,
    >)
        requires
            align > 0,
            base + value@.len() <= old(mem)@.len(),
        ensures
            base % align != 0 <==> r is Err,
            r matches Err(e) ==> is_misaligned_error(e, base, align) && final(mem)@ == old(mem)@,
            r matches Ok(h) ==> {
                &&& h.base == base
                &&& h.size == value@.len()
                &&& same_outside(old(mem)@, final(mem)@, base as int, base + value@.len())
                &&& final(mem)@.subrange(base as int, base + value@.len()) == value@
            },
    {
        if base % align != 0 {
            return Err(InMemoryTableError::MisalignedMemory { address: base, required: align });
        }
        write_bytes(mem, base, value);
        Ok(Header { base, size: value.len() })
    }

    /// The offset of the first byte after the header.
    pub fn data(&self) -> (r: usize)
        requires
            self.base + self.size <= usize::MAX,
        ensures
            r == self.base + self.size,
    {
        self.base + self.size
    }
}

} // verus!
