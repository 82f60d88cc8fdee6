//! Basic memory types shared by the memory layer: page numbers, offsets,
//! sizes, the size characteristic of encodable data and the memory errors.

use vstd::prelude::*;

verus! {

/// Type identifying a memory page number.
pub type Page = u32;

/// Type identifying an offset within a memory page.
pub type PageOffset = u16;

/// Size type for memory operations.
pub type MSize = u16;

/// The size of a memory page in bytes (64 KiB, one WASM page).
pub const WASM_PAGE_SIZE: u64 = 65536;

/// Default alignment in bytes for [`DataSize::Dynamic`] data types.
pub const DEFAULT_ALIGNMENT: MSize = 32;

/// Represents the size of data types stored in memory.
#[derive(Debug, Clone, Copy, PartialEq, Eq)]
pub enum DataSize {
    /// A fixed size in bytes.
    Fixed(MSize),
    /// A variable size.
    Dynamic,
}

impl DataSize {
    /// Returns the size in bytes if the data size is fixed.
    pub fn get_fixed_size(&self) -> (r: Option<MSize>)
        ensures
            r == (match *self {
                DataSize::Fixed(size) => Some(size),
                DataSize::Dynamic => None,
            }),
    {
        match self {
            DataSize::Fixed(size) => Some(*size),
            DataSize::Dynamic => None,
        }
    }
}

/// Reasons for which bytes could not be decoded.
#[derive(Debug, Clone, Copy, PartialEq, Eq)]
pub enum DecodeError {
    /// The data is too short to decode.
    TooShort,
    /// The data is not valid UTF-8 text.
    Utf8Error,
}

/// Possible memory-related errors.
#[derive(Debug, Clone, Copy, PartialEq, Eq)]
pub enum MemoryError {
    /// Failed to decode data from bytes.
    DecodeError(DecodeError),
    /// Failed to allocate a new page.
    FailedToAllocatePage,
    /// The offset is not aligned to the alignment of the data type.
    OffsetNotAligned { offset: PageOffset, alignment: u16 },
    /// Access to the underlying memory out of its bounds.
    OutOfBounds,
    /// Read or write out of the allocated page.
    SegmentationFault { page: Page, offset: PageOffset, data_size: u64, page_size: u64 },
}

/// The result type for memory operations.
pub type MemoryResult<T> = Result<T, MemoryError>;

} // verus!
