//! Memory providers: the byte-addressed memory that the memory manager
//! divides into pages.

use vstd::prelude::*;

use crate::encode::{write_bytes, zeros};
use crate::types::{MemoryError, MemoryResult, WASM_PAGE_SIZE};

verus! {

/// Interface to the underlying memory, seen as a sequence of bytes that
/// grows by whole pages of [`WASM_PAGE_SIZE`] bytes.
pub trait MemoryProvider {
    /// The bytes of the memory.
    spec fn spec_bytes(&self) -> Seq<u8>;

    /// Whether growing the memory by `new_pages` pages is sure to succeed.
    spec fn can_grow(&self, new_pages: u64) -> bool;

    /// Gets the current size of the memory in bytes.
    fn size(&self) -> (r: u64)
        ensures
            r == self.spec_bytes().len(),
    ;

    /// Gets the amount of pages currently allocated.
    fn pages(&self) -> (r: u64)
        ensures
            r == self.spec_bytes().len() / (WASM_PAGE_SIZE as nat),
    ;

    /// Attempts to grow the memory by `new_pages` zeroed pages.
    ///
    /// Returns the previous size in bytes; on error the memory is unchanged.
    /// It succeeds whenever [`MemoryProvider::can_grow`] holds.
    fn grow(&mut self, new_pages: u64) -> (r: MemoryResult<u64>)
        ensures
            old(self).can_grow(new_pages) ==> r is Ok,
            match r {
                Ok(previous) => {
                    &&& previous == old(self).spec_bytes().len()
                    &&& final(self).spec_bytes() == old(self).spec_bytes() + zeros(
                        (new_pages * WASM_PAGE_SIZE) as nat,
                    )
                },
                Err(_) => final(self).spec_bytes() == old(self).spec_bytes(),
            },
    ;

    /// Reads `buf.len()` bytes starting at `offset` into `buf`.
    ///
    /// Fails with [`MemoryError::OutOfBounds`], leaving `buf` unchanged, when the
    /// range exceeds the memory.
    fn read(&self, offset: u64, buf: &mut [u8]) -> (r: MemoryResult<()>)
        ensures
            offset + old(buf)@.len() <= self.spec_bytes().len() ==> {
                &&& r is Ok
                &&& final(buf)@ == self.spec_bytes().subrange(
                    offset as int,
                    offset + old(buf)@.len(),
                )
            },
            offset + old(buf)@.len() > self.spec_bytes().len() ==> {
                &&& r == Err::<(), MemoryError>(MemoryError::OutOfBounds)
                &&& final(buf)@ == old(buf)@
            },
    ;

    /// Writes `buf` into memory starting at `offset`.
    ///
    /// Fails with [`MemoryError::OutOfBounds`], leaving the memory unchanged,
    /// when the range exceeds the memory.
    fn write(&mut self, offset: u64, buf: &[u8]) -> (r: MemoryResult<()>)
        ensures
            offset + buf@.len() <= old(self).spec_bytes().len() ==> {
                &&& r is Ok
                &&& final(self).spec_bytes() == write_bytes(
                    old(self).spec_bytes(),
                    offset as int,
                    buf@,
                )
            },
            offset + buf@.len() > old(self).spec_bytes().len() ==> {
                &&& r == Err::<(), MemoryError>(MemoryError::OutOfBounds)
                &&& final(self).spec_bytes() == old(self).spec_bytes()
            },
    ;
}

/// A [`MemoryProvider`] backed by heap memory, used off-chain and in tests.
pub struct HeapMemoryProvider {
    memory: Vec<u8>,
}

impl Default for HeapMemoryProvider {
    /// An empty heap memory.
    fn default() -> (r: Self)
        ensures
            r.spec_bytes() == Seq::<u8>::empty(),
    {
        HeapMemoryProvider { memory: Vec::new() }
    }
}

impl MemoryProvider for HeapMemoryProvider {
    closed spec fn spec_bytes(&self) -> Seq<u8> {
        self.memory@
    }

    /// Heap memory grows as long as its size in bytes fits in `usize`.
    open spec fn can_grow(&self, new_pages: u64) -> bool {
        self.spec_bytes().len() + new_pages * WASM_PAGE_SIZE <= usize::MAX
    }

    fn size(&self) -> (r: u64) {
        self.memory.len() as u64
    }

    fn pages(&self) -> (r: u64) {
        self.size() / WASM_PAGE_SIZE
    }

    fn grow(&mut self, new_pages: u64) -> (r: MemoryResult<u64>)
        ensures
            !old(self).can_grow(new_pages) ==> r == Err::<u64, MemoryError>(
                MemoryError::FailedToAllocatePage,
            ),
    {
        let previous_size = self.size();
        let additional = match new_pages.checked_mul(WASM_PAGE_SIZE) {
            Some(additional) => additional,
            None => return Err(MemoryError::FailedToAllocatePage),
        };
        let new_size = match previous_size.checked_add(additional) {
            Some(size) => size,
            None => return Err(MemoryError::FailedToAllocatePage),
        };
        if new_size > usize::MAX as u64 {
            return Err(MemoryError::FailedToAllocatePage);
        }
        let new_size = new_size as usize;
        let ghost start = self.memory@;
        while self.memory.len() < new_size
            invariant
                start.len() <= self.memory@.len() <= new_size,
                self.memory@ == start + zeros((self.memory@.len() - start.len()) as nat),
            decreases new_size - self.memory@.len(),
        {
            self.memory.push(0u8);
            assert(self.memory@ =~= start + zeros((self.memory@.len() - start.len()) as nat));
        }
        Ok(previous_size)
    }

    fn read(&self, offset: u64, buf: &mut [u8]) -> (r: MemoryResult<()>) {
        let len = self.memory.len();
        if offset > len as u64 || (len - offset as usize) < buf.len() {
            return Err(MemoryError::OutOfBounds);
        }
        let start = offset as usize;
        let n = buf.len();
        let mut i: usize = 0;
        while i < n
            invariant
                i <= n,
                n == old(buf)@.len(),
                buf@.len() == n,
                start + n <= self.memory.len(),
                forall|j: int| 0 <= j < i ==> buf@[j] == self.memory@[start + j],
            decreases n - i,
        {
            buf[i] = self.memory[start + i];
            i = i + 1;
        }
        assert(buf@ =~= self.memory@.subrange(start as int, start + n));
        Ok(())
    }

    fn write(&mut self, offset: u64, buf: &[u8]) -> (r: MemoryResult<()>) {
        let len = self.memory.len();
        if offset > len as u64 || (len - offset as usize) < buf.len() {
            return Err(MemoryError::OutOfBounds);
        }
        let start = offset as usize;
        let n = buf.len();
        let ghost before = self.memory@;
        let mut i: usize = 0;
        while i < n
            invariant
                i <= n,
                n == buf@.len(),
                start + n <= before.len(),
                before.len() == len,
                self.memory@.len() == before.len(),
                forall|j: int| 0 <= j < start ==> self.memory@[j] == before[j],
                forall|j: int| start + n <= j < before.len() ==> self.memory@[j] == before[j],
                forall|j: int| start <= j < start + i ==> self.memory@[j] == buf@[j - start],
                forall|j: int| start + i <= j < start + n ==> self.memory@[j] == before[j],
            decreases n - i,
        {
            self.memory[start + i] = buf[i];
            i = i + 1;
        }
        assert(self.memory@ =~= write_bytes(before, start as int, buf@));
        Ok(())
    }
}

} // verus!
