//! The memory manager: page-based access to the memory of a [`MemoryProvider`].
//!
//! Memory is divided into pages of [`WASM_PAGE_SIZE`] bytes. Page 0 holds the
//! schema and page 1 the access control list; every other page is allocated
//! on demand. Values are written at an offset within a page, aligned to the
//! alignment of their type, and never across the end of the page; the zeros
//! that pad a value up to its alignment may run into the next page.

use vstd::prelude::*;

use crate::encode::{write_bytes, zeros, Encode};
use crate::provider::MemoryProvider;
use crate::types::{DataSize, MSize, MemoryError, MemoryResult, Page, PageOffset, WASM_PAGE_SIZE};

verus! {

/// The page that holds the schema.
pub const SCHEMA_PAGE: Page = 0;

/// The page that holds the access control list.
pub const ACL_PAGE: Page = 1;

/// Number of whole pages in `mem`.
pub open spec fn spec_pages(mem: Seq<u8>) -> nat {
    mem.len() / (WASM_PAGE_SIZE as nat)
}

/// The last allocated page of `mem`, if any.
pub open spec fn spec_last_page(mem: Seq<u8>) -> Option<Page> {
    if spec_pages(mem) == 0 {
        None
    } else {
        Some((spec_pages(mem) - 1) as Page)
    }
}

/// Whether `page` is allocated in `mem`.
pub open spec fn is_allocated(mem: Seq<u8>, page: Page) -> bool {
    (page as nat) < spec_pages(mem)
}

/// Absolute position in memory of `offset` within `page`.
pub open spec fn spec_absolute_offset(page: Page, offset: PageOffset) -> int {
    page as int * WASM_PAGE_SIZE as int + offset as int
}

/// The error for an access of `data_size` bytes outside the allocated pages.
pub open spec fn segmentation_fault(page: Page, offset: PageOffset, data_size: int) -> MemoryError {
    MemoryError::SegmentationFault {
        page,
        offset,
        data_size: data_size as u64,
        page_size: WASM_PAGE_SIZE,
    }
}

/// The error for an offset that is not a multiple of `alignment`.
pub open spec fn not_aligned(offset: PageOffset, alignment: MSize) -> MemoryError {
    MemoryError::OffsetNotAligned { offset, alignment }
}

/// Whether `m` is a multiple of `alignment`.
pub open spec fn is_multiple(m: int, alignment: int) -> bool {
    m % alignment == 0
}

/// The smallest multiple of `alignment` that is not below `n`.
pub open spec fn spec_align_up(n: int, alignment: int) -> int {
    if n % alignment == 0 {
        n
    } else {
        n - n % alignment + alignment
    }
}

pub open spec fn spec_min(a: int, b: int) -> int {
    if a <= b {
        a
    } else {
        b
    }
}

/// What reading into a buffer holding `buf` at `offset` of `page` gives: the
/// result and the buffer afterwards. The read stops at the end of the page.
pub open spec fn read_raw_effect(mem: Seq<u8>, page: Page, offset: PageOffset, buf: Seq<u8>) -> (
    MemoryResult<usize>,
    Seq<u8>,
) {
    if !is_allocated(mem, page) {
        (Err(segmentation_fault(page, offset, buf.len() as int)), buf)
    } else {
        let n = spec_min(WASM_PAGE_SIZE - offset, buf.len() as int);
        let abs = spec_absolute_offset(page, offset);
        (Ok(n as usize), mem.subrange(abs, abs + n) + buf.subrange(n, buf.len() as int))
    }
}

/// The number of bytes that reading a value of type `D` at `offset` reads.
pub open spec fn read_len<D: Encode>(offset: PageOffset) -> nat {
    match D::spec_data_size() {
        DataSize::Fixed(size) => size as nat,
        DataSize::Dynamic => (WASM_PAGE_SIZE - offset) as nat,
    }
}

/// The bytes from which a value read at `offset` of `page` is decoded: what the
/// page holds from `offset` on, then zeros past the end of the page.
pub open spec fn read_at_bytes(mem: Seq<u8>, page: Page, offset: PageOffset, n: nat) -> Seq<u8> {
    read_raw_effect(mem, page, offset, zeros(n)).1
}

/// What writing the bytes `enc` of a value of size `size` and alignment
/// `alignment` at `offset` of `page` gives: the result and the memory afterwards.
///
/// After the value, zeros are written up to the next multiple of the alignment.
pub open spec fn write_at_effect(
    mem: Seq<u8>,
    page: Page,
    offset: PageOffset,
    enc: Seq<u8>,
    size: MSize,
    alignment: MSize,
) -> (MemoryResult<()>, Seq<u8>) {
    if !is_allocated(mem, page) {
        (Err(segmentation_fault(page, offset, size as int)), mem)
    } else if offset % alignment != 0 {
        (Err(not_aligned(offset, alignment)), mem)
    } else if offset + enc.len() > WASM_PAGE_SIZE {
        (Err(segmentation_fault(page, offset, enc.len() as int)), mem)
    } else {
        let abs = spec_absolute_offset(page, offset);
        let written = write_bytes(mem, abs, enc);
        let padding = spec_align_up(enc.len() as int, alignment as int) - enc.len();
        if abs + enc.len() + padding <= mem.len() {
            (Ok(()), write_bytes(written, abs + enc.len(), zeros(padding as nat)))
        } else {
            (Err(MemoryError::OutOfBounds), written)
        }
    }
}

/// What zeroing the space of a value of size `size` and alignment `alignment`
/// at `offset` of `page` gives: the result and the memory afterwards.
pub open spec fn zero_effect(
    mem: Seq<u8>,
    page: Page,
    offset: PageOffset,
    size: MSize,
    alignment: MSize,
) -> (MemoryResult<()>, Seq<u8>) {
    if !is_allocated(mem, page) {
        (Err(segmentation_fault(page, offset, size as int)), mem)
    } else if offset % alignment != 0 {
        (Err(not_aligned(offset, alignment)), mem)
    } else {
        let length = spec_align_up(size as int, alignment as int);
        if offset + length > WASM_PAGE_SIZE {
            (Err(segmentation_fault(page, offset, size as int)), mem)
        } else {
            (Ok(()), write_bytes(mem, spec_absolute_offset(page, offset), zeros(length as nat)))
        }
    }
}

/// An allocated page lies within the memory.
pub proof fn lemma_page_in_memory(mem: Seq<u8>, page: Page)
    requires
        is_allocated(mem, page),
    ensures
        spec_absolute_offset(page, 0) + WASM_PAGE_SIZE <= mem.len(),
{
    let p = WASM_PAGE_SIZE as int;
    let n = mem.len() as int;
    let k = page as int;
    assert((k + 1) * p <= n) by (nonlinear_arith)
        requires
            p == 65536,
            0 <= k < n / p,
            n >= 0,
    ;
}

/// Aligning up gives the smallest multiple of the alignment that is not below
/// the given size.
pub proof fn lemma_align_up(n: int, alignment: int)
    requires
        n >= 0,
        alignment > 0,
    ensures
        spec_align_up(n, alignment) % alignment == 0,
        n <= spec_align_up(n, alignment) < n + alignment,
        forall|m: int| m >= n && #[trigger] is_multiple(m, alignment) ==> spec_align_up(n, alignment) <= m,
{
    let r = spec_align_up(n, alignment);
    vstd::arithmetic::div_mod::lemma_fundamental_div_mod(n, alignment);
    if n % alignment != 0 {
        assert(r == alignment * (n / alignment) + alignment);
        assert(r == alignment * (n / alignment + 1)) by (nonlinear_arith)
            requires
                r == alignment * (n / alignment) + alignment,
        ;
        vstd::arithmetic::div_mod::lemma_mod_multiples_basic(n / alignment + 1, alignment);
    }
    assert forall|m: int| m >= n && #[trigger] is_multiple(m, alignment) implies r <= m by {
        vstd::arithmetic::div_mod::lemma_fundamental_div_mod(m, alignment);
        if n % alignment != 0 {
            assert(m == alignment * (m / alignment));
            assert(m / alignment > n / alignment) by (nonlinear_arith)
                requires
                    m == alignment * (m / alignment),
                    n == alignment * (n / alignment) + n % alignment,
                    0 < n % alignment < alignment,
                    m >= n,
                    alignment > 0,
            ;
            assert(alignment * (n / alignment + 1) <= alignment * (m / alignment)) by (nonlinear_arith)
                requires
                    m / alignment >= n / alignment + 1,
                    alignment > 0,
            ;
        }
    }
}

/// A successful write leaves the memory as long as it was, puts the encoded
/// bytes at the target position, zeros the padding up to the alignment, and
/// keeps every other byte.
pub proof fn lemma_write_at_frame(
    mem: Seq<u8>,
    page: Page,
    offset: PageOffset,
    enc: Seq<u8>,
    size: MSize,
    alignment: MSize,
)
    requires
        alignment > 0,
        write_at_effect(mem, page, offset, enc, size, alignment).0 is Ok,
    ensures
        ({
            let after = write_at_effect(mem, page, offset, enc, size, alignment).1;
            let abs = spec_absolute_offset(page, offset);
            let end = abs + spec_align_up(enc.len() as int, alignment as int);
            &&& after.len() == mem.len()
            &&& after.subrange(abs, abs + enc.len()) == enc
            &&& forall|i: int| abs + enc.len() <= i < end ==> after[i] == 0u8
            &&& forall|i: int| 0 <= i < mem.len() && !(abs <= i < end) ==> after[i] == mem[i]
        }),
{
    let abs = spec_absolute_offset(page, offset);
    let after = write_at_effect(mem, page, offset, enc, size, alignment).1;
    let written = write_bytes(mem, abs, enc);
    lemma_align_up(enc.len() as int, alignment as int);
    assert(after.subrange(abs, abs + enc.len()) =~= enc);
}

/// Reading back the place of a successful write gives the bytes written.
pub proof fn lemma_read_after_write(
    mem: Seq<u8>,
    page: Page,
    offset: PageOffset,
    enc: Seq<u8>,
    size: MSize,
    alignment: MSize,
    buf: Seq<u8>,
)
    requires
        alignment > 0,
        write_at_effect(mem, page, offset, enc, size, alignment).0 is Ok,
        buf.len() == enc.len(),
    ensures
        read_raw_effect(write_at_effect(mem, page, offset, enc, size, alignment).1, page, offset, buf)
            == (Ok::<usize, MemoryError>(enc.len() as usize), enc),
{
    lemma_write_at_frame(mem, page, offset, enc, size, alignment);
    let after = write_at_effect(mem, page, offset, enc, size, alignment).1;
    assert(spec_pages(after) == spec_pages(mem));
    let abs = spec_absolute_offset(page, offset);
    assert(after.subrange(abs, abs + enc.len()) + buf.subrange(enc.len() as int, buf.len() as int)
        =~= enc);
}

/// After a successful zeroing, the zeroed place reads as zeros and every other
/// byte is kept.
pub proof fn lemma_zero_frame(
    mem: Seq<u8>,
    page: Page,
    offset: PageOffset,
    size: MSize,
    alignment: MSize,
)
    requires
        alignment > 0,
        zero_effect(mem, page, offset, size, alignment).0 is Ok,
    ensures
        ({
            let after = zero_effect(mem, page, offset, size, alignment).1;
            let abs = spec_absolute_offset(page, offset);
            let end = abs + spec_align_up(size as int, alignment as int);
            &&& after.len() == mem.len()
            &&& after.subrange(abs, end) == zeros((end - abs) as nat)
            &&& size <= end - abs
            &&& forall|i: int| 0 <= i < mem.len() && !(abs <= i < end) ==> after[i] == mem[i]
        }),
{
    lemma_page_in_memory(mem, page);
    lemma_align_up(size as int, alignment as int);
    let after = zero_effect(mem, page, offset, size, alignment).1;
    let abs = spec_absolute_offset(page, offset);
    let end = abs + spec_align_up(size as int, alignment as int);
    assert(after.subrange(abs, end) =~= zeros((end - abs) as nat));
}

/// A freshly allocated page holds only zeros, and the pages before it keep
/// their bytes.
pub proof fn lemma_allocated_page_zeroed(mem: Seq<u8>, page: Page)
    requires
        page as nat == spec_pages(mem),
    ensures
        ({
            let after = write_bytes(
                mem + zeros(WASM_PAGE_SIZE as nat),
                spec_absolute_offset(page, 0),
                zeros(WASM_PAGE_SIZE as nat),
            );
            let abs = spec_absolute_offset(page, 0);
            &&& after.len() == mem.len() + WASM_PAGE_SIZE
            &&& spec_pages(after) == spec_pages(mem) + 1
            &&& after.subrange(abs, abs + WASM_PAGE_SIZE) == zeros(WASM_PAGE_SIZE as nat)
            &&& forall|i: int| 0 <= i < abs ==> after[i] == mem[i]
        }),
{
    let p = WASM_PAGE_SIZE as int;
    let n = mem.len() as int;
    let k = page as int;
    assert(k * p <= n && n < k * p + p) by (nonlinear_arith)
        requires
            p == 65536,
            k == n / p,
            n >= 0,
    ;
    vstd::arithmetic::div_mod::lemma_div_plus_one(n, p);
    let after = write_bytes(mem + zeros(p as nat), k * p, zeros(p as nat));
    assert(after.subrange(k * p, k * p + p) =~= zeros(p as nat));
}

/// The memory manager: the entry point for page-based memory operations.
pub struct MemoryManager<P: MemoryProvider> {
    provider: P,
}

impl<P: MemoryProvider> View for MemoryManager<P> {
    type V = Seq<u8>;

    closed spec fn view(&self) -> Seq<u8> {
        self.provider.spec_bytes()
    }
}

impl<P: MemoryProvider> MemoryManager<P> {
    /// The number of pages fits a page number.
    pub open spec fn wf(&self) -> bool {
        spec_pages(self@) <= u32::MAX as nat
    }

    /// Initializes the memory manager and allocates the schema and ACL pages,
    /// unless the memory already holds at least two pages.
    ///
    /// Fails if the memory provider cannot grow.
    pub fn init(provider: P) -> (r: MemoryResult<Self>)
        requires
            spec_pages(provider.spec_bytes()) <= u32::MAX as nat,
        ensures
            match r {
                Ok(manager) => {
                    &&& manager.wf()
                    &&& manager@ == if spec_pages(provider.spec_bytes()) >= 2 {
                        provider.spec_bytes()
                    } else {
                        provider.spec_bytes() + zeros((2 * WASM_PAGE_SIZE) as nat)
                    }
                },
                Err(_) => spec_pages(provider.spec_bytes()) < 2,
            },
            spec_pages(provider.spec_bytes()) < 2 && provider.can_grow(2) ==> r is Ok,
    {
        let mut manager = MemoryManager { provider };
        if manager.provider.pages() >= 2 {
            return Ok(manager);
        }
        manager.provider.grow(2)?;
        Ok(manager)
    }

    /// Returns the size of a memory page.
    pub fn page_size(&self) -> (r: u64)
        ensures
            r == WASM_PAGE_SIZE,
    {
        WASM_PAGE_SIZE
    }

    /// Returns the ACL page number.
    pub fn acl_page(&self) -> (r: Page)
        ensures
            r == ACL_PAGE,
    {
        ACL_PAGE
    }

    /// Returns the schema page number.
    pub fn schema_page(&self) -> (r: Page)
        ensures
            r == SCHEMA_PAGE,
    {
        SCHEMA_PAGE
    }

    /// Whether the memory provider is sure to grow by `new_pages` pages.
    pub closed spec fn can_grow(&self, new_pages: u64) -> bool {
        self.provider.can_grow(new_pages)
    }

    /// Allocates an additional zeroed page in memory and returns its number.
    ///
    /// It succeeds whenever the provider can grow by one page; it fails only
    /// when growing the provider fails, and then leaves the memory unchanged.
    pub fn allocate_page(&mut self) -> (r: MemoryResult<Page>)
        requires
            old(self).wf(),
            spec_pages(old(self)@) < u32::MAX as nat,
        ensures
            final(self).wf(),
            old(self).can_grow(1) ==> r is Ok,
            match r {
                Ok(page) => {
                    &&& page as nat == spec_pages(old(self)@)
                    &&& spec_last_page(final(self)@) == Some(page)
                    &&& old(self)@.len() % (WASM_PAGE_SIZE as nat) == 0 ==> final(self)@ == old(
                        self,
                    )@ + zeros(WASM_PAGE_SIZE as nat)
                    &&& final(self)@ == write_bytes(
                        old(self)@ + zeros(WASM_PAGE_SIZE as nat),
                        spec_absolute_offset(page, 0),
                        zeros(WASM_PAGE_SIZE as nat),
                    )
                },
                Err(_) => final(self)@ == old(self)@,
            },
    {
        let ghost before = self@;
        self.provider.grow(1)?;
        assert(spec_pages(self@) == spec_pages(before) + 1) by {
            vstd::arithmetic::div_mod::lemma_div_plus_one(before.len() as int, WASM_PAGE_SIZE as int);
        }
        let last = match self.last_page() {
            Some(page) => page,
            None => 0,
        };
        proof {
            lemma_page_in_memory(self@, last);
        }
        let zeroed = vec![0u8; WASM_PAGE_SIZE as usize];
        assert(zeroed@ =~= zeros(WASM_PAGE_SIZE as nat));
        self.provider.write(self.absolute_offset(last, 0), zeroed.as_slice())?;
        proof {
            if before.len() % (WASM_PAGE_SIZE as nat) == 0 {
                let grown = before + zeros(WASM_PAGE_SIZE as nat);
                assert(spec_absolute_offset(last, 0) == before.len()) by (nonlinear_arith)
                    requires
                        last as int == (before.len() as int) / (WASM_PAGE_SIZE as int),
                        (before.len() as int) % (WASM_PAGE_SIZE as int) == 0,
                ;
                assert(write_bytes(grown, before.len() as int, zeros(WASM_PAGE_SIZE as nat))
                    =~= grown);
            }
        }
        match self.last_page() {
            Some(page) => Ok(page),
            None => Err(MemoryError::FailedToAllocatePage),
        }
    }

    /// Reads a value of type `D` at the specified page and offset.
    ///
    /// A fixed-size type reads its size in bytes; a dynamic one reads up to the
    /// end of the page.
    pub fn read_at<D: Encode>(&self, page: Page, offset: PageOffset) -> (r: MemoryResult<D>)
        requires
            self.wf(),
        ensures
            offset % D::spec_alignment() != 0 ==> r == Err::<D, MemoryError>(
                not_aligned(offset, D::spec_alignment()),
            ),
            offset % D::spec_alignment() == 0 && !is_allocated(self@, page) ==> r == Err::<
                D,
                MemoryError,
            >(segmentation_fault(page, offset, read_len::<D>(offset) as int)),
            offset % D::spec_alignment() == 0 && is_allocated(self@, page) ==> ({
                let bytes = read_at_bytes(self@, page, offset, read_len::<D>(offset));
                match r {
                    Ok(v) => D::spec_decode_error(bytes) is None && D::spec_decodes(bytes, v),
                    Err(e) => D::spec_decode_error(bytes) == Some(e),
                }
            }),
    {
        self.check_alignment::<D>(offset)?;
        let len: usize = match D::data_size() {
            DataSize::Fixed(size) => size as usize,
            DataSize::Dynamic => (WASM_PAGE_SIZE - offset as u64) as usize,
        };
        let mut buf = vec![0u8; len];
        assert(buf@ =~= zeros(len as nat));
        self.read_at_raw(page, offset, buf.as_mut_slice())?;
        D::decode(buf.as_slice())
    }

    /// Writes a value at the specified page and offset, then zeros the padding
    /// up to the alignment of its type.
    ///
    /// The padding is written after the value: when it would run past the end
    /// of the memory, the call fails with the value already written.
    pub fn write_at<E: Encode>(&mut self, page: Page, offset: PageOffset, data: &E) -> (r:
        MemoryResult<()>)
        requires
            old(self).wf(),
        ensures
            final(self).wf(),
            (r, final(self)@) == write_at_effect(
                old(self)@,
                page,
                offset,
                data.spec_encode(),
                data.spec_size(),
                E::spec_alignment(),
            ),
    {
        let ghost before = self@;
        let size = data.size();
        self.check_unallocated_page(page, offset, size)?;
        self.check_alignment::<E>(offset)?;
        let alignment = E::alignment();
        let encoded = data.encode();
        if encoded.len() as u64 > WASM_PAGE_SIZE - offset as u64 {
            return Err(
                MemoryError::SegmentationFault {
                    page,
                    offset,
                    data_size: encoded.len() as u64,
                    page_size: WASM_PAGE_SIZE,
                },
            );
        }
        proof {
            lemma_page_in_memory(before, page);
        }
        let absolute_offset = self.absolute_offset(page, offset);
        self.provider.write(absolute_offset, encoded.as_slice())?;
        let ghost written = self@;
        proof {
            lemma_align_up(encoded@.len() as int, E::spec_alignment() as int);
        }
        let padding = align_up::<E>(encoded.len()) - encoded.len();
        if padding > 0 {
            let padding_offset = absolute_offset + encoded.len() as u64;
            let padding_buffer = vec![0u8; padding];
            assert(padding_buffer@ =~= zeros(padding as nat));
            self.provider.write(padding_offset, padding_buffer.as_slice())?;
        } else {
            assert(write_bytes(written, absolute_offset + encoded@.len(), zeros(0)) =~= written);
        }
        Ok(())
    }

    /// Zeros the space of `data`, rounded up to the alignment of its type, at
    /// the specified page and offset.
    pub fn zero<E: Encode>(&mut self, page: Page, offset: PageOffset, data: &E) -> (r: MemoryResult<
        (),
    >)
        requires
            old(self).wf(),
        ensures
            final(self).wf(),
            (r, final(self)@) == zero_effect(
                old(self)@,
                page,
                offset,
                data.spec_size(),
                E::spec_alignment(),
            ),
    {
        let ghost before = self@;
        let size = data.size();
        self.check_unallocated_page(page, offset, size)?;
        self.check_alignment::<E>(offset)?;
        proof {
            lemma_align_up(size as int, E::spec_alignment() as int);
        }
        let length = align_up::<E>(size as usize);
        if offset as u64 + length as u64 > WASM_PAGE_SIZE {
            return Err(
                MemoryError::SegmentationFault {
                    page,
                    offset,
                    data_size: size as u64,
                    page_size: WASM_PAGE_SIZE,
                },
            );
        }
        proof {
            lemma_page_in_memory(before, page);
        }
        let absolute_offset = self.absolute_offset(page, offset);
        let buffer = vec![0u8; length];
        assert(buffer@ =~= zeros(length as nat));
        self.provider.write(absolute_offset, buffer.as_slice())?;
        Ok(())
    }

    /// Reads raw bytes into `buf` at the specified page and offset, up to the
    /// length of the buffer or the end of the page, and returns how many bytes
    /// were read.
    pub fn read_at_raw(&self, page: Page, offset: PageOffset, buf: &mut [u8]) -> (r: MemoryResult<
        usize,
    >)
        requires
            self.wf(),
        ensures
            (r, final(buf)@) == read_raw_effect(self@, page, offset, old(buf)@),
    {
        let allocated = match self.last_page() {
            Some(last_page) => page <= last_page,
            None => false,
        };
        if !allocated {
            return Err(
                MemoryError::SegmentationFault {
                    page,
                    offset,
                    data_size: buf.len() as u64,
                    page_size: WASM_PAGE_SIZE,
                },
            );
        }
        let available = (WASM_PAGE_SIZE - offset as u64) as usize;
        let read_len = if available < buf.len() {
            available
        } else {
            buf.len()
        };
        proof {
            lemma_page_in_memory(self@, page);
        }
        let absolute_offset = self.absolute_offset(page, offset);
        let mut chunk = vec![0u8; read_len];
        self.provider.read(absolute_offset, chunk.as_mut_slice())?;
        let ghost start = absolute_offset as int;
        let mut i: usize = 0;
        while i < read_len
            invariant
                i <= read_len,
                read_len <= old(buf)@.len(),
                start + read_len <= self@.len(),
                chunk@.len() == read_len,
                chunk@ == self@.subrange(start, start + read_len),
                buf@.len() == old(buf)@.len(),
                forall|j: int| 0 <= j < i ==> buf@[j] == chunk@[j],
                forall|j: int| i <= j < buf@.len() ==> buf@[j] == old(buf)@[j],
            decreases read_len - i,
        {
            buf[i] = chunk[i];
            i = i + 1;
        }
        assert(buf@ =~= self@.subrange(start, start + read_len) + old(buf)@.subrange(
            read_len as int,
            old(buf)@.len() as int,
        ));
        Ok(read_len)
    }

    /// Gets the last allocated page number.
    pub fn last_page(&self) -> (r: Option<Page>)
        requires
            self.wf(),
        ensures
            r == spec_last_page(self@),
    {
        let pages = self.provider.pages();
        if pages == 0 {
            None
        } else {
            Some(pages as Page - 1)
        }
    }

    /// Calculates the absolute offset in memory of an offset within a page.
    pub fn absolute_offset(&self, page: Page, offset: PageOffset) -> (r: u64)
        ensures
            r == spec_absolute_offset(page, offset),
    {
        page as u64 * WASM_PAGE_SIZE + offset as u64
    }

    /// Checks that the specified page is allocated.
    pub fn check_unallocated_page(&self, page: Page, offset: PageOffset, data_size: MSize) -> (r:
        MemoryResult<()>)
        requires
            self.wf(),
        ensures
            is_allocated(self@, page) ==> r is Ok,
            !is_allocated(self@, page) ==> r == Err::<(), MemoryError>(
                segmentation_fault(page, offset, data_size as int),
            ),
    {
        let allocated = match self.last_page() {
            Some(last_page) => page <= last_page,
            None => false,
        };
        if !allocated {
            return Err(
                MemoryError::SegmentationFault {
                    page,
                    offset,
                    data_size: data_size as u64,
                    page_size: WASM_PAGE_SIZE,
                },
            );
        }
        Ok(())
    }

    /// Checks that `offset` is a multiple of the alignment of type `E`.
    pub fn check_alignment<E: Encode>(&self, offset: PageOffset) -> (r: MemoryResult<()>)
        ensures
            E::spec_alignment() > 0,
            offset % E::spec_alignment() == 0 ==> r is Ok,
            offset % E::spec_alignment() != 0 ==> r == Err::<(), MemoryError>(
                not_aligned(offset, E::spec_alignment()),
            ),
    {
        let alignment = E::alignment();
        if offset % alignment != 0 {
            return Err(MemoryError::OffsetNotAligned { offset, alignment });
        }
        Ok(())
    }
}

/// Rounds `offset` up to the next multiple of the alignment of type `E`.
pub fn align_up<E: Encode>(offset: usize) -> (r: usize)
    requires
        spec_align_up(offset as int, E::spec_alignment() as int) <= usize::MAX,
    ensures
        E::spec_alignment() > 0,
        r == spec_align_up(offset as int, E::spec_alignment() as int),
{
    let alignment = E::alignment() as usize;
    let rem = offset % alignment;
    assert(rem <= offset) by (nonlinear_arith)
        requires
            rem == offset % alignment,
            alignment > 0,
    ;
    if rem == 0 {
        offset
    } else {
        offset - rem + alignment
    }
}

} // verus!
