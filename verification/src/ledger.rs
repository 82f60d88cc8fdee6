//! The free segments ledger: the [`FreeSegmentsTable`] of a table, kept in a
//! page of its own, and the iteration over such pages.

use vstd::prelude::*;

use crate::encode::Encode;
use crate::free_segment::{
    first_index, inserted, lemma_first_index, lemma_first_index_is, lemma_table_roundtrip,
    removed, segments_from_bytes, table_bytes, table_count, table_size, FreeSegment,
    FreeSegmentsTable,
};
use crate::memory::{
    is_allocated, lemma_write_at_frame, read_at_bytes, segmentation_fault, write_at_effect,
    MemoryManager,
};
use crate::provider::MemoryProvider;
use crate::types::{MemoryError, MemoryResult, Page, PageOffset, DEFAULT_ALIGNMENT, WASM_PAGE_SIZE};

verus! {

/// The bytes from which the table stored at the start of `page` is decoded.
pub open spec fn table_page_bytes(mem: Seq<u8>, page: Page) -> Seq<u8> {
    read_at_bytes(mem, page, 0, WASM_PAGE_SIZE as nat)
}

/// `r` is what loading the table stored at the start of `page` gives.
pub open spec fn loaded_table(mem: Seq<u8>, page: Page, r: MemoryResult<Seq<FreeSegment>>) -> bool {
    let bytes = table_page_bytes(mem, page);
    if !is_allocated(mem, page) {
        r == Err::<Seq<FreeSegment>, MemoryError>(
            segmentation_fault(page, 0, WASM_PAGE_SIZE as int),
        )
    } else {
        match FreeSegmentsTable::spec_decode_error(bytes) {
            Some(e) => r == Err::<Seq<FreeSegment>, MemoryError>(e),
            None => r == Ok::<Seq<FreeSegment>, MemoryError>(
                segments_from_bytes(bytes, table_count(bytes)),
            ),
        }
    }
}

/// The records of a loaded table, as a sequence.
pub open spec fn table_records(r: MemoryResult<FreeSegmentsTable>) -> MemoryResult<Seq<FreeSegment>> {
    match r {
        Ok(table) => Ok(table.records@),
        Err(e) => Err(e),
    }
}

/// What writing a table holding `records` at the start of `page` gives.
pub open spec fn table_write_effect(mem: Seq<u8>, page: Page, records: Seq<FreeSegment>) -> (
    MemoryResult<()>,
    Seq<u8>,
) {
    write_at_effect(
        mem,
        page,
        0,
        table_bytes(records),
        table_size(records.len()),
        DEFAULT_ALIGNMENT,
    )
}

/// Loading a table back from a page where it was written gives the same
/// records, provided that their number fits the 4-byte count.
pub proof fn lemma_table_reload(mem: Seq<u8>, page: Page, records: Seq<FreeSegment>)
    requires
        records.len() <= u32::MAX,
        table_write_effect(mem, page, records).0 is Ok,
    ensures
        loaded_table(
            table_write_effect(mem, page, records).1,
            page,
            Ok::<Seq<FreeSegment>, MemoryError>(records),
        ),
{
    let enc = table_bytes(records);
    let after = table_write_effect(mem, page, records).1;
    lemma_write_at_frame(mem, page, 0, enc, table_size(records.len()), DEFAULT_ALIGNMENT);
    let abs = page as int * WASM_PAGE_SIZE as int;
    let bytes = table_page_bytes(after, page);
    assert(bytes =~= after.subrange(abs, abs + WASM_PAGE_SIZE));
    let rest = after.subrange(abs + enc.len(), abs + WASM_PAGE_SIZE);
    assert(bytes =~= enc + rest);
    lemma_table_roundtrip(records, rest);
}

impl FreeSegmentsTable {
    /// Loads the table stored at the start of `page`.
    pub fn load<P: MemoryProvider>(mm: &MemoryManager<P>, page: Page) -> (r: MemoryResult<Self>)
        requires
            mm.wf(),
        ensures
            loaded_table(mm@, page, table_records(r)),
    {
        mm.read_at::<FreeSegmentsTable>(page, 0)
    }
}

/// Keeps track of the free segments of a table: where records were deleted, or
/// whence they moved after growing on update, so that their space can be reused.
pub struct FreeSegmentsLedger {
    /// The page where the free segments table is stored.
    pub free_segments_page: Page,
    /// The free segments.
    pub table: FreeSegmentsTable,
}

/// A segment large enough for `size` bytes.
pub open spec fn fits(size: u16) -> spec_fn(FreeSegment) -> bool {
    |r: FreeSegment| r.size >= size
}

impl FreeSegmentsLedger {
    /// Loads the ledger stored at the start of `page`.
    pub fn load<P: MemoryProvider>(mm: &MemoryManager<P>, page: Page) -> (r: MemoryResult<Self>)
        requires
            mm.wf(),
        ensures
            match r {
                Ok(ledger) => ledger.free_segments_page == page && loaded_table(
                    mm@,
                    page,
                    Ok(ledger.table.records@),
                ),
                Err(e) => loaded_table(mm@, page, Err(e)),
            },
    {
        let table = FreeSegmentsTable::load(mm, page)?;
        Ok(FreeSegmentsLedger { free_segments_page: page, table })
    }

    /// Records the space of `record` at `page` and `offset` as free, merging it
    /// with adjacent free segments, then writes the table back to memory.
    pub fn insert_free_segment<P: MemoryProvider, E: Encode>(
        &mut self,
        mm: &mut MemoryManager<P>,
        page: Page,
        offset: PageOffset,
        record: &E,
    ) -> (r: MemoryResult<()>)
        requires
            old(mm).wf(),
        ensures
            final(mm).wf(),
            final(self).free_segments_page == old(self).free_segments_page,
            final(self).table.records@ == inserted(
                old(self).table.records@,
                page,
                offset,
                record.spec_size(),
            ),
            (r, final(mm)@) == table_write_effect(
                old(mm)@,
                old(self).free_segments_page,
                final(self).table.records@,
            ),
    {
        let size = record.size();
        self.table.insert_free_segment(page, offset, size);
        self.write(mm)
    }

    /// Finds the first free segment large enough for `record`.
    pub fn find_reusable_segment<E: Encode>(&self, record: &E) -> (r: Option<FreeSegment>)
        ensures
            match first_index(self.table.records@, fits(record.spec_size())) {
                Some(i) => r == Some(self.table.records@[i]),
                None => r is None,
            },
    {
        let required_size = record.size();
        let large_enough = |r: &FreeSegment| -> (b: bool)
            ensures
                b == (r.size >= required_size),
            { r.size >= required_size };
        let found = self.table.find(large_enough);
        proof {
            let s = self.table.records@;
            let p = fits(required_size);
            lemma_first_index(s, p);
            match found {
                Some(seg) => {
                    let i = choose|i: int|
                        {
                            &&& 0 <= i < s.len()
                            &&& #[trigger] s[i] == seg
                            &&& large_enough.ensures((&s[i],), true)
                            &&& forall|j: int|
                                0 <= j < i ==> large_enough.ensures((&s[j],), false)
                        };
                    lemma_first_index_is(s, p, i);
                },
                None => {},
            }
        }
        found
    }

    /// Marks `segment` as reused by `record`: the segment leaves the ledger and
    /// the space that `record` leaves unused becomes a new free segment; the
    /// table is then written back to memory.
    pub fn commit_reused_space<P: MemoryProvider, E: Encode>(
        &mut self,
        mm: &mut MemoryManager<P>,
        record: &E,
        segment: FreeSegment,
    ) -> (r: MemoryResult<()>)
        requires
            old(mm).wf(),
        ensures
            final(mm).wf(),
            final(self).free_segments_page == old(self).free_segments_page,
            final(self).table.records@ == removed(
                old(self).table.records@,
                segment.page,
                segment.offset,
                segment.size,
                record.spec_size(),
            ),
            (r, final(mm)@) == table_write_effect(
                old(mm)@,
                old(self).free_segments_page,
                final(self).table.records@,
            ),
    {
        let used_size = record.size();
        self.table.remove(segment.page, segment.offset, segment.size, used_size);
        self.write(mm)
    }

    /// Writes the free segments table back to its page.
    fn write<P: MemoryProvider>(&self, mm: &mut MemoryManager<P>) -> (r: MemoryResult<()>)
        requires
            old(mm).wf(),
        ensures
            final(mm).wf(),
            (r, final(mm)@) == table_write_effect(
                old(mm)@,
                self.free_segments_page,
                self.table.records@,
            ),
    {
        mm.write_at(self.free_segments_page, 0, &self.table)
    }
}

/// Yields the free segments tables stored at the start of the given pages, one
/// page after the other.
pub struct TablesIter<'a> {
    /// The position of the next page.
    index: usize,
    /// The pages to iterate over.
    pages: &'a [Page],
}

impl<'a> TablesIter<'a> {
    /// The position of the next page.
    pub closed spec fn position(&self) -> nat {
        self.index as nat
    }

    /// The pages to iterate over.
    pub closed spec fn pages(&self) -> Seq<Page> {
        self.pages@
    }

    /// Creates an iterator over the tables of `pages`.
    pub fn new(pages: &'a [Page]) -> (r: Self)
        ensures
            r.position() == 0,
            r.pages() == pages@,
    {
        TablesIter { index: 0, pages }
    }

    /// Loads the table of the next page, or gives `None` after the last page.
    pub fn next<P: MemoryProvider>(&mut self, mm: &MemoryManager<P>) -> (r: Option<
        MemoryResult<FreeSegmentsTable>,
    >)
        requires
            mm.wf(),
        ensures
            final(self).pages() == old(self).pages(),
            old(self).position() >= old(self).pages().len() ==> {
                &&& r is None
                &&& final(self).position() == old(self).position()
            },
            old(self).position() < old(self).pages().len() ==> {
                &&& final(self).position() == old(self).position() + 1
                &&& r matches Some(loaded) && loaded_table(
                    mm@,
                    old(self).pages()[old(self).position() as int],
                    table_records(loaded),
                )
            },
    {
        if self.index >= self.pages.len() {
            return None;
        }
        let page = self.pages[self.index];
        self.index = self.index + 1;
        Some(FreeSegmentsTable::load(mm, page))
    }
}

} // verus!
