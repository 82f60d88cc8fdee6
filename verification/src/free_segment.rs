//! Free segments: the spaces left in table pages by deleted or moved records,
//! and the table that keeps track of them.

use vstd::bytes::{
    lemma_auto_spec_u16_to_from_le_bytes, lemma_auto_spec_u32_to_from_le_bytes,
    spec_u16_from_le_bytes, spec_u16_to_le_bytes, spec_u32_from_le_bytes, spec_u32_to_le_bytes,
    u16_from_le_bytes, u16_to_le_bytes, u32_from_le_bytes, u32_to_le_bytes,
};
use vstd::prelude::*;
use vstd::slice::slice_subrange;

use crate::encode::Encode;
use crate::types::{
    DataSize, DecodeError, MSize, MemoryError, Page, PageOffset, DEFAULT_ALIGNMENT,
};

verus! {

/// The metadata of a free segment.
#[derive(Debug, PartialEq, Eq, Clone, Copy)]
pub struct FreeSegment {
    /// The page where the free segment is located.
    pub page: Page,
    /// The offset within the page where the free segment starts.
    pub offset: PageOffset,
    /// The size of the free segment.
    pub size: MSize,
}

/// Encoded size of a [`FreeSegment`]: page (4) + offset (2) + size (2).
pub const FREE_SEGMENT_SIZE: MSize = 8;

/// The bytes of a free segment: page, offset and size, little-endian.
pub open spec fn segment_bytes(s: FreeSegment) -> Seq<u8> {
    spec_u32_to_le_bytes(s.page) + spec_u16_to_le_bytes(s.offset) + spec_u16_to_le_bytes(s.size)
}

/// The free segment whose bytes start `b`.
pub open spec fn segment_from_bytes(b: Seq<u8>) -> FreeSegment {
    FreeSegment {
        page: spec_u32_from_le_bytes(b.subrange(0, 4)),
        offset: spec_u16_from_le_bytes(b.subrange(4, 6)),
        size: spec_u16_from_le_bytes(b.subrange(6, 8)),
    }
}

/// Decoding the bytes of a free segment, followed by anything, gives it back.
pub proof fn lemma_segment_roundtrip(s: FreeSegment, rest: Seq<u8>)
    ensures
        segment_bytes(s).len() == 8,
        segment_from_bytes(segment_bytes(s) + rest) == s,
{
    lemma_auto_spec_u16_to_from_le_bytes();
    lemma_auto_spec_u32_to_from_le_bytes();
    let b = segment_bytes(s) + rest;
    assert(b.subrange(0, 4) =~= spec_u32_to_le_bytes(s.page));
    assert(b.subrange(4, 6) =~= spec_u16_to_le_bytes(s.offset));
    assert(b.subrange(6, 8) =~= spec_u16_to_le_bytes(s.size));
}

impl Encode for FreeSegment {
    open spec fn spec_encode(&self) -> Seq<u8> {
        segment_bytes(*self)
    }

    open spec fn spec_size(&self) -> MSize {
        FREE_SEGMENT_SIZE
    }

    open spec fn spec_data_size() -> DataSize {
        DataSize::Fixed(FREE_SEGMENT_SIZE)
    }

    open spec fn spec_alignment() -> MSize {
        FREE_SEGMENT_SIZE
    }

    open spec fn spec_decodes(data: Seq<u8>, value: Self) -> bool {
        value == segment_from_bytes(data)
    }

    open spec fn spec_decode_error(data: Seq<u8>) -> Option<MemoryError> {
        if data.len() < 8 {
            Some(MemoryError::DecodeError(DecodeError::TooShort))
        } else {
            None
        }
    }

    fn data_size() -> (r: DataSize) {
        DataSize::Fixed(FREE_SEGMENT_SIZE)
    }

    fn alignment() -> (r: MSize) {
        FREE_SEGMENT_SIZE
    }

    fn encode(&self) -> (r: Vec<u8>) {
        let mut buffer = u32_to_le_bytes(self.page);
        let mut offset = u16_to_le_bytes(self.offset);
        let mut size = u16_to_le_bytes(self.size);
        buffer.append(&mut offset);
        buffer.append(&mut size);
        buffer
    }

    fn decode(data: &[u8]) -> (r: Result<Self, MemoryError>) {
        if data.len() < 8 {
            return Err(MemoryError::DecodeError(DecodeError::TooShort));
        }
        let page = u32_from_le_bytes(slice_subrange(data, 0, 4));
        let offset = u16_from_le_bytes(slice_subrange(data, 4, 6));
        let size = u16_from_le_bytes(slice_subrange(data, 6, 8));
        Ok(FreeSegment { page, offset, size })
    }

    fn size(&self) -> (r: MSize) {
        FREE_SEGMENT_SIZE
    }
}

/// The bytes of a sequence of free segments, one after the other.
pub open spec fn segments_bytes(s: Seq<FreeSegment>) -> Seq<u8>
    decreases s.len(),
{
    if s.len() == 0 {
        Seq::empty()
    } else {
        segments_bytes(s.drop_last()) + segment_bytes(s.last())
    }
}

/// The `count` free segments encoded in `data` after the 4-byte length.
pub open spec fn segments_from_bytes(data: Seq<u8>, count: nat) -> Seq<FreeSegment> {
    Seq::new(count, |i: int| segment_from_bytes(data.subrange(4 + 8 * i, 4 + 8 * i + 8)))
}

/// The bytes of each segment sit at its position in the bytes of a sequence.
pub proof fn lemma_segments_bytes(s: Seq<FreeSegment>)
    ensures
        segments_bytes(s).len() == 8 * s.len(),
        forall|i: int|
            0 <= i < s.len() ==> #[trigger] segments_bytes(s).subrange(8 * i, 8 * i + 8)
                == segment_bytes(s[i]),
    decreases s.len(),
{
    if s.len() > 0 {
        let init = s.drop_last();
        lemma_segments_bytes(init);
        lemma_segment_roundtrip(s.last(), Seq::empty());
        let b = segments_bytes(s);
        assert forall|i: int| 0 <= i < s.len() implies #[trigger] b.subrange(8 * i, 8 * i + 8)
            == segment_bytes(s[i]) by {
            if i < s.len() - 1 {
                assert(b.subrange(8 * i, 8 * i + 8) =~= segments_bytes(init).subrange(
                    8 * i,
                    8 * i + 8,
                ));
            } else {
                assert(b.subrange(8 * i, 8 * i + 8) =~= segment_bytes(s.last()));
            }
        }
    }
}

/// The table of free segments, encoded as a 4-byte little-endian count followed
/// by the segments.
#[derive(Debug, PartialEq, Eq, Clone)]
pub struct FreeSegmentsTable {
    pub records: Vec<FreeSegment>,
}

impl Default for FreeSegmentsTable {
    fn default() -> (r: Self)
        ensures
            r.records@ == Seq::<FreeSegment>::empty(),
    {
        FreeSegmentsTable { records: Vec::new() }
    }
}

/// Where a free segment lies relative to another one that touches it.
#[derive(Debug)]
pub enum AdjacentSegment {
    /// The segment ends where the other one starts.
    Before(FreeSegment),
    /// The segment starts where the other one ends.
    After(FreeSegment),
}

/// What a search through the table looks for.
enum Probe {
    /// A segment of `page` that ends at the offset.
    EndsAt(Page, PageOffset),
    /// A segment of `page` that starts at the offset.
    StartsAt(Page, PageOffset),
    /// This very segment.
    Exactly(FreeSegment),
}

/// A segment of `page` that ends at `offset`.
pub open spec fn ends_at(page: Page, offset: PageOffset) -> spec_fn(FreeSegment) -> bool {
    |r: FreeSegment| r.page == page && r.offset.saturating_add(r.size) == offset
}

/// A segment of `page` that starts at `offset`.
pub open spec fn starts_at(page: Page, offset: PageOffset) -> spec_fn(FreeSegment) -> bool {
    |r: FreeSegment| r.page == page && r.offset == offset
}

/// The segment `(page, offset, size)`.
pub open spec fn is_segment(page: Page, offset: PageOffset, size: MSize) -> spec_fn(
    FreeSegment,
) -> bool {
    |r: FreeSegment| r == FreeSegment { page, offset, size }
}

spec fn probe_pred(probe: Probe) -> spec_fn(FreeSegment) -> bool {
    match probe {
        Probe::EndsAt(page, offset) => ends_at(page, offset),
        Probe::StartsAt(page, offset) => starts_at(page, offset),
        Probe::Exactly(s) => is_segment(s.page, s.offset, s.size),
    }
}

/// The index of the first segment of `s` that satisfies `p`.
pub open spec fn first_index(s: Seq<FreeSegment>, p: spec_fn(FreeSegment) -> bool) -> Option<int>
    decreases s.len(),
{
    if s.len() == 0 {
        None
    } else if p(s[0]) {
        Some(0)
    } else {
        match first_index(s.drop_first(), p) {
            Some(i) => Some(i + 1),
            None => None,
        }
    }
}

/// The first index found is the least index whose segment satisfies the
/// predicate; when none is found, no segment satisfies it.
pub proof fn lemma_first_index(s: Seq<FreeSegment>, p: spec_fn(FreeSegment) -> bool)
    ensures
        match first_index(s, p) {
            Some(i) => 0 <= i < s.len() && p(s[i]) && forall|j: int| 0 <= j < i ==> !p(s[j]),
            None => forall|j: int| 0 <= j < s.len() ==> !p(s[j]),
        },
    decreases s.len(),
{
    if s.len() > 0 && !p(s[0]) {
        lemma_first_index(s.drop_first(), p);
        match first_index(s.drop_first(), p) {
            Some(i) => {
                assert forall|j: int| 0 <= j < i + 1 implies !p(s[j]) by {
                    if j > 0 {
                        assert(s[j] == s.drop_first()[j - 1]);
                    }
                }
            },
            None => {
                assert forall|j: int| 0 <= j < s.len() implies !p(s[j]) by {
                    if j > 0 {
                        assert(s[j] == s.drop_first()[j - 1]);
                    }
                }
            },
        }
    }
}

/// An index whose segment satisfies the predicate, with none before it doing
/// so, is the first index.
pub proof fn lemma_first_index_is(s: Seq<FreeSegment>, p: spec_fn(FreeSegment) -> bool, i: int)
    requires
        0 <= i < s.len(),
        p(s[i]),
        forall|j: int| 0 <= j < i ==> !p(s[j]),
    ensures
        first_index(s, p) == Some(i),
{
    lemma_first_index(s, p);
}

/// `s` with the segment at `i` replaced by the last one, and the last one dropped.
pub open spec fn swap_removed(s: Seq<FreeSegment>, i: int) -> Seq<FreeSegment> {
    s.update(i, s.last()).drop_last()
}

/// The records after removing the segment `(page, offset, size)` of which
/// `used_size` bytes are now used: the first equal segment is swapped out, and
/// the unused rest, if any, is appended as a new segment.
pub open spec fn removed(
    s: Seq<FreeSegment>,
    page: Page,
    offset: PageOffset,
    size: MSize,
    used_size: MSize,
) -> Seq<FreeSegment> {
    match first_index(s, is_segment(page, offset, size)) {
        None => s,
        Some(i) => {
            let rest = swap_removed(s, i);
            if used_size < size {
                rest.push(
                    FreeSegment {
                        page,
                        offset: offset.saturating_add(used_size),
                        size: size.saturating_sub(used_size),
                    },
                )
            } else {
                rest
            }
        },
    }
}

/// Removing a segment of the table, wholly used, drops one record.
pub proof fn lemma_removed_whole_len(s: Seq<FreeSegment>, i: int)
    requires
        0 <= i < s.len(),
    ensures
        removed(s, s[i].page, s[i].offset, s[i].size, s[i].size).len() == s.len() - 1,
{
    let p = is_segment(s[i].page, s[i].offset, s[i].size);
    lemma_first_index(s, p);
}

/// The records after inserting the free segment `(page, offset, size)`: a
/// segment that ends where it starts, or else one that starts where it ends, is
/// merged with it, and the merged segment is inserted again; without such a
/// neighbour the segment is appended.
pub open spec fn inserted(s: Seq<FreeSegment>, page: Page, offset: PageOffset, size: MSize) -> Seq<
    FreeSegment,
>
    decreases s.len(),
{
    match first_index(s, ends_at(page, offset)) {
        Some(i) => {
            if 0 <= i < s.len() {
                let seg = s[i];
                proof {
                    lemma_removed_whole_len(s, i);
                }
                inserted(
                    removed(s, seg.page, seg.offset, seg.size, seg.size),
                    page,
                    seg.offset,
                    seg.size.saturating_add(size),
                )
            } else {
                s
            }
        },
        None => match first_index(s, starts_at(page, offset.saturating_add(size))) {
            Some(i) => {
                if 0 <= i < s.len() {
                    let seg = s[i];
                    proof {
                        lemma_removed_whole_len(s, i);
                    }
                    inserted(
                        removed(s, seg.page, seg.offset, seg.size, seg.size),
                        page,
                        offset,
                        size.saturating_add(seg.size),
                    )
                } else {
                    s
                }
            },
            None => s.push(FreeSegment { page, offset, size }),
        },
    }
}

impl FreeSegmentsTable {
    /// Whether `r` is what `probe` looks for.
    fn probe_matches(probe: &Probe, r: &FreeSegment) -> (b: bool)
        ensures
            b == (probe_pred(*probe))(*r),
    {
        match probe {
            Probe::EndsAt(page, offset) => r.page == *page && r.offset.saturating_add(r.size)
                == *offset,
            Probe::StartsAt(page, offset) => r.page == *page && r.offset == *offset,
            Probe::Exactly(s) => r.page == s.page && r.offset == s.offset && r.size == s.size,
        }
    }

    /// The index of the first record that `probe` looks for.
    fn first_match(&self, probe: Probe) -> (r: Option<usize>)
        ensures
            match r {
                Some(i) => first_index(self.records@, probe_pred(probe)) == Some(i as int),
                None => first_index(self.records@, probe_pred(probe)) is None,
            },
    {
        let ghost p = probe_pred(probe);
        let mut i: usize = 0;
        while i < self.records.len()
            invariant
                i <= self.records@.len(),
                p == probe_pred(probe),
                forall|j: int| 0 <= j < i ==> !p(self.records@[j]),
            decreases self.records@.len() - i,
        {
            if Self::probe_matches(&probe, &self.records[i]) {
                proof {
                    lemma_first_index_is(self.records@, p, i as int);
                }
                return Some(i);
            }
            i = i + 1;
        }
        proof {
            lemma_first_index(self.records@, p);
        }
        None
    }

    /// Inserts a new [`FreeSegment`] into the table, merging it with the free
    /// segments adjacent to it on the same page.
    pub fn insert_free_segment(&mut self, page: Page, offset: PageOffset, size: MSize)
        ensures
            final(self).records@ == inserted(old(self).records@, page, offset, size),
        decreases old(self).records@.len(),
    {
        match self.has_adjacent_segment(page, offset, size) {
            Some(AdjacentSegment::Before(seg)) => {
                let new_size = seg.size.saturating_add(size);
                proof {
                    lemma_first_index(self.records@, ends_at(page, offset));
                    let i = first_index(self.records@, ends_at(page, offset))->0;
                    lemma_removed_whole_len(self.records@, i);
                }
                self.remove(seg.page, seg.offset, seg.size, seg.size);
                self.insert_free_segment(page, seg.offset, new_size);
            },
            Some(AdjacentSegment::After(seg)) => {
                let new_size = size.saturating_add(seg.size);
                proof {
                    lemma_first_index(
                        self.records@,
                        starts_at(page, offset.saturating_add(size)),
                    );
                    let i = first_index(
                        self.records@,
                        starts_at(page, offset.saturating_add(size)),
                    )->0;
                    lemma_removed_whole_len(self.records@, i);
                }
                self.remove(seg.page, seg.offset, seg.size, seg.size);
                self.insert_free_segment(page, offset, new_size);
            },
            None => {
                self.records.push(FreeSegment { page, offset, size });
            },
        }
    }

    /// Finds the first free segment that satisfies `predicate`.
    pub fn find<F: Fn(&FreeSegment) -> bool>(&self, predicate: F) -> (r: Option<FreeSegment>)
        requires
            forall|s: FreeSegment| #[trigger] predicate.requires((&s,)),
        ensures
            match r {
                Some(seg) => exists|i: int|
                    {
                        &&& 0 <= i < self.records@.len()
                        &&& #[trigger] self.records@[i] == seg
                        &&& predicate.ensures((&self.records@[i],), true)
                        &&& forall|j: int|
                            0 <= j < i ==> predicate.ensures((&self.records@[j],), false)
                    },
                None => forall|i: int|
                    0 <= i < self.records@.len() ==> predicate.ensures((&self.records@[i],), false),
            },
    {
        let mut i: usize = 0;
        while i < self.records.len()
            invariant
                i <= self.records@.len(),
                forall|s: FreeSegment| #[trigger] predicate.requires((&s,)),
                forall|j: int|
                    0 <= j < i ==> predicate.ensures((&self.records@[j],), false),
            decreases self.records@.len() - i,
        {
            let record = &self.records[i];
            if predicate(record) {
                return Some(*record);
            }
            i = i + 1;
        }
        None
    }

    /// Removes the free segment `(page, offset, size)`, if present.
    ///
    /// If `used_size` is less than `size`, a new segment is added for the
    /// remaining free space.
    pub fn remove(&mut self, page: Page, offset: PageOffset, size: MSize, used_size: MSize)
        ensures
            final(self).records@ == removed(old(self).records@, page, offset, size, used_size),
    {
        let target = FreeSegment { page, offset, size };
        if let Some(pos) = self.first_match(Probe::Exactly(target)) {
            proof {
                lemma_first_index(self.records@, is_segment(page, offset, size));
            }
            self.records.swap_remove(pos);
            if used_size < size {
                let remaining_size = size.saturating_sub(used_size);
                let new_offset = offset.saturating_add(used_size);
                self.records.push(FreeSegment { page, offset: new_offset, size: remaining_size });
            }
        }
    }

    /// Checks for a free segment adjacent to the given one, looking first before
    /// it, then after it.
    pub fn has_adjacent_segment(&self, page: Page, offset: PageOffset, size: MSize) -> (r: Option<
        AdjacentSegment,
    >)
        ensures
            match first_index(self.records@, ends_at(page, offset)) {
                Some(i) => r == Some(AdjacentSegment::Before(self.records@[i])),
                None => match first_index(self.records@, starts_at(page, offset.saturating_add(size))) {
                    Some(i) => r == Some(AdjacentSegment::After(self.records@[i])),
                    None => r is None,
                },
            },
    {
        match self.has_adjacent_segment_before(page, offset) {
            Some(adjacent) => Some(adjacent),
            None => self.has_adjacent_segment_after(page, offset, size),
        }
    }

    /// Checks for a free segment of `page` that ends at `offset`.
    pub fn has_adjacent_segment_before(&self, page: Page, offset: PageOffset) -> (r: Option<
        AdjacentSegment,
    >)
        ensures
            match first_index(self.records@, ends_at(page, offset)) {
                Some(i) => r == Some(AdjacentSegment::Before(self.records@[i])),
                None => r is None,
            },
    {
        match self.first_match(Probe::EndsAt(page, offset)) {
            Some(i) => {
                proof {
                    lemma_first_index(self.records@, ends_at(page, offset));
                }
                Some(AdjacentSegment::Before(self.records[i]))
            },
            None => None,
        }
    }

    /// Checks for a free segment of `page` that starts where the segment
    /// `(offset, size)` ends.
    pub fn has_adjacent_segment_after(&self, page: Page, offset: PageOffset, size: MSize) -> (r:
        Option<AdjacentSegment>)
        ensures
            match first_index(self.records@, starts_at(page, offset.saturating_add(size))) {
                Some(i) => r == Some(AdjacentSegment::After(self.records@[i])),
                None => r is None,
            },
    {
        match self.first_match(Probe::StartsAt(page, offset.saturating_add(size))) {
            Some(i) => {
                proof {
                    lemma_first_index(self.records@, starts_at(page, offset.saturating_add(size)));
                }
                Some(AdjacentSegment::After(self.records[i]))
            },
            None => None,
        }
    }
}

/// The bytes that a segment frees on `page`.
pub open spec fn freed_on(r: FreeSegment, page: Page) -> int {
    if r.page == page {
        r.size as int
    } else {
        0
    }
}

/// The total number of free bytes that the segments of `s` record on `page`.
pub open spec fn page_free(s: Seq<FreeSegment>, page: Page) -> int
    decreases s.len(),
{
    if s.len() == 0 {
        0
    } else {
        page_free(s.drop_last(), page) + freed_on(s.last(), page)
    }
}

proof fn lemma_page_free_bounds(s: Seq<FreeSegment>, page: Page)
    ensures
        page_free(s, page) >= 0,
        forall|i: int| 0 <= i < s.len() ==> freed_on(#[trigger] s[i], page) <= page_free(s, page),
    decreases s.len(),
{
    if s.len() > 0 {
        lemma_page_free_bounds(s.drop_last(), page);
        assert forall|i: int| 0 <= i < s.len() implies freed_on(#[trigger] s[i], page)
            <= page_free(s, page) by {
            if i < s.len() - 1 {
                assert(s[i] == s.drop_last()[i]);
            }
        }
    }
}

proof fn lemma_page_free_push(s: Seq<FreeSegment>, x: FreeSegment, page: Page)
    ensures
        page_free(s.push(x), page) == page_free(s, page) + freed_on(x, page),
{
    assert(s.push(x).drop_last() =~= s);
}

proof fn lemma_page_free_update(s: Seq<FreeSegment>, i: int, x: FreeSegment, page: Page)
    requires
        0 <= i < s.len(),
    ensures
        page_free(s.update(i, x), page) == page_free(s, page) - freed_on(s[i], page) + freed_on(
            x,
            page,
        ),
    decreases s.len(),
{
    let u = s.update(i, x);
    if i == s.len() - 1 {
        assert(u.drop_last() =~= s.drop_last());
    } else {
        lemma_page_free_update(s.drop_last(), i, x, page);
        assert(u.drop_last() =~= s.drop_last().update(i, x));
    }
}

proof fn lemma_page_free_swap_removed(s: Seq<FreeSegment>, i: int, page: Page)
    requires
        0 <= i < s.len(),
    ensures
        page_free(swap_removed(s, i), page) == page_free(s, page) - freed_on(s[i], page),
{
    let u = s.update(i, s.last());
    lemma_page_free_update(s, i, s.last(), page);
    assert(u.last() == s.last());
}

/// Removing the segment `(page, offset, size)`, of which `used_size` bytes are
/// used, takes the used bytes off the free bytes of its page and leaves the
/// other pages as they were; when no such segment is recorded nothing changes.
pub proof fn lemma_removed_page_free(
    s: Seq<FreeSegment>,
    page: Page,
    offset: PageOffset,
    size: MSize,
    used_size: MSize,
    q: Page,
)
    ensures
        first_index(s, is_segment(page, offset, size)) is None ==> removed(
            s,
            page,
            offset,
            size,
            used_size,
        ) == s,
        first_index(s, is_segment(page, offset, size)) is Some ==> page_free(
            removed(s, page, offset, size, used_size),
            q,
        ) == page_free(s, q) - (if q == page {
            if used_size < size {
                used_size as int
            } else {
                size as int
            }
        } else {
            0
        }),
{
    lemma_first_index(s, is_segment(page, offset, size));
    match first_index(s, is_segment(page, offset, size)) {
        Some(i) => {
            lemma_page_free_swap_removed(s, i, q);
            if used_size < size {
                lemma_page_free_push(
                    swap_removed(s, i),
                    FreeSegment {
                        page,
                        offset: offset.saturating_add(used_size),
                        size: size.saturating_sub(used_size),
                    },
                    q,
                );
            }
        },
        None => {},
    }
}

/// Inserting a free segment adds its size to the free bytes of its page, and
/// leaves the free bytes of every other page as they were, provided that the
/// free bytes of the page, the new segment included, fit in an [`MSize`].
pub proof fn lemma_inserted_page_free(
    s: Seq<FreeSegment>,
    page: Page,
    offset: PageOffset,
    size: MSize,
    q: Page,
)
    requires
        page_free(s, page) + size <= u16::MAX,
    ensures
        page_free(inserted(s, page, offset, size), q) == page_free(s, q) + (if q == page {
            size as int
        } else {
            0
        }),
    decreases s.len(),
{
    lemma_page_free_bounds(s, page);
    lemma_first_index(s, ends_at(page, offset));
    lemma_first_index(s, starts_at(page, offset.saturating_add(size)));
    match first_index(s, ends_at(page, offset)) {
        Some(i) => {
            let seg = s[i];
            lemma_removed_whole_len(s, i);
            lemma_first_index(s, is_segment(seg.page, seg.offset, seg.size));
            let rest = removed(s, seg.page, seg.offset, seg.size, seg.size);
            lemma_removed_page_free(s, seg.page, seg.offset, seg.size, seg.size, page);
            lemma_removed_page_free(s, seg.page, seg.offset, seg.size, seg.size, q);
            lemma_inserted_page_free(rest, page, seg.offset, seg.size.saturating_add(size), q);
        },
        None => match first_index(s, starts_at(page, offset.saturating_add(size))) {
            Some(i) => {
                let seg = s[i];
                lemma_removed_whole_len(s, i);
                lemma_first_index(s, is_segment(seg.page, seg.offset, seg.size));
                let rest = removed(s, seg.page, seg.offset, seg.size, seg.size);
                lemma_removed_page_free(s, seg.page, seg.offset, seg.size, seg.size, page);
                lemma_removed_page_free(s, seg.page, seg.offset, seg.size, seg.size, q);
                lemma_inserted_page_free(rest, page, offset, size.saturating_add(seg.size), q);
            },
            None => {
                lemma_page_free_push(s, FreeSegment { page, offset, size }, q);
            },
        },
    }
}

/// Inserting a free segment appends the segment that results from all the
/// merges, on the same page, and leaves no other segment of the table touching
/// it on either side.
pub proof fn lemma_inserted_absorbs_neighbours(
    s: Seq<FreeSegment>,
    page: Page,
    offset: PageOffset,
    size: MSize,
)
    ensures
        ({
            let r = inserted(s, page, offset, size);
            let m = r.last();
            &&& r.len() >= 1
            &&& m.page == page
            &&& forall|i: int|
                0 <= i < r.len() - 1 ==> !(ends_at(page, m.offset))(#[trigger] r[i]) && !(
                starts_at(page, m.offset.saturating_add(m.size)))(r[i])
        }),
    decreases s.len(),
{
    lemma_first_index(s, ends_at(page, offset));
    lemma_first_index(s, starts_at(page, offset.saturating_add(size)));
    match first_index(s, ends_at(page, offset)) {
        Some(i) => {
            let seg = s[i];
            lemma_removed_whole_len(s, i);
            let rest = removed(s, seg.page, seg.offset, seg.size, seg.size);
            lemma_inserted_absorbs_neighbours(rest, page, seg.offset, seg.size.saturating_add(size));
        },
        None => match first_index(s, starts_at(page, offset.saturating_add(size))) {
            Some(i) => {
                let seg = s[i];
                lemma_removed_whole_len(s, i);
                let rest = removed(s, seg.page, seg.offset, seg.size, seg.size);
                lemma_inserted_absorbs_neighbours(rest, page, offset, size.saturating_add(seg.size));
            },
            None => {
                let r = s.push(FreeSegment { page, offset, size });
                assert forall|i: int| 0 <= i < r.len() - 1 implies !(ends_at(page, offset))(
                    #[trigger] r[i],
                ) && !(starts_at(page, offset.saturating_add(size)))(r[i]) by {
                    assert(r[i] == s[i]);
                }
            },
        },
    }
}

/// No segment of `s` ends where a segment of the same page starts.
pub open spec fn no_adjacent(s: Seq<FreeSegment>) -> bool {
    forall|i: int, j: int|
        #![trigger s[i], s[j]]
        0 <= i < s.len() && 0 <= j < s.len() && s[i].page == s[j].page ==> s[i].offset
            + s[i].size != s[j].offset
}

/// Every segment of `s` holds at least one byte and ends within the offsets of
/// a page.
pub open spec fn segments_in_page(s: Seq<FreeSegment>) -> bool {
    forall|i: int| 0 <= i < s.len() ==> #[trigger] s[i].size > 0 && s[i].offset + s[i].size <= u16::MAX
}

/// Byte `b` of page `q` lies in a free segment of `s`.
pub open spec fn covers(s: Seq<FreeSegment>, q: Page, b: int) -> bool {
    exists|i: int|
        0 <= i < s.len() && #[trigger] s[i].page == q && s[i].offset <= b < s[i].offset + s[i].size
}

/// The segments left after swapping out the one at `j` are those of `s` at
/// every other position.
proof fn lemma_swap_removed_at(s: Seq<FreeSegment>, j: int)
    requires
        0 <= j < s.len(),
    ensures
        swap_removed(s, j).len() == s.len() - 1,
        forall|k: int|
            0 <= k < s.len() - 1 ==> #[trigger] swap_removed(s, j)[k] == s[if k == j {
                s.len() - 1
            } else {
                k
            }],
{
}

/// The segments left after swapping out the one at `j` keep the properties of
/// those of `s`, and cover what `s` covers but the bytes of the one swapped
/// out.
proof fn lemma_swap_removed_keeps(s: Seq<FreeSegment>, j: int)
    requires
        0 <= j < s.len(),
        no_adjacent(s),
        segments_in_page(s),
    ensures
        no_adjacent(swap_removed(s, j)),
        segments_in_page(swap_removed(s, j)),
        forall|q: Page, b: int|
            #[trigger] covers(s, q, b) <==> covers(swap_removed(s, j), q, b) || (s[j].page == q
                && s[j].offset <= b < s[j].offset + s[j].size),
{
    let r = swap_removed(s, j);
    let n = s.len() - 1;
    lemma_swap_removed_at(s, j);
    assert forall|x: int, y: int|
        #![trigger r[x], r[y]]
        0 <= x < r.len() && 0 <= y < r.len() && r[x].page == r[y].page implies r[x].offset
        + r[x].size != r[y].offset by {
        let sx = if x == j {
            n
        } else {
            x
        };
        let sy = if y == j {
            n
        } else {
            y
        };
        assert(r[x] == s[sx] && r[y] == s[sy]);
    }
    assert forall|x: int| 0 <= x < r.len() implies #[trigger] r[x].size > 0 && r[x].offset
        + r[x].size <= u16::MAX by {
        let sx = if x == j {
            n
        } else {
            x
        };
        assert(r[x] == s[sx]);
    }
    assert forall|q: Page, b: int| #[trigger] covers(s, q, b) <==> covers(r, q, b) || (s[j].page
        == q && s[j].offset <= b < s[j].offset + s[j].size) by {
        if covers(s, q, b) {
            let k = choose|k: int|
                0 <= k < s.len() && #[trigger] s[k].page == q && s[k].offset <= b < s[k].offset
                    + s[k].size;
            if k != j {
                let rk = if k == n {
                    j
                } else {
                    k
                };
                assert(r[rk] == s[k]);
            }
        }
        if covers(r, q, b) {
            let k = choose|k: int|
                0 <= k < r.len() && #[trigger] r[k].page == q && r[k].offset <= b < r[k].offset
                    + r[k].size;
            let sk = if k == j {
                n
            } else {
                k
            };
            assert(r[k] == s[sk]);
        }
        if s[j].page == q && s[j].offset <= b < s[j].offset + s[j].size {
            assert(s[j].page == q);
        }
    }
}

/// Inserting a free segment into a table where no segment of a page touches
/// another one keeps it so: the new segment is merged with the segments it
/// touches, and the free bytes afterwards are those before together with the
/// inserted range. When no segment of the page touches the inserted range, it
/// is appended as it is. Segments are taken to be non-empty and to end within
/// the offsets of a page.
pub proof fn lemma_inserted_keeps_segments_apart(
    s: Seq<FreeSegment>,
    page: Page,
    offset: PageOffset,
    size: MSize,
)
    requires
        no_adjacent(s),
        segments_in_page(s),
        size > 0,
        offset + size <= u16::MAX,
    ensures
        no_adjacent(inserted(s, page, offset, size)),
        segments_in_page(inserted(s, page, offset, size)),
        forall|q: Page, b: int|
            #[trigger] covers(inserted(s, page, offset, size), q, b) <==> covers(s, q, b) || (q
                == page && offset <= b < offset + size),
        (forall|i: int|
            0 <= i < s.len() ==> !(#[trigger] s[i].page == page && (s[i].offset + s[i].size
                == offset || s[i].offset == offset + size))) ==> inserted(s, page, offset, size)
            == s.push(FreeSegment { page, offset, size }),
    decreases s.len(),
{
    let r = inserted(s, page, offset, size);
    lemma_first_index(s, ends_at(page, offset));
    lemma_first_index(s, starts_at(page, offset.saturating_add(size)));
    match first_index(s, ends_at(page, offset)) {
        Some(i) => {
            let seg = s[i];
            assert(seg.size > 0 && seg.offset + seg.size <= u16::MAX);
            lemma_first_index(s, is_segment(seg.page, seg.offset, seg.size));
            let j = first_index(s, is_segment(seg.page, seg.offset, seg.size))->0;
            lemma_removed_whole_len(s, i);
            let rest = removed(s, seg.page, seg.offset, seg.size, seg.size);
            assert(rest == swap_removed(s, j));
            lemma_swap_removed_keeps(s, j);
            let new_size = seg.size.saturating_add(size);
            assert(new_size == seg.size + size);
            lemma_inserted_keeps_segments_apart(rest, page, seg.offset, new_size);
            assert(r == inserted(rest, page, seg.offset, new_size));
            assert forall|q: Page, b: int| #[trigger] covers(r, q, b) <==> covers(s, q, b) || (q
                == page && offset <= b < offset + size) by {
                assert(covers(s, q, b) <==> covers(rest, q, b) || (seg.page == q && seg.offset
                    <= b < seg.offset + seg.size));
            }
        },
        None => match first_index(s, starts_at(page, offset.saturating_add(size))) {
            Some(i) => {
                let seg = s[i];
                assert(seg.size > 0 && seg.offset + seg.size <= u16::MAX);
                lemma_first_index(s, is_segment(seg.page, seg.offset, seg.size));
                let j = first_index(s, is_segment(seg.page, seg.offset, seg.size))->0;
                lemma_removed_whole_len(s, i);
                let rest = removed(s, seg.page, seg.offset, seg.size, seg.size);
                assert(rest == swap_removed(s, j));
                lemma_swap_removed_keeps(s, j);
                let new_size = size.saturating_add(seg.size);
                assert(new_size == size + seg.size);
                assert(offset.saturating_add(size) == offset + size);
                assert(seg.page == page && seg.offset == offset + size);
                lemma_inserted_keeps_segments_apart(rest, page, offset, new_size);
                assert(r == inserted(rest, page, offset, new_size));
                assert forall|q: Page, b: int| #[trigger] covers(r, q, b) <==> covers(s, q, b) || (q
                    == page && offset <= b < offset + size) by {
                    assert(covers(s, q, b) <==> covers(rest, q, b) || (seg.page == q && seg.offset
                        <= b < seg.offset + seg.size));
                }
            },
            None => {
                let seg = FreeSegment { page, offset, size };
                assert(r == s.push(seg));
                assert forall|x: int, y: int|
                    #![trigger r[x], r[y]]
                    0 <= x < r.len() && 0 <= y < r.len() && r[x].page == r[y].page implies r[x].offset
                    + r[x].size != r[y].offset by {
                    if x < s.len() {
                        assert(r[x] == s[x]);
                        assert(!(ends_at(page, offset))(s[x]));
                    }
                    if y < s.len() {
                        assert(r[y] == s[y]);
                        assert(!(starts_at(page, offset.saturating_add(size)))(s[y]));
                    }
                }
                assert forall|x: int| 0 <= x < r.len() implies #[trigger] r[x].size > 0
                    && r[x].offset + r[x].size <= u16::MAX by {
                    if x < s.len() {
                        assert(r[x] == s[x]);
                    }
                }
                assert forall|q: Page, b: int| #[trigger] covers(r, q, b) <==> covers(s, q, b) || (q
                    == page && offset <= b < offset + size) by {
                    if covers(s, q, b) {
                        let k = choose|k: int|
                            0 <= k < s.len() && #[trigger] s[k].page == q && s[k].offset <= b
                                < s[k].offset + s[k].size;
                        assert(r[k] == s[k]);
                        assert(r[k].page == q && r[k].offset <= b < r[k].offset + r[k].size);
                    }
                    if covers(r, q, b) {
                        let k = choose|k: int|
                            0 <= k < r.len() && #[trigger] r[k].page == q && r[k].offset <= b
                                < r[k].offset + r[k].size;
                        if k < s.len() {
                            assert(r[k] == s[k]);
                            assert(s[k].page == q && s[k].offset <= b < s[k].offset + s[k].size);
                        }
                    }
                    if q == page && offset <= b < offset + size {
                        let last = s.len() as int;
                        assert(r[last] == seg);
                        assert(r[last].page == q && r[last].offset <= b < r[last].offset
                            + r[last].size);
                    }
                }
            },
        },
    }
    if forall|i: int|
        0 <= i < s.len() ==> !(#[trigger] s[i].page == page && (s[i].offset + s[i].size == offset
            || s[i].offset == offset + size)) {
        match first_index(s, ends_at(page, offset)) {
            Some(i) => {
                assert(s[i].page == page);
            },
            None => match first_index(s, starts_at(page, offset.saturating_add(size))) {
                Some(i) => {
                    assert(s[i].page == page);
                },
                None => {},
            },
        }
    }
}

/// Updating the segment at `i` takes that segment out of the multiset of
/// segments and puts the new one in.
proof fn lemma_update_multiset(s: Seq<FreeSegment>, i: int, x: FreeSegment)
    requires
        0 <= i < s.len(),
    ensures
        s.update(i, x).to_multiset() =~= s.to_multiset().remove(s[i]).insert(x),
{
    broadcast use vstd::seq_lib::group_to_multiset_ensures;

    let u = s.update(i, x);
    assert(u.remove(i) =~= s.remove(i));
    assert(u.to_multiset().remove(x) =~= s.to_multiset().remove(s[i]));
    assert(u.contains(x)) by {
        assert(u[i] == x);
    }
    assert(u.to_multiset().count(x) > 0);
}

/// Removing a segment takes one copy of it out of the segments and, when part
/// of it stays unused, puts the unused part in; when the table does not hold
/// it, nothing changes.
pub proof fn lemma_removed_multiset(
    s: Seq<FreeSegment>,
    page: Page,
    offset: PageOffset,
    size: MSize,
    used_size: MSize,
)
    ensures
        !s.contains(FreeSegment { page, offset, size }) ==> removed(
            s,
            page,
            offset,
            size,
            used_size,
        ) == s,
        s.contains(FreeSegment { page, offset, size }) ==> removed(
            s,
            page,
            offset,
            size,
            used_size,
        ).to_multiset() =~= if used_size < size {
            s.to_multiset().remove(FreeSegment { page, offset, size }).insert(
                FreeSegment {
                    page,
                    offset: offset.saturating_add(used_size),
                    size: size.saturating_sub(used_size),
                },
            )
        } else {
            s.to_multiset().remove(FreeSegment { page, offset, size })
        },
{
    broadcast use vstd::seq_lib::group_to_multiset_ensures;

    let target = FreeSegment { page, offset, size };
    lemma_first_index(s, is_segment(page, offset, size));
    match first_index(s, is_segment(page, offset, size)) {
        Some(i) => {
            let t = s.drop_last();
            let l = s.last();
            assert(s =~= t.push(l));
            assert(s.to_multiset() =~= t.to_multiset().insert(l));
            if i == s.len() - 1 {
                assert(swap_removed(s, i) =~= t);
            } else {
                assert(swap_removed(s, i) =~= t.update(i, l));
                lemma_update_multiset(t, i, l);
                assert(t[i] == s[i]);
                assert(t.contains(t[i]));
                assert(t.to_multiset().count(t[i]) > 0);
            }
            assert(swap_removed(s, i).to_multiset() =~= s.to_multiset().remove(target));
        },
        None => {
            if s.contains(target) {
                let k = choose|k: int| 0 <= k < s.len() && s[k] == target;
                assert((is_segment(page, offset, size))(s[k]));
            }
        },
    }
}

/// The bytes of a table holding `records`.
pub open spec fn table_bytes(records: Seq<FreeSegment>) -> Seq<u8> {
    spec_u32_to_le_bytes(records.len() as u32) + segments_bytes(records)
}

/// The number of segments that the bytes of a table announce.
pub open spec fn table_count(data: Seq<u8>) -> nat {
    spec_u32_from_le_bytes(data.subrange(0, 4)) as nat
}

/// The encoded size of a table of `n` segments, saturated at [`MSize::MAX`].
pub open spec fn table_size(n: nat) -> MSize {
    if 4 + 8 * n > u16::MAX {
        u16::MAX
    } else {
        (4 + 8 * n) as MSize
    }
}

impl Encode for FreeSegmentsTable {
    open spec fn spec_encode(&self) -> Seq<u8> {
        table_bytes(self.records@)
    }

    open spec fn spec_size(&self) -> MSize {
        table_size(self.records@.len())
    }

    open spec fn spec_data_size() -> DataSize {
        DataSize::Dynamic
    }

    open spec fn spec_alignment() -> MSize {
        DEFAULT_ALIGNMENT
    }

    open spec fn spec_decodes(data: Seq<u8>, value: Self) -> bool {
        value.records@ == segments_from_bytes(data, table_count(data))
    }

    open spec fn spec_decode_error(data: Seq<u8>) -> Option<MemoryError> {
        if data.len() < 4 || data.len() < 4 + 8 * table_count(data) {
            Some(MemoryError::DecodeError(DecodeError::TooShort))
        } else {
            None
        }
    }

    fn data_size() -> (r: DataSize) {
        DataSize::Dynamic
    }

    fn alignment() -> (r: MSize) {
        DEFAULT_ALIGNMENT
    }

    /// The size of the count (4 bytes) plus the size of each segment.
    fn size(&self) -> (r: MSize) {
        let n = self.records.len();
        if n > 8191 {
            u16::MAX
        } else {
            4 + 8 * n as MSize
        }
    }

    fn encode(&self) -> (r: Vec<u8>) {
        let mut buffer = u32_to_le_bytes(self.records.len() as u32);
        let ghost prefix = buffer@;
        let mut i: usize = 0;
        while i < self.records.len()
            invariant
                i <= self.records@.len(),
                buffer@ == prefix + segments_bytes(self.records@.subrange(0, i as int)),
            decreases self.records@.len() - i,
        {
            let mut bytes = self.records[i].encode();
            buffer.append(&mut bytes);
            proof {
                let s = self.records@.subrange(0, i as int + 1);
                assert(s.drop_last() =~= self.records@.subrange(0, i as int));
                assert(buffer@ =~= prefix + segments_bytes(s));
            }
            i = i + 1;
        }
        assert(self.records@.subrange(0, self.records@.len() as int) =~= self.records@);
        buffer
    }

    fn decode(data: &[u8]) -> (r: Result<Self, MemoryError>) {
        if data.len() < 4 {
            return Err(MemoryError::DecodeError(DecodeError::TooShort));
        }
        let length = u32_from_le_bytes(slice_subrange(data, 0, 4));
        if ((data.len() - 4) as u64) < 8 * (length as u64) {
            return Err(MemoryError::DecodeError(DecodeError::TooShort));
        }
        let mut records: Vec<FreeSegment> = Vec::new();
        let mut offset: usize = 4;
        let mut i: u32 = 0;
        while i < length
            invariant
                i <= length,
                length as nat == table_count(data@),
                4 + 8 * (length as int) <= data.len(),
                offset == 4 + 8 * (i as int),
                records@ == segments_from_bytes(data@, length as nat).subrange(0, i as int),
            decreases length - i,
        {
            let chunk = slice_subrange(data, offset, offset + 8);
            let record = match FreeSegment::decode(chunk) {
                Ok(record) => record,
                Err(e) => return Err(e),
            };
            records.push(record);
            proof {
                assert(data@.subrange(offset as int, offset + 8) =~= chunk@);
                assert(records@ =~= segments_from_bytes(data@, length as nat).subrange(
                    0,
                    i as int + 1,
                ));
            }
            offset = offset + 8;
            i = i + 1;
        }
        assert(records@ =~= segments_from_bytes(data@, table_count(data@)));
        Ok(FreeSegmentsTable { records })
    }
}

/// Decoding the bytes of a table, followed by anything, gives back its records,
/// provided that their number fits the 4-byte count.
pub proof fn lemma_table_roundtrip(records: Seq<FreeSegment>, rest: Seq<u8>)
    requires
        records.len() <= u32::MAX,
    ensures
        FreeSegmentsTable::spec_decode_error(table_bytes(records) + rest) is None,
        segments_from_bytes(table_bytes(records) + rest, table_count(table_bytes(records) + rest))
            == records,
{
    lemma_auto_spec_u32_to_from_le_bytes();
    lemma_segments_bytes(records);
    let data = table_bytes(records) + rest;
    assert(data.subrange(0, 4) =~= spec_u32_to_le_bytes(records.len() as u32));
    assert(table_count(data) == records.len());
    let decoded = segments_from_bytes(data, records.len());
    assert forall|i: int| 0 <= i < records.len() implies decoded[i] == records[i] by {
        let body = segments_bytes(records);
        assert(data.subrange(4 + 8 * i, 4 + 8 * i + 8) =~= body.subrange(8 * i, 8 * i + 8));
        assert(body.subrange(8 * i, 8 * i + 8) == segment_bytes(records[i]));
        lemma_segment_roundtrip(records[i], Seq::empty());
        assert(segment_bytes(records[i]) + Seq::<u8>::empty() =~= segment_bytes(records[i]));
    }
    assert(decoded =~= records);
}

} // verus!
