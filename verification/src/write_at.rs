//! Where a record is to be written in a table.

use vstd::prelude::*;

use crate::free_segment::FreeSegment;
use crate::types::{Page, PageOffset};

verus! {

/// Indicates where to write a record.
#[derive(Debug, PartialEq, Eq, Clone)]
pub enum WriteAt {
    /// Write at a previously freed segment.
    ReusedSegment(FreeSegment),
    /// Write at the end of the table.
    End(Page, PageOffset),
}

impl WriteAt {
    /// Gets the page where to write the record.
    pub fn page(&self) -> (r: Page)
        ensures
            r == match *self {
                WriteAt::ReusedSegment(segment) => segment.page,
                WriteAt::End(page, _) => page,
            },
    {
        match self {
            WriteAt::ReusedSegment(segment) => segment.page,
            WriteAt::End(page, _) => *page,
        }
    }

    /// Gets the offset where to write the record.
    pub fn offset(&self) -> (r: PageOffset)
        ensures
            r == match *self {
                WriteAt::ReusedSegment(segment) => segment.offset,
                WriteAt::End(_, offset) => offset,
            },
    {
        match self {
            WriteAt::ReusedSegment(segment) => segment.offset,
            WriteAt::End(_, offset) => *offset,
        }
    }
}

} // verus!
