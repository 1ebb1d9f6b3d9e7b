//! The stretches of a loaded image that later searches walk through.

use vstd::prelude::*;

use crate::format::NsoSegment;

verus! {

/// A stretch of the image: its file range and its memory range.
#[derive(Debug, Clone, Copy, PartialEq, Eq, Structural)]
pub struct SearchSection {
    pub offset: u64,
    pub offset_end: u64,
    pub address: u64,
    pub address_end: u64,
}

impl SearchSection {
    pub fn new(offset: u64, offset_end: u64, address: u64, address_end: u64) -> (s: Self)
        ensures
            s == (SearchSection { offset, offset_end, address, address_end }),
    {
        SearchSection { offset, offset_end, address, address_end }
    }
}

/// The search section that covers a segment.
pub open spec fn section_of(seg: NsoSegment) -> SearchSection {
    SearchSection {
        offset: seg.file_offset,
        offset_end: (seg.file_offset + seg.decompressed_size) as u64,
        address: seg.memory_offset,
        address_end: (seg.memory_offset + seg.decompressed_size) as u64,
    }
}

/// The image and its sections, grouped for searching, with the counts that the
/// search looks for.
pub struct SectionHelper<'a> {
    pub image: &'a [u8],
    pub is_32bit: bool,
    /// Whether pointers are looked for in the executable sections; an NSO image
    /// always asks for it.
    pub pointer_in_exec: bool,
    pub all: Vec<SearchSection>,
    pub data_list: Vec<SearchSection>,
    pub exec_list: Vec<SearchSection>,
    pub bss_list: Vec<SearchSection>,
    pub method_count: usize,
    pub type_definitions_count: usize,
    pub metadata_usages_count: usize,
    pub image_count: usize,
}

/// A segment's search section spans its file range and its memory range, from
/// the start offset to the start plus the size.
pub proof fn law_section_spans_segment(seg: NsoSegment)
    requires
        seg.file_offset + seg.decompressed_size <= u64::MAX,
        seg.memory_offset + seg.decompressed_size <= u64::MAX,
    ensures
        section_of(seg).offset == seg.file_offset,
        section_of(seg).offset_end == seg.file_offset + seg.decompressed_size,
        section_of(seg).address == seg.memory_offset,
        section_of(seg).address_end == seg.memory_offset + seg.decompressed_size,
{
}

} // verus!
