//! The map of the flash regions that the bootloader works on.
//!
//! Five half-open address ranges, each made of whole pages: the bootloader's
//! own code, the scratch pages, the two state pages, and the two image slots.

use core::ops::Range;
use vstd::prelude::*;

verus! {

/// The size of a page in bytes.
pub const PAGE_SIZE: u32 = 0x0000_1000;

/// The number of 32-bit words in a page.
pub const PAGE_WORDS: usize = 1024;

/// The size of the flash window in bytes: page addresses lie below it.
pub const FLASH_SIZE: u32 = 0x0010_0000;

/// The number of pages in the flash window.
pub const FLASH_PAGES: u32 = 256;

/// Whether `start..end` is a range of whole pages inside the flash window.
pub open spec fn region_wf(start: u32, end: u32) -> bool {
    &&& start <= end <= FLASH_SIZE
    &&& start % PAGE_SIZE == 0
    &&& end % PAGE_SIZE == 0
}

/// Whether two half-open ranges have no address in common.
pub open spec fn regions_disjoint(start_a: u32, end_a: u32, start_b: u32, end_b: u32) -> bool {
    end_a <= start_b || end_b <= start_a
}

/// Where each flash region starts and ends.
#[derive(Clone, Copy, Debug, PartialEq, Eq)]
pub struct RegionMap {
    pub bootloader_flash_start: u32,
    pub bootloader_flash_end: u32,
    pub bootloader_scratch_start: u32,
    pub bootloader_scratch_end: u32,
    pub bootloader_state_start: u32,
    pub bootloader_state_end: u32,
    pub program_slot_a_start: u32,
    pub program_slot_a_end: u32,
    pub program_slot_b_start: u32,
    pub program_slot_b_end: u32,
}

impl RegionMap {
    /// The layout that the swap engine relies on: every region is made of
    /// whole pages inside the flash window, the state region is exactly two
    /// pages, there is at least one scratch page, both slots have the same
    /// size, and no two regions overlap.
    pub open spec fn wf(&self) -> bool {
        &&& region_wf(self.bootloader_flash_start, self.bootloader_flash_end)
        &&& region_wf(self.bootloader_scratch_start, self.bootloader_scratch_end)
        &&& region_wf(self.bootloader_state_start, self.bootloader_state_end)
        &&& region_wf(self.program_slot_a_start, self.program_slot_a_end)
        &&& region_wf(self.program_slot_b_start, self.program_slot_b_end)
        &&& self.bootloader_scratch_end - self.bootloader_scratch_start >= PAGE_SIZE
        &&& self.bootloader_state_end - self.bootloader_state_start == 2 * PAGE_SIZE
        &&& self.program_slot_a_end - self.program_slot_a_start == self.program_slot_b_end
            - self.program_slot_b_start
        &&& regions_disjoint(
            self.bootloader_flash_start,
            self.bootloader_flash_end,
            self.bootloader_scratch_start,
            self.bootloader_scratch_end,
        )
        &&& regions_disjoint(
            self.bootloader_flash_start,
            self.bootloader_flash_end,
            self.bootloader_state_start,
            self.bootloader_state_end,
        )
        &&& regions_disjoint(
            self.bootloader_flash_start,
            self.bootloader_flash_end,
            self.program_slot_a_start,
            self.program_slot_a_end,
        )
        &&& regions_disjoint(
            self.bootloader_flash_start,
            self.bootloader_flash_end,
            self.program_slot_b_start,
            self.program_slot_b_end,
        )
        &&& regions_disjoint(
            self.bootloader_scratch_start,
            self.bootloader_scratch_end,
            self.bootloader_state_start,
            self.bootloader_state_end,
        )
        &&& regions_disjoint(
            self.bootloader_scratch_start,
            self.bootloader_scratch_end,
            self.program_slot_a_start,
            self.program_slot_a_end,
        )
        &&& regions_disjoint(
            self.bootloader_scratch_start,
            self.bootloader_scratch_end,
            self.program_slot_b_start,
            self.program_slot_b_end,
        )
        &&& regions_disjoint(
            self.bootloader_state_start,
            self.bootloader_state_end,
            self.program_slot_a_start,
            self.program_slot_a_end,
        )
        &&& regions_disjoint(
            self.bootloader_state_start,
            self.bootloader_state_end,
            self.program_slot_b_start,
            self.program_slot_b_end,
        )
        &&& regions_disjoint(
            self.program_slot_a_start,
            self.program_slot_a_end,
            self.program_slot_b_start,
            self.program_slot_b_end,
        )
    }

    /// The number of pages in each image slot.
    pub open spec fn program_pages(&self) -> int {
        (self.program_slot_a_end - self.program_slot_a_start) / (PAGE_SIZE as int)
    }

    /// The number of scratch pages.
    pub open spec fn scratch_pages(&self) -> int {
        (self.bootloader_scratch_end - self.bootloader_scratch_start) / (PAGE_SIZE as int)
    }

    /// The index of the first page of slot A.
    pub open spec fn slot_a_page(&self) -> int {
        self.program_slot_a_start as int / PAGE_SIZE as int
    }

    /// The index of the first page of slot B.
    pub open spec fn slot_b_page(&self) -> int {
        self.program_slot_b_start as int / PAGE_SIZE as int
    }

    /// The index of the first scratch page.
    pub open spec fn scratch_page(&self) -> int {
        self.bootloader_scratch_start as int / PAGE_SIZE as int
    }

    /// The index of the primary state page; the backup is the page after it.
    pub open spec fn state_page(&self) -> int {
        self.bootloader_state_start as int / PAGE_SIZE as int
    }

    /// Whether `page` is the index of a scratch page.
    pub open spec fn is_scratch_page(&self, page: int) -> bool {
        self.scratch_page() <= page < self.scratch_page() + self.scratch_pages()
    }

    /// Whether `page` is the index of one of the two state pages.
    pub open spec fn is_state_page(&self, page: int) -> bool {
        self.state_page() <= page < self.state_page() + 2
    }

    /// Whether `page` is the index of a page of slot A.
    pub open spec fn is_slot_a_page(&self, page: int) -> bool {
        self.slot_a_page() <= page < self.slot_a_page() + self.program_pages()
    }

    /// Whether `page` is the index of a page of slot B.
    pub open spec fn is_slot_b_page(&self, page: int) -> bool {
        self.slot_b_page() <= page < self.slot_b_page() + self.program_pages()
    }

    /// In a well-formed map the scratch pages, the state pages and the
    /// pages of the two slots are pages of the flash window, and no page
    /// belongs to two of these regions.
    pub proof fn lemma_pages(&self)
        requires
            self.wf(),
        ensures
            0 <= self.program_pages() <= FLASH_PAGES,
            1 <= self.scratch_pages() <= FLASH_PAGES,
            0 <= self.state_page(),
            self.state_page() + 2 <= FLASH_PAGES,
            0 <= self.scratch_page(),
            self.scratch_page() + self.scratch_pages() <= FLASH_PAGES,
            0 <= self.slot_a_page(),
            self.slot_a_page() + self.program_pages() <= FLASH_PAGES,
            0 <= self.slot_b_page(),
            self.slot_b_page() + self.program_pages() <= FLASH_PAGES,
            self.program_slot_a_start == self.slot_a_page() * PAGE_SIZE,
            self.program_slot_b_start == self.slot_b_page() * PAGE_SIZE,
            self.bootloader_scratch_start == self.scratch_page() * PAGE_SIZE,
            self.bootloader_state_start == self.state_page() * PAGE_SIZE,
            self.program_slot_a_end - self.program_slot_a_start == self.program_pages()
                * PAGE_SIZE,
            self.bootloader_scratch_end - self.bootloader_scratch_start == self.scratch_pages()
                * PAGE_SIZE,
            forall|page: int|
                !(#[trigger] self.is_scratch_page(page) && self.is_state_page(page)),
            forall|page: int|
                !(#[trigger] self.is_scratch_page(page) && self.is_slot_a_page(page)),
            forall|page: int|
                !(#[trigger] self.is_scratch_page(page) && self.is_slot_b_page(page)),
            forall|page: int| !(#[trigger] self.is_state_page(page) && self.is_slot_a_page(page)),
            forall|page: int| !(#[trigger] self.is_state_page(page) && self.is_slot_b_page(page)),
            forall|page: int|
                !(#[trigger] self.is_slot_a_page(page) && self.is_slot_b_page(page)),
    {
    }
}

fn region_ok(start: u32, end: u32) -> (ok: bool)
    ensures
        ok == region_wf(start, end),
{
    start <= end && end <= FLASH_SIZE && start % PAGE_SIZE == 0 && end % PAGE_SIZE == 0
}

fn disjoint(start_a: u32, end_a: u32, start_b: u32, end_b: u32) -> (ok: bool)
    ensures
        ok == regions_disjoint(start_a, end_a, start_b, end_b),
{
    end_a <= start_b || end_b <= start_a
}

impl RegionMap {
    /// Checks a layout before the bootloader relies on it.
    ///
    /// Returns the map if and only if it is well formed.
    pub fn new(
        bootloader_flash: Range<u32>,
        bootloader_scratch: Range<u32>,
        bootloader_state: Range<u32>,
        program_slot_a: Range<u32>,
        program_slot_b: Range<u32>,
    ) -> (map: Option<RegionMap>)
        ensures
            map matches Some(m) ==> {
                &&& m.wf()
                &&& m.bootloader_flash_start == bootloader_flash.start
                &&& m.bootloader_flash_end == bootloader_flash.end
                &&& m.bootloader_scratch_start == bootloader_scratch.start
                &&& m.bootloader_scratch_end == bootloader_scratch.end
                &&& m.bootloader_state_start == bootloader_state.start
                &&& m.bootloader_state_end == bootloader_state.end
                &&& m.program_slot_a_start == program_slot_a.start
                &&& m.program_slot_a_end == program_slot_a.end
                &&& m.program_slot_b_start == program_slot_b.start
                &&& m.program_slot_b_end == program_slot_b.end
            },
            map is None <==> !(RegionMap {
                bootloader_flash_start: bootloader_flash.start,
                bootloader_flash_end: bootloader_flash.end,
                bootloader_scratch_start: bootloader_scratch.start,
                bootloader_scratch_end: bootloader_scratch.end,
                bootloader_state_start: bootloader_state.start,
                bootloader_state_end: bootloader_state.end,
                program_slot_a_start: program_slot_a.start,
                program_slot_a_end: program_slot_a.end,
                program_slot_b_start: program_slot_b.start,
                program_slot_b_end: program_slot_b.end,
            }).wf(),
    {
        let m = RegionMap {
            bootloader_flash_start: bootloader_flash.start,
            bootloader_flash_end: bootloader_flash.end,
            bootloader_scratch_start: bootloader_scratch.start,
            bootloader_scratch_end: bootloader_scratch.end,
            bootloader_state_start: bootloader_state.start,
            bootloader_state_end: bootloader_state.end,
            program_slot_a_start: program_slot_a.start,
            program_slot_a_end: program_slot_a.end,
            program_slot_b_start: program_slot_b.start,
            program_slot_b_end: program_slot_b.end,
        };
        let regions = region_ok(m.bootloader_flash_start, m.bootloader_flash_end) && region_ok(
            m.bootloader_scratch_start,
            m.bootloader_scratch_end,
        ) && region_ok(m.bootloader_state_start, m.bootloader_state_end) && region_ok(
            m.program_slot_a_start,
            m.program_slot_a_end,
        ) && region_ok(m.program_slot_b_start, m.program_slot_b_end);
        if !regions {
            return None;
        }
        let sizes = m.bootloader_scratch_end - m.bootloader_scratch_start >= PAGE_SIZE
            && m.bootloader_state_end - m.bootloader_state_start == 2 * PAGE_SIZE
            && m.program_slot_a_end - m.program_slot_a_start == m.program_slot_b_end
            - m.program_slot_b_start;
        let apart = disjoint(
            m.bootloader_flash_start,
            m.bootloader_flash_end,
            m.bootloader_scratch_start,
            m.bootloader_scratch_end,
        ) && disjoint(
            m.bootloader_flash_start,
            m.bootloader_flash_end,
            m.bootloader_state_start,
            m.bootloader_state_end,
        ) && disjoint(
            m.bootloader_flash_start,
            m.bootloader_flash_end,
            m.program_slot_a_start,
            m.program_slot_a_end,
        ) && disjoint(
            m.bootloader_flash_start,
            m.bootloader_flash_end,
            m.program_slot_b_start,
            m.program_slot_b_end,
        ) && disjoint(
            m.bootloader_scratch_start,
            m.bootloader_scratch_end,
            m.bootloader_state_start,
            m.bootloader_state_end,
        ) && disjoint(
            m.bootloader_scratch_start,
            m.bootloader_scratch_end,
            m.program_slot_a_start,
            m.program_slot_a_end,
        ) && disjoint(
            m.bootloader_scratch_start,
            m.bootloader_scratch_end,
            m.program_slot_b_start,
            m.program_slot_b_end,
        ) && disjoint(
            m.bootloader_state_start,
            m.bootloader_state_end,
            m.program_slot_a_start,
            m.program_slot_a_end,
        ) && disjoint(
            m.bootloader_state_start,
            m.bootloader_state_end,
            m.program_slot_b_start,
            m.program_slot_b_end,
        ) && disjoint(
            m.program_slot_a_start,
            m.program_slot_a_end,
            m.program_slot_b_start,
            m.program_slot_b_end,
        );
        if sizes && apart {
            Some(m)
        } else {
            None
        }
    }
}

/// The address range of the bootloader's own flash.
pub fn bootloader_flash_range(map: &RegionMap) -> (range: Range<u32>)
    ensures
        range.start == map.bootloader_flash_start,
        range.end == map.bootloader_flash_end,
{
    map.bootloader_flash_start..map.bootloader_flash_end
}

/// The page range of the bootloader's own flash.
pub fn bootloader_flash_page_range(map: &RegionMap) -> (range: Range<u32>)
    ensures
        range.start == map.bootloader_flash_start / PAGE_SIZE,
        range.end == map.bootloader_flash_end / PAGE_SIZE,
{
    let address_range = bootloader_flash_range(map);
    address_range.start / PAGE_SIZE..address_range.end / PAGE_SIZE
}

/// The address range of the scratch pages.
pub fn bootloader_scratch_range(map: &RegionMap) -> (range: Range<u32>)
    ensures
        range.start == map.bootloader_scratch_start,
        range.end == map.bootloader_scratch_end,
{
    map.bootloader_scratch_start..map.bootloader_scratch_end
}

/// The page range of the scratch pages.
pub fn bootloader_scratch_page_range(map: &RegionMap) -> (range: Range<u32>)
    ensures
        range.start == map.bootloader_scratch_start / PAGE_SIZE,
        range.end == map.bootloader_scratch_end / PAGE_SIZE,
{
    let address_range = bootloader_scratch_range(map);
    address_range.start / PAGE_SIZE..address_range.end / PAGE_SIZE
}

/// The address range of the two state pages.
pub fn bootloader_state_range(map: &RegionMap) -> (range: Range<u32>)
    ensures
        range.start == map.bootloader_state_start,
        range.end == map.bootloader_state_end,
{
    map.bootloader_state_start..map.bootloader_state_end
}

/// The page range of the two state pages.
pub fn bootloader_state_page_range(map: &RegionMap) -> (range: Range<u32>)
    ensures
        range.start == map.bootloader_state_start / PAGE_SIZE,
        range.end == map.bootloader_state_end / PAGE_SIZE,
{
    let address_range = bootloader_state_range(map);
    address_range.start / PAGE_SIZE..address_range.end / PAGE_SIZE
}

/// The address range of slot A, the image that is started.
pub fn program_slot_a_range(map: &RegionMap) -> (range: Range<u32>)
    ensures
        range.start == map.program_slot_a_start,
        range.end == map.program_slot_a_end,
{
    map.program_slot_a_start..map.program_slot_a_end
}

/// The page range of slot A.
pub fn program_slot_a_page_range(map: &RegionMap) -> (range: Range<u32>)
    ensures
        range.start == map.program_slot_a_start / PAGE_SIZE,
        range.end == map.program_slot_a_end / PAGE_SIZE,
{
    let address_range = program_slot_a_range(map);
    address_range.start / PAGE_SIZE..address_range.end / PAGE_SIZE
}

/// The address range of slot B, the image that is swapped in.
pub fn program_slot_b_range(map: &RegionMap) -> (range: Range<u32>)
    ensures
        range.start == map.program_slot_b_start,
        range.end == map.program_slot_b_end,
{
    map.program_slot_b_start..map.program_slot_b_end
}

/// The page range of slot B.
pub fn program_slot_b_page_range(map: &RegionMap) -> (range: Range<u32>)
    ensures
        range.start == map.program_slot_b_start / PAGE_SIZE,
        range.end == map.program_slot_b_end / PAGE_SIZE,
{
    let address_range = program_slot_b_range(map);
    address_range.start / PAGE_SIZE..address_range.end / PAGE_SIZE
}

} // verus!
