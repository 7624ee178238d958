//! What the bootloader asks of flash memory, and what it may rely on.
//!
//! Flash is seen page by page. An erase sets every bit of a page. A program
//! writes words into a page one after the other, each whole or not at all,
//! and can only clear bits: a word that would set a bit leaves the page's
//! contents undefined. Power can be lost at any write. The memory then
//! keeps what it held at that moment, but for a page whose erase was under
//! way, of which nothing is known; and nothing that is asked of it
//! afterwards changes it. A flash also tells which erases and programs it
//! has been asked for, so that what works on it can say which it asks for
//! and in which order.

use crate::flash_addresses::{FLASH_PAGES, FLASH_SIZE, PAGE_SIZE, PAGE_WORDS};
use crate::state::ERASED_WORD;
use vstd::prelude::*;

verus! {

/// Whether `page_address` is the address of a page: aligned to the page size
/// and inside the flash window.
pub open spec fn valid_page_address(page_address: u32) -> bool {
    page_address % PAGE_SIZE == 0 && page_address < FLASH_SIZE
}

/// The index of the page that holds the address.
pub open spec fn page_index(page_address: u32) -> int {
    page_address as int / PAGE_SIZE as int
}

/// Whether `pages` has the shape of the flash window: `FLASH_PAGES` pages of
/// `PAGE_WORDS` words.
pub open spec fn flash_wf(pages: Seq<Seq<u32>>) -> bool {
    &&& pages.len() == FLASH_PAGES
    &&& forall|page: int| 0 <= page < FLASH_PAGES ==> (#[trigger] pages[page]).len() == PAGE_WORDS
}

/// A page after an erase.
pub open spec fn erased_page() -> Seq<u32> {
    Seq::new(PAGE_WORDS as nat, |i: int| ERASED_WORD)
}

/// Whether programming `new` over `old` only clears bits.
pub open spec fn clears_bits_only(new: u32, old: u32) -> bool {
    new & old == new
}

/// Whether `data` can be programmed over the start of `page` without an
/// erase: no word of it sets a bit.
pub open spec fn programmable(data: Seq<u32>, page: Seq<u32>) -> bool {
    forall|i: int| 0 <= i < data.len() ==> clears_bits_only(#[trigger] data[i], page[i])
}

/// The page after the first `count` words of `data` have been programmed
/// over its start.
pub open spec fn programmed_prefix(page: Seq<u32>, data: Seq<u32>, count: int) -> Seq<u32> {
    Seq::new(
        page.len(),
        |i: int|
            if i < count && i < data.len() {
                data[i]
            } else {
                page[i]
            },
    )
}

/// The page after all of `data` has been programmed over its start.
pub open spec fn programmed(page: Seq<u32>, data: Seq<u32>) -> Seq<u32> {
    programmed_prefix(page, data, data.len() as int)
}

/// Whether `after` is `before` with some first words of `data` programmed
/// over its start: what a program leaves when power is lost on the way.
pub open spec fn partly_programmed(after: Seq<u32>, before: Seq<u32>, data: Seq<u32>) -> bool {
    exists|count: int|
        0 <= count <= data.len() && after == #[trigger] programmed_prefix(before, data, count)
}

/// Whether all pages but `page` are in `after` what they are in `before`.
pub open spec fn same_but(before: Seq<Seq<u32>>, after: Seq<Seq<u32>>, page: int) -> bool {
    &&& after.len() == before.len()
    &&& forall|other: int|
        0 <= other < before.len() && other != page ==> #[trigger] after[other] == before[other]
}

/// What an erase of page `page` does to the flash.
///
/// Only that page changes. With power before and after, the page is erased;
/// if power is lost on the way, nothing is known of the page. Without power
/// nothing changes.
pub open spec fn erase_outcome(
    before: Seq<Seq<u32>>,
    was_powered: bool,
    after: Seq<Seq<u32>>,
    is_powered: bool,
    page: int,
) -> bool {
    &&& flash_wf(after)
    &&& same_but(before, after, page)
    &&& is_powered ==> was_powered
    &&& !was_powered ==> after[page] == before[page]
    &&& is_powered ==> after[page] == erased_page()
}

/// What a program of `data` over the start of page `page` does to the flash.
///
/// Only that page changes. Where `data` only clears bits, the page holds
/// `data` if there is power before and after, and some first words of `data`
/// if power is lost on the way. Without power nothing changes.
pub open spec fn program_outcome(
    before: Seq<Seq<u32>>,
    was_powered: bool,
    after: Seq<Seq<u32>>,
    is_powered: bool,
    page: int,
    data: Seq<u32>,
) -> bool {
    &&& flash_wf(after)
    &&& same_but(before, after, page)
    &&& is_powered ==> was_powered
    &&& !was_powered ==> after[page] == before[page]
    &&& programmable(data, before[page]) ==> {
        &&& partly_programmed(after[page], before[page], data)
        &&& is_powered ==> after[page] == programmed(before[page], data)
    }
}

/// A call that asks a flash to change what it holds.
pub enum FlashCall {
    /// An erase of a page.
    Erase {
        /// The index of the page.
        page: int,
    },
    /// A program of a page.
    Program {
        /// The index of the page.
        page: int,
    },
}

/// The flash operations that the bootloader needs.
pub trait Flash {
    /// What the flash holds, page by page. A flash that does not tell holds
    /// what nobody knows.
    open spec fn pages(&self) -> Seq<Seq<u32>> {
        arbitrary()
    }

    /// Whether the flash still takes writes. It stops when power is lost. A
    /// flash that does not tell has power as long as it is asked.
    open spec fn powered(&self) -> bool {
        true
    }

    /// The erases and programs that the flash has been asked for, in their
    /// order, whether or not it had the power to make them. A flash that
    /// does not tell has been asked for what nobody knows.
    open spec fn calls(&self) -> Seq<FlashCall> {
        arbitrary()
    }

    /// Erases the page at `page_address`.
    fn erase_page(&mut self, page_address: u32)
        requires
            flash_wf(old(self).pages()),
            valid_page_address(page_address),
        ensures
            erase_outcome(
                old(self).pages(),
                old(self).powered(),
                final(self).pages(),
                final(self).powered(),
                page_index(page_address),
            ),
            final(self).calls() == old(self).calls().push(
                (FlashCall::Erase { page: page_index(page_address) }),
            ),
    ;

    /// Programs the start of the page at `page_address` with `data`. Only
    /// the words that differ from what the flash holds are written.
    fn program_page(&mut self, page_address: u32, data: &[u32])
        requires
            flash_wf(old(self).pages()),
            valid_page_address(page_address),
            data@.len() <= PAGE_WORDS,
        ensures
            program_outcome(
                old(self).pages(),
                old(self).powered(),
                final(self).pages(),
                final(self).powered(),
                page_index(page_address),
                data@,
            ),
            final(self).calls() == old(self).calls().push(
                (FlashCall::Program { page: page_index(page_address) }),
            ),
    ;

    /// Reads the page at `page_address`.
    fn read(&self, page_address: u32) -> (words: [u32; 1024])
        requires
            flash_wf(self.pages()),
            valid_page_address(page_address),
        ensures
            words@ == self.pages()[page_index(page_address)],
    ;
}

/// Why an address is not the address of a flash page.
#[derive(Debug, Copy, Clone, Eq, PartialEq, Structural)]
pub enum PageAddressError {
    /// The address is not aligned to the page size.
    Unaligned,
    /// The address lies outside of the flash window.
    OutsideFlash,
}

/// Checks that the address is at the start of a flash page.
pub fn assert_valid_page_address(page_address: u32) -> (result: Result<(), PageAddressError>)
    ensures
        result is Ok <==> valid_page_address(page_address),
        result == Err::<(), PageAddressError>(PageAddressError::Unaligned) <==> page_address
            % PAGE_SIZE != 0,
        result == Err::<(), PageAddressError>(PageAddressError::OutsideFlash) <==> page_address
            % PAGE_SIZE == 0 && page_address >= FLASH_SIZE,
{
    if page_address % PAGE_SIZE != 0 {
        Err(PageAddressError::Unaligned)
    } else if page_address >= FLASH_SIZE {
        Err(PageAddressError::OutsideFlash)
    } else {
        Ok(())
    }
}

/// A page can be programmed over itself.
pub proof fn lemma_programmable_over_itself(page: Seq<u32>)
    ensures
        programmable(page, page),
{
    assert forall|i: int| 0 <= i < page.len() implies clears_bits_only(
        #[trigger] page[i],
        page[i],
    ) by {
        lemma_clears_bits_only(page[i]);
    }
}

/// What can be programmed over a page can be programmed over every page
/// that the page itself can be programmed over.
pub proof fn lemma_programmable_over(data: Seq<u32>, page: Seq<u32>, older: Seq<u32>)
    requires
        data.len() <= page.len(),
        programmable(data, page),
        programmable(page, older),
    ensures
        programmable(data, older),
{
    assert forall|i: int| 0 <= i < data.len() implies clears_bits_only(
        #[trigger] data[i],
        older[i],
    ) by {
        let new = data[i];
        let between = page[i];
        let old = older[i];
        assert(clears_bits_only(new, between));
        assert(clears_bits_only(between, old));
        assert(new & old == new) by (bit_vector)
            requires
                new & between == new,
                between & old == between,
        ;
    }
}

/// What can be programmed over a page can still be programmed over it
/// after a part of it has been programmed.
pub proof fn lemma_programmable_over_part(data: Seq<u32>, page: Seq<u32>, part: Seq<u32>)
    requires
        data.len() <= page.len(),
        programmable(data, page),
        partly_programmed(part, page, data),
    ensures
        programmable(data, part),
{
    assert forall|i: int| 0 <= i < data.len() implies clears_bits_only(
        #[trigger] data[i],
        part[i],
    ) by {
        lemma_clears_bits_only(data[i]);
    }
}

/// Any word can be programmed over an erased word, and a word over itself.
pub proof fn lemma_clears_bits_only(word: u32)
    ensures
        clears_bits_only(word, ERASED_WORD),
        clears_bits_only(word, word),
{
    assert(word & 0xFFFF_FFFFu32 == word) by (bit_vector);
    assert(word & word == word) by (bit_vector);
}

} // verus!
