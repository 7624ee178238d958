//! A flash memory held in ordinary memory, for trying the bootloader out
//! without hardware.
//!
//! It behaves like NOR flash: a program clears bits and never sets one. It
//! can be told to lose power after a number of writes. It then keeps what it
//! held, and ignores every erase and program until power is restored.

use crate::flash::{
    clears_bits_only, erased_page, flash_wf, page_index, partly_programmed, programmable,
    programmed, programmed_prefix, same_but, valid_page_address, Flash, FlashCall,
};
use crate::flash_addresses::{FLASH_PAGES, PAGE_SIZE, PAGE_WORDS};
use crate::state::ERASED_WORD;
use vstd::prelude::*;

verus! {

/// The number of words in the flash window.
pub const FLASH_WORDS: usize = 262144;

/// A flash memory held in ordinary memory.
pub struct MemFlash {
    words: Vec<u32>,
    powered: bool,
    writes_left: Option<u64>,
    calls: Ghost<Seq<FlashCall>>,
}

/// The words of page `page` in a flat sequence of the flash's words.
pub open spec fn page_of(words: Seq<u32>, page: int) -> Seq<u32> {
    Seq::new(PAGE_WORDS as nat, |i: int| words[page * PAGE_WORDS as int + i])
}

/// The pages that a flat sequence of the flash's words is made of, if it
/// has as many words as the flash window. A sequence of another length is
/// made of no pages.
pub open spec fn pages_of(words: Seq<u32>) -> Seq<Seq<u32>> {
    if words.len() == FLASH_WORDS {
        Seq::new(FLASH_PAGES as nat, |page: int| page_of(words, page))
    } else {
        Seq::empty()
    }
}

/// A flat sequence is made of pages in the shape of the flash window if and
/// only if it has as many words as the window.
proof fn lemma_pages_of(words: Seq<u32>)
    ensures
        flash_wf(pages_of(words)) <==> words.len() == FLASH_WORDS,
{
}

/// Two flat sequences that agree outside of one page have the same pages
/// but for that one.
proof fn lemma_same_but(before: Seq<u32>, after: Seq<u32>, page: int)
    requires
        before.len() == FLASH_WORDS,
        after.len() == FLASH_WORDS,
        0 <= page < FLASH_PAGES,
        forall|i: int|
            0 <= i < FLASH_WORDS && !(page * PAGE_WORDS <= i < page * PAGE_WORDS + PAGE_WORDS)
                ==> after[i] == before[i],
    ensures
        same_but(pages_of(before), pages_of(after), page),
{
    assert forall|other: int| 0 <= other < FLASH_PAGES && other != page implies (
    #[trigger] pages_of(after)[other]) == pages_of(before)[other] by {
        assert(page_of(after, other) =~= page_of(before, other));
    }
}

/// The number of words among the first `count` of `data` that differ from
/// the words of `page` in their place: the writes that a program of these
/// words takes.
pub open spec fn writes_needed(page: Seq<u32>, data: Seq<u32>, count: int) -> int
    decreases count,
{
    if count <= 0 {
        0
    } else {
        writes_needed(page, data, count - 1) + if data[count - 1] != page[count - 1] {
            1int
        } else {
            0int
        }
    }
}

/// The page after the first `count` words of `data` have been programmed
/// over its start, as NOR flash does it: a bit that is clear stays clear.
pub open spec fn nor_programmed(page: Seq<u32>, data: Seq<u32>, count: int) -> Seq<u32> {
    Seq::new(
        page.len(),
        |i: int|
            if i < count && i < data.len() {
                page[i] & data[i]
            } else {
                page[i]
            },
    )
}

/// What an erase does to a memory with power: it takes one write, and
/// power is lost in its place if no write is left.
pub open spec fn mem_erase_outcome(
    before: Seq<u32>,
    left_before: Option<u64>,
    after: Seq<u32>,
    is_powered: bool,
    left_after: Option<u64>,
) -> bool {
    if left_before == Some(0u64) {
        &&& !is_powered
        &&& after == before
        &&& left_after == left_before
    } else {
        &&& is_powered
        &&& after == erased_page()
        &&& left_after == match left_before {
            Some(left) => Some((left - 1) as u64),
            None => None,
        }
    }
}

/// What a program of `data` does to a memory with power: the words are
/// taken one after the other, each that differs from what the page holds
/// takes one write, and power is lost in place of the first write for which
/// none is left.
pub open spec fn mem_program_outcome(
    before: Seq<u32>,
    left_before: Option<u64>,
    after: Seq<u32>,
    is_powered: bool,
    left_after: Option<u64>,
    data: Seq<u32>,
) -> bool {
    exists|count: int|
        {
            &&& 0 <= count <= data.len()
            &&& after == #[trigger] nor_programmed(before, data, count)
            &&& is_powered ==> {
                &&& count == data.len()
                &&& match left_before {
                    Some(left) => left_after matches Some(rest) && rest + writes_needed(
                        before,
                        data,
                        count,
                    ) == left,
                    None => left_after is None,
                }
            }
            &&& !is_powered ==> {
                &&& count < data.len()
                &&& data[count] != before[count]
                &&& left_before matches Some(left) && left == writes_needed(before, data, count)
                &&& left_after == Some(0u64)
            }
        }
}

impl MemFlash {
    /// The number of writes that the memory still takes before it loses
    /// power, if it has been told to lose it.
    pub closed spec fn writes_left(&self) -> Option<u64> {
        self.writes_left
    }

    /// A flash with every page erased, and with power that lasts.
    pub fn new() -> (flash: MemFlash)
        ensures
            flash_wf(flash.pages()),
            flash.powered(),
            flash.writes_left() is None,
            flash.calls() == Seq::<FlashCall>::empty(),
            forall|page: int| 0 <= page < FLASH_PAGES ==> flash.pages()[page] == erased_page(),
    {
        let mut words: Vec<u32> = Vec::new();
        let mut count: usize = 0;
        while count < FLASH_WORDS
            invariant
                count <= FLASH_WORDS,
                words@.len() == count,
                forall|i: int| 0 <= i < count ==> words@[i] == ERASED_WORD,
            decreases FLASH_WORDS - count,
        {
            words.push(ERASED_WORD);
            count += 1;
        }
        let flash = MemFlash {
            words,
            powered: true,
            writes_left: None,
            calls: Ghost(Seq::empty()),
        };
        proof {
            lemma_pages_of(flash.words@);
            assert forall|page: int| 0 <= page < FLASH_PAGES implies flash.pages()[page]
                == erased_page() by {
                assert(page_of(flash.words@, page) =~= erased_page());
            }
        }
        flash
    }

    /// Tells whether the flash still takes writes.
    pub fn is_powered(&self) -> (powered: bool)
        ensures
            powered == self.powered(),
    {
        self.powered
    }

    /// Lets the flash lose power at the write that follows the next `writes`
    /// writes. An erase counts as one write, and so does every word that a
    /// program writes.
    pub fn cut_power_after(&mut self, writes: u64)
        ensures
            final(self).pages() == old(self).pages(),
            final(self).powered() == old(self).powered(),
            final(self).writes_left() == Some(writes),
            final(self).calls() == old(self).calls(),
    {
        self.writes_left = Some(writes);
    }

    /// Gives the flash power that lasts, as after a reset of the device.
    pub fn restore_power(&mut self)
        ensures
            final(self).pages() == old(self).pages(),
            final(self).powered(),
            final(self).writes_left() is None,
            final(self).calls() == old(self).calls(),
    {
        self.powered = true;
        self.writes_left = None;
    }

    /// Puts `data` at the start of the page at `page_address`, whatever the
    /// page holds and whether or not there is power: the way in which an
    /// image gets into a slot from outside.
    pub fn fill_page(&mut self, page_address: u32, data: &[u32])
        requires
            flash_wf(old(self).pages()),
            valid_page_address(page_address),
            data@.len() <= PAGE_WORDS,
        ensures
            flash_wf(final(self).pages()),
            final(self).powered() == old(self).powered(),
            final(self).writes_left() == old(self).writes_left(),
            final(self).calls() == old(self).calls(),
            same_but(old(self).pages(), final(self).pages(), page_index(page_address)),
            final(self).pages()[page_index(page_address)] == programmed(
                old(self).pages()[page_index(page_address)],
                data@,
            ),
    {
        proof {
            lemma_pages_of(self.words@);
        }
        let page: usize = (page_address / PAGE_SIZE) as usize;
        let base: usize = page * PAGE_WORDS;
        let mut i: usize = 0;
        while i < data.len()
            invariant
                i <= data@.len() <= PAGE_WORDS,
                base == page * PAGE_WORDS,
                page < FLASH_PAGES,
                self.words@.len() == FLASH_WORDS,
                self.powered == old(self).powered,
                self.writes_left == old(self).writes_left,
                self.calls == old(self).calls,
                forall|j: int|
                    0 <= j < FLASH_WORDS ==> self.words@[j] == if base <= j < base + i {
                        data@[j - base]
                    } else {
                        old(self).words@[j]
                    },
            decreases data@.len() - i,
        {
            self.words.set(base + i, data[i]);
            i += 1;
        }
        proof {
            lemma_pages_of(self.words@);
            lemma_same_but(old(self).words@, self.words@, page as int);
            assert(page_of(self.words@, page as int) =~= programmed(
                page_of(old(self).words@, page as int),
                data@,
            ));
        }
    }
}

impl Flash for MemFlash {
    closed spec fn pages(&self) -> Seq<Seq<u32>> {
        pages_of(self.words@)
    }

    closed spec fn powered(&self) -> bool {
        self.powered
    }

    closed spec fn calls(&self) -> Seq<FlashCall> {
        self.calls@
    }

    fn erase_page(&mut self, page_address: u32)
        ensures
            !old(self).powered() ==> final(self).writes_left() == old(self).writes_left(),
            old(self).powered() ==> mem_erase_outcome(
                old(self).pages()[page_index(page_address)],
                old(self).writes_left(),
                final(self).pages()[page_index(page_address)],
                final(self).powered(),
                final(self).writes_left(),
            ),
    {
        proof {
            lemma_pages_of(self.words@);
        }
        self.calls = Ghost(
            self.calls@.push(FlashCall::Erase { page: page_index(page_address) }),
        );
        if !self.powered {
            return ;
        }
        match self.writes_left {
            Some(left) => {
                if left == 0 {
                    self.powered = false;
                    return ;
                }
                self.writes_left = Some(left - 1);
            },
            None => {},
        }
        let page: usize = (page_address / PAGE_SIZE) as usize;
        let base: usize = page * PAGE_WORDS;
        let ghost left = self.writes_left;
        let ghost calls = self.calls;
        let mut i: usize = 0;
        while i < PAGE_WORDS
            invariant
                self.calls == calls,
                i <= PAGE_WORDS,
                base == page * PAGE_WORDS,
                page < FLASH_PAGES,
                self.words@.len() == FLASH_WORDS,
                self.powered,
                self.writes_left == left,
                forall|j: int|
                    0 <= j < FLASH_WORDS ==> self.words@[j] == if base <= j < base + i {
                        ERASED_WORD
                    } else {
                        old(self).words@[j]
                    },
            decreases PAGE_WORDS - i,
        {
            self.words.set(base + i, ERASED_WORD);
            i += 1;
        }
        proof {
            lemma_pages_of(self.words@);
            lemma_same_but(old(self).words@, self.words@, page as int);
            assert(page_of(self.words@, page as int) =~= erased_page());
        }
    }

    fn program_page(&mut self, page_address: u32, data: &[u32])
        ensures
            !old(self).powered() ==> final(self).writes_left() == old(self).writes_left(),
            old(self).powered() ==> mem_program_outcome(
                old(self).pages()[page_index(page_address)],
                old(self).writes_left(),
                final(self).pages()[page_index(page_address)],
                final(self).powered(),
                final(self).writes_left(),
                data@,
            ),
    {
        proof {
            lemma_pages_of(self.words@);
        }
        self.calls = Ghost(
            self.calls@.push(FlashCall::Program { page: page_index(page_address) }),
        );
        let ghost calls = self.calls;
        let page: usize = (page_address / PAGE_SIZE) as usize;
        let base: usize = page * PAGE_WORDS;
        let ghost before = page_of(self.words@, page as int);
        let ghost mut count: int = 0;
        let mut i: usize = 0;
        while i < data.len()
            invariant
                self.calls == calls,
                i <= data@.len() <= PAGE_WORDS,
                base == page * PAGE_WORDS,
                page < FLASH_PAGES,
                self.words@.len() == FLASH_WORDS,
                old(self).words@.len() == FLASH_WORDS,
                before == page_of(old(self).words@, page as int),
                self.powered ==> old(self).powered,
                0 <= count <= i,
                self.powered ==> count == i,
                forall|j: int|
                    0 <= j < FLASH_WORDS && !(base <= j < base + PAGE_WORDS) ==> self.words@[j]
                        == old(self).words@[j],
                !old(self).powered ==> self.words@ == old(self).words@ && self.writes_left
                    == old(self).writes_left,
                forall|j: int|
                    0 <= j < PAGE_WORDS ==> self.words@[base + j] == if j < count {
                        before[j] & data@[j]
                    } else {
                        before[j]
                    },
                old(self).powered && self.powered ==> match old(self).writes_left {
                    Some(left) => self.writes_left matches Some(rest) && rest + writes_needed(
                        before,
                        data@,
                        count,
                    ) == left,
                    None => self.writes_left is None,
                },
                old(self).powered && !self.powered ==> {
                    &&& count < i
                    &&& data@[count] != before[count]
                    &&& old(self).writes_left matches Some(left) && left == writes_needed(
                        before,
                        data@,
                        count,
                    )
                    &&& self.writes_left == Some(0u64)
                },
            decreases data@.len() - i,
        {
            let held: u32 = self.words[base + i];
            let word: u32 = data[i];
            proof {
                assert(before[i as int] == held);
                assert(held & held == held) by (bit_vector);
                assert(writes_needed(before, data@, i + 1) == writes_needed(before, data@, i as int)
                    + if word != held {
                    1int
                } else {
                    0int
                });
            }
            if self.powered {
                if word != held {
                    let lost: bool = match self.writes_left {
                        Some(left) => left == 0,
                        None => false,
                    };
                    if lost {
                        self.powered = false;
                    } else {
                        match self.writes_left {
                            Some(left) => {
                                self.writes_left = Some(left - 1);
                            },
                            None => {},
                        }
                        self.words.set(base + i, held & word);
                        proof {
                            count = count + 1;
                        }
                    }
                } else {
                    proof {
                        count = count + 1;
                    }
                }
            }
            i += 1;
        }
        proof {
            lemma_pages_of(self.words@);
            lemma_same_but(old(self).words@, self.words@, page as int);
            let after = page_of(self.words@, page as int);
            assert(after =~= nor_programmed(before, data@, count));
            if !old(self).powered {
                assert(after =~= before);
            }
            if programmable(data@, before) {
                assert forall|j: int| 0 <= j < PAGE_WORDS && j < data@.len() implies before[j]
                    & data@[j] == data@[j] by {
                    let held = before[j];
                    let word = data@[j];
                    assert(clears_bits_only(word, held));
                    assert(held & word == word) by (bit_vector)
                        requires
                            word & held == word,
                    ;
                }
                assert(after =~= programmed_prefix(before, data@, count));
                assert(partly_programmed(after, before, data@));
            }
        }
    }

    fn read(&self, page_address: u32) -> (words: [u32; 1024]) {
        proof {
            lemma_pages_of(self.words@);
        }
        let page: usize = (page_address / PAGE_SIZE) as usize;
        let base: usize = page * PAGE_WORDS;
        let mut words = [0u32; 1024];
        let mut i: usize = 0;
        while i < PAGE_WORDS
            invariant
                i <= PAGE_WORDS,
                base == page * PAGE_WORDS,
                page < FLASH_PAGES,
                self.words@.len() == FLASH_WORDS,
                forall|j: int| 0 <= j < i ==> words@[j] == self.words@[base + j],
            decreases PAGE_WORDS - i,
        {
            words[i] = self.words[base + i];
            i += 1;
        }
        assert(words@ =~= page_of(self.words@, page as int));
        words
    }
}

} // verus!
