//! The durable state record: the goal of the next boot and the progress of
//! every page of a swap.
//!
//! The record is a buffer of 1024 words that is mirrored on the two state
//! pages. Word 0 holds a checksum over words 1 to 255, word 1 the goal. The
//! last three quarters hold, for each of up to 256 program pages, three words
//! that together tell how far the page's swap has come. Every step forward
//! only clears bits of those words, so that it can be programmed into flash
//! without an erase.

use crate::checksum::{crc32_mpeg2, crc32_mpeg2_checksum, native_bytes, word_bytes, words_bytes};
use crate::flash::{
    clears_bits_only, erased_page, flash_wf, lemma_clears_bits_only, partly_programmed,
    programmable, programmed, programmed_prefix, Flash, FlashCall,
};
use crate::flash_addresses::{RegionMap, FLASH_PAGES, FLASH_SIZE, PAGE_SIZE};
use vstd::prelude::*;

verus! {

/// The word that marks a finished step of a page's swap.
pub const VALID_WORD: u32 = 0xB002_10AD;

/// What a word of flash reads after an erase.
pub const ERASED_WORD: u32 = 0xFFFF_FFFF;

/// The number of words in the state record.
pub const STATE_WORDS: usize = 1024;

/// The index of the word that holds the checksum.
pub const CRC_INDEX: usize = 0;

/// The index of the word that holds the goal.
pub const GOAL_INDEX: usize = 1;

/// The index of the first of the words that tell into which scratch page a
/// program page was copied.
pub const CACHED_PAGES_START: usize = 256;

/// The index of the first of the words that tell whether slot A's page was
/// overwritten with slot B's.
pub const COPIED_PAGES_START: usize = 512;

/// The index of the first of the words that tell whether a page's swap is
/// finished.
pub const FINISHED_PAGES_START: usize = 768;

/// The number of program pages that the record has room for.
pub const MAX_PROGRAM_PAGES: u32 = 256;

/// What the bootloader is to do at the next boot.
#[derive(Debug, Copy, Clone, Eq, PartialEq, Structural)]
pub enum BootloaderGoal {
    /// Do nothing and start the application.
    JumpToApplication,
    /// Swap the image in slot B into slot A.
    StartSwap,
    /// A swap was started and is to be finished.
    FinishSwap,
    /// Swap the image in slot B into slot A, and swap back at the boot after
    /// that unless the application has set the goal to
    /// [`BootloaderGoal::JumpToApplication`] by then.
    StartTestSwap,
    /// A test swap was started and is to be finished.
    FinishTestSwap,
}

impl BootloaderGoal {
    /// The word that stands for the goal in the record.
    pub open spec fn word(self) -> u32 {
        match self {
            BootloaderGoal::JumpToApplication => 0,
            BootloaderGoal::StartSwap => 1,
            BootloaderGoal::FinishSwap => 2,
            BootloaderGoal::StartTestSwap => 3,
            BootloaderGoal::FinishTestSwap => 4,
        }
    }

    /// The goal that a word of the record stands for. An erased word reads
    /// as [`BootloaderGoal::JumpToApplication`].
    pub open spec fn decode(word: u32) -> Option<BootloaderGoal> {
        if word == 0 || word == ERASED_WORD {
            Some(BootloaderGoal::JumpToApplication)
        } else if word == 1 {
            Some(BootloaderGoal::StartSwap)
        } else if word == 2 {
            Some(BootloaderGoal::FinishSwap)
        } else if word == 3 {
            Some(BootloaderGoal::StartTestSwap)
        } else if word == 4 {
            Some(BootloaderGoal::FinishTestSwap)
        } else {
            None
        }
    }

    /// The word that stands for the goal in the record.
    pub fn to_word(self) -> (word: u32)
        ensures
            word == self.word(),
    {
        match self {
            BootloaderGoal::JumpToApplication => 0,
            BootloaderGoal::StartSwap => 1,
            BootloaderGoal::FinishSwap => 2,
            BootloaderGoal::StartTestSwap => 3,
            BootloaderGoal::FinishTestSwap => 4,
        }
    }

    /// Reads a goal from a word of the record, if the word stands for one.
    pub fn from_word(word: u32) -> (goal: Option<BootloaderGoal>)
        ensures
            goal == BootloaderGoal::decode(word),
    {
        if word == 0 || word == ERASED_WORD {
            Some(BootloaderGoal::JumpToApplication)
        } else if word == 1 {
            Some(BootloaderGoal::StartSwap)
        } else if word == 2 {
            Some(BootloaderGoal::FinishSwap)
        } else if word == 3 {
            Some(BootloaderGoal::StartTestSwap)
        } else if word == 4 {
            Some(BootloaderGoal::FinishTestSwap)
        } else {
            None
        }
    }
}

/// How far the swap of one program page has come.
#[derive(Debug, Copy, Clone, Eq, PartialEq, Structural)]
pub enum PageState {
    /// Both slots hold what they held before the swap.
    Original,
    /// Slot A's page has been copied into a scratch page.
    InScratch {
        /// The index of the scratch page that holds the copy.
        scratch_page: u32,
    },
    /// Slot A's page has been copied into a scratch page, and slot B's page
    /// has been written over slot A's.
    InScratchOverwritten {
        /// The index of the scratch page that holds the copy.
        scratch_page: u32,
    },
    /// The copy in the scratch page has been written over slot B's page: the
    /// page is swapped.
    Swapped,
}

impl PageState {
    /// Returns `true` if the page state is [`PageState::Swapped`].
    pub fn is_swapped(&self) -> (swapped: bool)
        ensures
            swapped == (*self is Swapped),
    {
        match self {
            PageState::Swapped => true,
            _ => false,
        }
    }

    /// The state that one step of the swap leads to, where `scratch_page` is
    /// the scratch page that a page in its original place is copied to.
    pub open spec fn next(self, scratch_page: u32) -> PageState {
        match self {
            PageState::Original => PageState::InScratch { scratch_page },
            PageState::InScratch { scratch_page: used } => PageState::InScratchOverwritten {
                scratch_page: used,
            },
            PageState::InScratchOverwritten { .. } => PageState::Swapped,
            PageState::Swapped => PageState::Swapped,
        }
    }

    /// The number of steps that are left until the page is swapped.
    pub open spec fn steps_left(self) -> nat {
        match self {
            PageState::Original => 3,
            PageState::InScratch { .. } => 2,
            PageState::InScratchOverwritten { .. } => 1,
            PageState::Swapped => 0,
        }
    }
}

/// The page state that three words of the record stand for, if any.
pub open spec fn decode_page_state(cached: u32, copied: u32, finished: u32) -> Option<PageState> {
    if finished == VALID_WORD {
        Some(PageState::Swapped)
    } else if finished != ERASED_WORD {
        None
    } else if copied == VALID_WORD {
        Some(PageState::InScratchOverwritten { scratch_page: cached })
    } else if copied != ERASED_WORD {
        None
    } else if cached == ERASED_WORD {
        Some(PageState::Original)
    } else {
        Some(PageState::InScratch { scratch_page: cached })
    }
}

/// The three words that are written for a page state, over the words
/// `cached` and `copied` that the record holds. A swapped page keeps both:
/// only its third word tells that it is swapped.
pub open spec fn encode_page_state(state: PageState, cached: u32, copied: u32) -> (u32, u32, u32) {
    match state {
        PageState::Original => (ERASED_WORD, ERASED_WORD, ERASED_WORD),
        PageState::InScratch { scratch_page } => (scratch_page, ERASED_WORD, ERASED_WORD),
        PageState::InScratchOverwritten { scratch_page } => (scratch_page, VALID_WORD, ERASED_WORD),
        PageState::Swapped => (cached, copied, VALID_WORD),
    }
}

/// The state of page `page` in a record of `STATE_WORDS` words.
pub open spec fn page_state_of(words: Seq<u32>, page: int) -> Option<PageState> {
    decode_page_state(
        words[CACHED_PAGES_START + page],
        words[COPIED_PAGES_START + page],
        words[FINISHED_PAGES_START + page],
    )
}

/// The record `words` with the state of page `page` set to `state`.
pub open spec fn with_page_state(words: Seq<u32>, page: int, state: PageState) -> Seq<u32> {
    let triple = encode_page_state(
        state,
        words[CACHED_PAGES_START + page],
        words[COPIED_PAGES_START + page],
    );
    words.update(CACHED_PAGES_START + page, triple.0).update(
        COPIED_PAGES_START + page,
        triple.1,
    ).update(FINISHED_PAGES_START + page, triple.2)
}

/// The bytes that the checksum runs over: the words 1 to 255 of the record,
/// each in the byte order of the machine.
pub open spec fn goal_region_bytes(words: Seq<u32>) -> Seq<u8> {
    words_bytes(words.subrange(GOAL_INDEX as int, CACHED_PAGES_START as int))
}

/// The checksum that belongs in word 0 of the record.
pub open spec fn record_crc(words: Seq<u32>) -> u32 {
    crc32_mpeg2(goal_region_bytes(words))
}

/// Whether word 0 of the record holds the checksum of its goal region.
pub open spec fn record_is_valid(words: Seq<u32>) -> bool {
    words[CRC_INDEX as int] == record_crc(words)
}

/// The record after its validity has been set.
pub open spec fn with_validity(words: Seq<u32>, validity: bool) -> Seq<u32> {
    words.update(
        CRC_INDEX as int,
        if validity {
            record_crc(words)
        } else {
            ERASED_WORD
        },
    )
}

/// The record after its goal has been set: a record that was valid is valid
/// again, one that was not keeps its word 0.
pub open spec fn with_goal(words: Seq<u32>, goal: BootloaderGoal) -> Seq<u32> {
    let changed = words.update(GOAL_INDEX as int, goal.word());
    if record_is_valid(words) {
        with_validity(changed, true)
    } else {
        changed
    }
}

/// The state record, held in memory for the time of one boot.
pub struct BootloaderState {
    buffer: [u32; 1024],
}

impl View for BootloaderState {
    type V = Seq<u32>;

    closed spec fn view(&self) -> Seq<u32> {
        self.buffer@
    }
}

impl BootloaderState {
    /// The record always has `STATE_WORDS` words.
    pub proof fn lemma_len(&self)
        ensures
            self@.len() == STATE_WORDS,
    {
    }

    /// The word at `index` of the record.
    pub fn word(&self, index: usize) -> (word: u32)
        requires
            index < STATE_WORDS,
        ensures
            word == self@[index as int],
    {
        self.buffer[index]
    }

    /// Calculates the checksum of the words between the checksum word and the
    /// page states.
    fn calculate_self_crc(&self) -> (crc: u32)
        ensures
            crc == record_crc(self@),
    {
        let mut bytes = [0u8; 1020];
        let mut index: usize = GOAL_INDEX;
        while index < CACHED_PAGES_START
            invariant
                GOAL_INDEX <= index <= CACHED_PAGES_START,
                forall|k: int|
                    0 <= k < 4 * (index - 1) ==> #[trigger] bytes@[k] == word_bytes(
                        self.buffer@[1 + k / 4],
                    )[k % 4],
            decreases CACHED_PAGES_START - index,
        {
            let word = native_bytes(self.buffer[index]);
            let base: usize = 4 * (index - 1);
            bytes[base] = word[0];
            bytes[base + 1] = word[1];
            bytes[base + 2] = word[2];
            bytes[base + 3] = word[3];
            index += 1;
        }
        proof {
            let region = self@.subrange(GOAL_INDEX as int, CACHED_PAGES_START as int);
            assert forall|k: int| 0 <= k < 1020 implies bytes@[k] == goal_region_bytes(
                self@,
            )[k] by {
                assert(region[k / 4] == self@[1 + k / 4]);
            }
            assert(bytes@ =~= goal_region_bytes(self@));
        }
        crc32_mpeg2_checksum(&bytes)
    }

    /// Tests whether the record is valid: whether word 0 holds the checksum
    /// of the goal region.
    pub fn is_valid(&self) -> (valid: bool)
        ensures
            valid == record_is_valid(self@),
    {
        let stored_crc = self.buffer[CRC_INDEX];
        let calculated_crc = self.calculate_self_crc();
        stored_crc == calculated_crc
    }

    /// Makes the record valid, by writing the checksum of the goal region
    /// into word 0, or invalid, by writing an erased word there.
    pub fn set_valid(&mut self, validity: bool)
        ensures
            final(self)@ == with_validity(old(self)@, validity),
    {
        let crc_value = if validity {
            self.calculate_self_crc()
        } else {
            ERASED_WORD
        };
        self.buffer[CRC_INDEX] = crc_value;
    }

    /// The goal that the record holds, if its goal word stands for one.
    pub fn stored_goal(&self) -> (goal: Option<BootloaderGoal>)
        ensures
            goal == BootloaderGoal::decode(self@[GOAL_INDEX as int]),
    {
        BootloaderGoal::from_word(self.buffer[GOAL_INDEX])
    }

    /// The goal that the record holds.
    pub fn goal(&self) -> (goal: BootloaderGoal)
        requires
            BootloaderGoal::decode(self@[GOAL_INDEX as int]) is Some,
        ensures
            Some(goal) == BootloaderGoal::decode(self@[GOAL_INDEX as int]),
    {
        match BootloaderGoal::from_word(self.buffer[GOAL_INDEX]) {
            Some(goal) => goal,
            None => BootloaderGoal::JumpToApplication,
        }
    }

    /// Sets the goal. A record that was valid gets the new checksum, so that
    /// it is valid again.
    pub fn set_goal(&mut self, goal: BootloaderGoal)
        ensures
            final(self)@ == with_goal(old(self)@, goal),
    {
        let is_valid = self.is_valid();
        self.buffer[GOAL_INDEX] = goal.to_word();
        if is_valid {
            self.set_valid(is_valid);
        }
    }

    /// The state of page `page`, if the record's three words for that page
    /// stand for one. `page` counts from the start of the image slot.
    pub fn checked_page_state(&self, page: u32) -> (state: Option<PageState>)
        ensures
            page < MAX_PROGRAM_PAGES ==> state == page_state_of(self@, page as int),
            page >= MAX_PROGRAM_PAGES ==> state is None,
    {
        if page >= MAX_PROGRAM_PAGES {
            return None;
        }
        let cached_value = self.buffer[CACHED_PAGES_START + page as usize];
        let copied_value = self.buffer[COPIED_PAGES_START + page as usize];
        let finished_value = self.buffer[FINISHED_PAGES_START + page as usize];
        if finished_value == VALID_WORD {
            Some(PageState::Swapped)
        } else if finished_value != ERASED_WORD {
            None
        } else if copied_value == VALID_WORD {
            Some(PageState::InScratchOverwritten { scratch_page: cached_value })
        } else if copied_value != ERASED_WORD {
            None
        } else if cached_value == ERASED_WORD {
            Some(PageState::Original)
        } else {
            Some(PageState::InScratch { scratch_page: cached_value })
        }
    }

    /// Gets the state of page `page`, counted from the start of the image
    /// slot.
    pub fn get_page_state(&self, page: u32) -> (state: PageState)
        requires
            page < MAX_PROGRAM_PAGES,
            page_state_of(self@, page as int) is Some,
        ensures
            Some(state) == page_state_of(self@, page as int),
    {
        match self.checked_page_state(page) {
            Some(state) => state,
            None => PageState::Original,
        }
    }

    /// Sets the state of page `page`, counted from the start of the image
    /// slot.
    pub fn set_page_state(&mut self, page: u32, state: PageState)
        requires
            page < MAX_PROGRAM_PAGES,
        ensures
            final(self)@ == with_page_state(old(self)@, page as int, state),
    {
        match state {
            PageState::Original => {
                self.buffer[CACHED_PAGES_START + page as usize] = ERASED_WORD;
                self.buffer[COPIED_PAGES_START + page as usize] = ERASED_WORD;
                self.buffer[FINISHED_PAGES_START + page as usize] = ERASED_WORD;
            },
            PageState::InScratch { scratch_page } => {
                self.buffer[CACHED_PAGES_START + page as usize] = scratch_page;
                self.buffer[COPIED_PAGES_START + page as usize] = ERASED_WORD;
                self.buffer[FINISHED_PAGES_START + page as usize] = ERASED_WORD;
            },
            PageState::InScratchOverwritten { scratch_page } => {
                self.buffer[CACHED_PAGES_START + page as usize] = scratch_page;
                self.buffer[COPIED_PAGES_START + page as usize] = VALID_WORD;
                self.buffer[FINISHED_PAGES_START + page as usize] = ERASED_WORD;
            },
            PageState::Swapped => {
                self.buffer[FINISHED_PAGES_START + page as usize] = VALID_WORD;
            },
        }
    }
}

/// The record that a boot loads from flash: the primary state page if it is
/// valid, else the backup on the page after it.
pub open spec fn stored_record(pages: Seq<Seq<u32>>, map: &RegionMap) -> Seq<u32> {
    let primary = pages[map.state_page()];
    if record_is_valid(primary) {
        primary
    } else {
        pages[map.state_page() + 1]
    }
}

/// Whether all pages but the two state pages are in `after` what they are
/// in `before`.
pub open spec fn same_but_state(
    before: Seq<Seq<u32>>,
    after: Seq<Seq<u32>>,
    map: &RegionMap,
) -> bool {
    &&& after.len() == before.len()
    &&& forall|page: int|
        0 <= page < before.len() && page != map.state_page() && page != map.state_page() + 1
            ==> #[trigger] after[page] == before[page]
}

/// What a store of `record` does to the flash.
///
/// Only the two state pages change. With power before and after, both hold
/// the record. Whenever power is lost, the primary page holds the record
/// already or the backup holds what it held before: the backup is not
/// touched before the primary page is written. Without power nothing
/// changes.
pub open spec fn store_outcome(
    before: Seq<Seq<u32>>,
    was_powered: bool,
    after: Seq<Seq<u32>>,
    is_powered: bool,
    map: &RegionMap,
    record: Seq<u32>,
) -> bool {
    &&& flash_wf(after)
    &&& same_but_state(before, after, map)
    &&& is_powered ==> was_powered
    &&& !was_powered ==> after == before
    &&& is_powered ==> after[map.state_page()] == record && after[map.state_page() + 1] == record
    &&& after[map.state_page()] == record || after[map.state_page() + 1] == before[map.state_page()
        + 1]
}

/// What a burn-store of `record` does to the flash.
///
/// Only the two state pages change. Where the record only clears bits of
/// a state page, that page holds the record if there is power before and
/// after, and some first words of it if power is lost on the way. The
/// backup is not touched before the primary page is written. Without power
/// nothing changes.
pub open spec fn burn_store_outcome(
    before: Seq<Seq<u32>>,
    was_powered: bool,
    after: Seq<Seq<u32>>,
    is_powered: bool,
    map: &RegionMap,
    record: Seq<u32>,
) -> bool {
    &&& flash_wf(after)
    &&& same_but_state(before, after, map)
    &&& is_powered ==> was_powered
    &&& !was_powered ==> after == before
    &&& programmable(record, before[map.state_page()]) ==> {
        &&& partly_programmed(after[map.state_page()], before[map.state_page()], record)
        &&& is_powered ==> after[map.state_page()] == record
        &&& after[map.state_page()] == record || after[map.state_page() + 1]
            == before[map.state_page() + 1]
    }
    &&& programmable(record, before[map.state_page() + 1]) ==> {
        &&& partly_programmed(after[map.state_page() + 1], before[map.state_page() + 1], record)
        &&& is_powered ==> after[map.state_page() + 1] == record
    }
}

/// The calls that a store makes: an erase and a program of the primary
/// state page, then an erase and a program of the backup.
pub open spec fn store_calls(map: &RegionMap) -> Seq<FlashCall> {
    seq![
        FlashCall::Erase { page: map.state_page() },
        FlashCall::Program { page: map.state_page() },
        FlashCall::Erase { page: map.state_page() + 1 },
        FlashCall::Program { page: map.state_page() + 1 },
    ]
}

/// The calls that a burn-store makes: a program of the primary state page,
/// then a program of the backup.
pub open spec fn burn_store_calls(map: &RegionMap) -> Seq<FlashCall> {
    seq![
        FlashCall::Program { page: map.state_page() },
        FlashCall::Program { page: map.state_page() + 1 },
    ]
}

/// A store that loses power leaves a flash from which a boot loads the
/// record that was stored or the record that the backup held before, as
/// long as the checksum tells a primary page that was not written to its
/// end: as long as that page is only valid if it holds the record.
pub proof fn lemma_store_falls_back(
    before: Seq<Seq<u32>>,
    was_powered: bool,
    after: Seq<Seq<u32>>,
    is_powered: bool,
    map: &RegionMap,
    record: Seq<u32>,
)
    requires
        store_outcome(before, was_powered, after, is_powered, map, record),
        record_is_valid(record),
        record_is_valid(after[map.state_page()]) ==> after[map.state_page()] == record,
    ensures
        stored_record(after, map) == record || stored_record(after, map) == before[map.state_page()
            + 1],
{
}

/// The record with the goal that starts a swap, and with the first
/// `program_pages` pages in their original place.
pub open spec fn prepared_record(words: Seq<u32>, test_swap: bool, program_pages: int) -> Seq<
    u32,
> {
    let goal = if test_swap {
        BootloaderGoal::FinishTestSwap
    } else {
        BootloaderGoal::FinishSwap
    };
    let with_goal = with_goal(words, goal);
    Seq::new(
        STATE_WORDS as nat,
        |i: int|
            if CACHED_PAGES_START <= i && (i - CACHED_PAGES_START) % 256 < program_pages {
                ERASED_WORD
            } else {
                with_goal[i]
            },
    )
}

/// The state pages of a well-formed map are pages of the flash.
pub proof fn lemma_state_pages(map: &RegionMap)
    requires
        map.wf(),
    ensures
        0 <= map.state_page() < map.state_page() + 1 < FLASH_PAGES,
        map.bootloader_state_start + PAGE_SIZE < FLASH_SIZE,
        (map.bootloader_state_start + PAGE_SIZE) % (PAGE_SIZE as int) == 0,
        (map.bootloader_state_start + PAGE_SIZE) / (PAGE_SIZE as int) == map.state_page() + 1,
{
}

impl BootloaderState {
    /// Loads the record from the state pages: from the primary page if what
    /// it holds is valid, else from the backup.
    pub fn load<F: Flash>(flash: &F, map: &RegionMap) -> (state: BootloaderState)
        requires
            flash_wf(flash.pages()),
            map.wf(),
        ensures
            state@ == stored_record(flash.pages(), map),
    {
        proof {
            lemma_state_pages(map);
        }
        let buffer = flash.read(map.bootloader_state_start);
        let mut s = BootloaderState { buffer };
        if !s.is_valid() {
            s.buffer = flash.read(map.bootloader_state_start + PAGE_SIZE);
        }
        s
    }

    /// Stores the record on both state pages, each erased first.
    pub fn store<F: Flash>(&self, flash: &mut F, map: &RegionMap)
        requires
            flash_wf(old(flash).pages()),
            map.wf(),
        ensures
            store_outcome(
                old(flash).pages(),
                old(flash).powered(),
                final(flash).pages(),
                final(flash).powered(),
                map,
                self@,
            ),
            final(flash).calls() == old(flash).calls() + store_calls(map),
    {
        proof {
            lemma_state_pages(map);
            assert forall|i: int| 0 <= i < self@.len() implies clears_bits_only(
                #[trigger] self@[i],
                erased_page()[i],
            ) by {
                lemma_clears_bits_only(self@[i]);
            }
            assert(programmed(erased_page(), self@) =~= self@);
        }
        flash.erase_page(map.bootloader_state_start);
        flash.program_page(map.bootloader_state_start, &self.buffer);
        flash.erase_page(map.bootloader_state_start + PAGE_SIZE);
        flash.program_page(map.bootloader_state_start + PAGE_SIZE, &self.buffer);
        proof {
            if !old(flash).powered() {
                assert(flash.pages() =~= old(flash).pages());
            }
            assert(flash.calls() =~= old(flash).calls() + store_calls(map));
        }
    }

    /// Stores the record on both state pages without an erase: only the
    /// words that differ from what a page holds are written, and a write
    /// can only clear bits.
    pub fn burn_store<F: Flash>(&self, flash: &mut F, map: &RegionMap)
        requires
            flash_wf(old(flash).pages()),
            map.wf(),
        ensures
            burn_store_outcome(
                old(flash).pages(),
                old(flash).powered(),
                final(flash).pages(),
                final(flash).powered(),
                map,
                self@,
            ),
            final(flash).calls() == old(flash).calls() + burn_store_calls(map),
    {
        proof {
            lemma_state_pages(map);
            assert(programmed(flash.pages()[map.state_page()], self@) =~= self@);
            assert(programmed(flash.pages()[map.state_page() + 1], self@) =~= self@);
        }
        flash.program_page(map.bootloader_state_start, &self.buffer);
        flash.program_page(map.bootloader_state_start + PAGE_SIZE, &self.buffer);
        proof {
            if !old(flash).powered() {
                assert(flash.pages() =~= old(flash).pages());
            }
            assert(flash.calls() =~= old(flash).calls() + burn_store_calls(map));
        }
    }

    /// Sets the record so that a swap can start, and stores it: the goal is
    /// to finish the swap, and every program page is in its original place.
    pub fn prepare_swap<F: Flash>(&mut self, test_swap: bool, flash: &mut F, map: &RegionMap)
        requires
            flash_wf(old(flash).pages()),
            map.wf(),
        ensures
            final(self)@ == prepared_record(old(self)@, test_swap, map.program_pages()),
            store_outcome(
                old(flash).pages(),
                old(flash).powered(),
                final(flash).pages(),
                final(flash).powered(),
                map,
                final(self)@,
            ),
            final(flash).calls() == old(flash).calls() + store_calls(map),
    {
        self.set_goal(
            if test_swap {
                BootloaderGoal::FinishTestSwap
            } else {
                BootloaderGoal::FinishSwap
            },
        );
        let ghost with_goal = self@;
        let program_pages: u32 = (map.program_slot_a_end - map.program_slot_a_start) / PAGE_SIZE;
        let mut page: u32 = 0;
        while page < program_pages
            invariant
                page <= program_pages <= MAX_PROGRAM_PAGES,
                program_pages == map.program_pages(),
                with_goal.len() == STATE_WORDS,
                forall|i: int|
                    0 <= i < STATE_WORDS ==> self@[i] == if CACHED_PAGES_START <= i && (i
                        - CACHED_PAGES_START) % 256 < page {
                        ERASED_WORD
                    } else {
                        with_goal[i]
                    },
            decreases program_pages - page,
        {
            self.set_page_state(page, PageState::Original);
            page += 1;
        }
        assert(self@ =~= prepared_record(old(self)@, test_swap, map.program_pages()));
        self.store(flash, map);
    }
}


/// Setting the state of a page and getting it again gives the state that
/// was set. The one state that the three words cannot tell from another is
/// a page in scratch page 0xFFFF_FFFF, which reads as a page in its
/// original place.
pub proof fn lemma_page_state_round_trip(words: Seq<u32>, page: int, state: PageState)
    requires
        words.len() == STATE_WORDS,
        0 <= page < MAX_PROGRAM_PAGES,
        state != (PageState::InScratch { scratch_page: ERASED_WORD }),
    ensures
        page_state_of(with_page_state(words, page, state), page) == Some(state),
{
}

/// Setting the state of a page changes neither the state of another page
/// nor a word of the first quarter of the record.
pub proof fn lemma_page_state_frame(words: Seq<u32>, page: int, state: PageState)
    requires
        words.len() == STATE_WORDS,
        0 <= page < MAX_PROGRAM_PAGES,
    ensures
        with_page_state(words, page, state).len() == STATE_WORDS,
        forall|other: int|
            0 <= other < MAX_PROGRAM_PAGES && other != page ==> #[trigger] page_state_of(
                with_page_state(words, page, state),
                other,
            ) == page_state_of(words, other),
        forall|i: int|
            0 <= i < CACHED_PAGES_START ==> #[trigger] with_page_state(words, page, state)[i]
                == words[i],
        record_is_valid(with_page_state(words, page, state)) == record_is_valid(words),
{
    let changed = with_page_state(words, page, state);
    assert(changed.subrange(GOAL_INDEX as int, CACHED_PAGES_START as int) =~= words.subrange(
        GOAL_INDEX as int,
        CACHED_PAGES_START as int,
    ));
}

/// Whether a record is valid depends on its first quarter alone.
pub proof fn lemma_validity_of_first_quarter(first: Seq<u32>, second: Seq<u32>)
    requires
        first.len() == STATE_WORDS,
        second.len() == STATE_WORDS,
        forall|i: int| 0 <= i < CACHED_PAGES_START ==> first[i] == second[i],
    ensures
        record_is_valid(first) == record_is_valid(second),
{
    assert(first.subrange(GOAL_INDEX as int, CACHED_PAGES_START as int) =~= second.subrange(
        GOAL_INDEX as int,
        CACHED_PAGES_START as int,
    ));
}

/// A record whose validity was set to `true` is valid.
pub proof fn lemma_with_validity(words: Seq<u32>)
    requires
        words.len() == STATE_WORDS,
    ensures
        record_is_valid(with_validity(words, true)),
        with_validity(words, true).len() == STATE_WORDS,
        forall|i: int|
            1 <= i < STATE_WORDS ==> #[trigger] with_validity(words, true)[i] == words[i],
{
    assert(with_validity(words, true).subrange(GOAL_INDEX as int, CACHED_PAGES_START as int)
        =~= words.subrange(GOAL_INDEX as int, CACHED_PAGES_START as int));
}

/// Setting the goal of a valid record leaves it valid, holds the goal, and
/// changes no page state.
pub proof fn lemma_with_goal(words: Seq<u32>, goal: BootloaderGoal)
    requires
        words.len() == STATE_WORDS,
    ensures
        with_goal(words, goal).len() == STATE_WORDS,
        with_goal(words, goal)[GOAL_INDEX as int] == goal.word(),
        BootloaderGoal::decode(with_goal(words, goal)[GOAL_INDEX as int]) == Some(goal),
        record_is_valid(words) ==> record_is_valid(with_goal(words, goal)),
        forall|i: int|
            2 <= i < STATE_WORDS ==> #[trigger] with_goal(words, goal)[i] == words[i],
        forall|page: int|
            0 <= page < MAX_PROGRAM_PAGES ==> #[trigger] page_state_of(
                with_goal(words, goal),
                page,
            ) == page_state_of(words, page),
{
    let changed = words.update(GOAL_INDEX as int, goal.word());
    lemma_with_validity(changed);
}

/// Setting the same goal a second time changes nothing: the record, and
/// with it its validity, is what it was after the first time.
pub proof fn lemma_set_goal_twice(words: Seq<u32>, goal: BootloaderGoal)
    requires
        words.len() == STATE_WORDS,
    ensures
        with_goal(with_goal(words, goal), goal) == with_goal(words, goal),
        record_is_valid(with_goal(with_goal(words, goal), goal)) == record_is_valid(
            with_goal(words, goal),
        ),
{
    let once = with_goal(words, goal);
    let changed = words.update(GOAL_INDEX as int, goal.word());
    lemma_with_validity(changed);
    assert(once.update(GOAL_INDEX as int, goal.word()) =~= once);
    if record_is_valid(once) {
        assert(with_validity(once, true) =~= once);
    }
    assert(with_goal(once, goal) =~= once);
}

/// A step of a page's swap only clears bits of the record: every word of
/// the record after the step can be programmed over the word before it.
pub proof fn lemma_step_clears_bits_only(words: Seq<u32>, page: int, scratch_page: u32)
    requires
        words.len() == STATE_WORDS,
        0 <= page < MAX_PROGRAM_PAGES,
        page_state_of(words, page) is Some,
    ensures
        programmable(
            with_page_state(words, page, page_state_of(words, page).unwrap().next(scratch_page)),
            words,
        ),
{
    let state = page_state_of(words, page).unwrap();
    let after = with_page_state(words, page, state.next(scratch_page));
    assert forall|i: int| 0 <= i < after.len() implies clears_bits_only(
        #[trigger] after[i],
        words[i],
    ) by {
        lemma_clears_bits_only(after[i]);
    }
}

/// A step of a page's swap changes at most one word of the record, so a
/// program of the record that loses power on the way leaves either the
/// record before the step or the one after it.
pub proof fn lemma_step_is_one_write(
    words: Seq<u32>,
    page: int,
    scratch_page: u32,
    partial: Seq<u32>,
)
    requires
        words.len() == STATE_WORDS,
        0 <= page < MAX_PROGRAM_PAGES,
        page_state_of(words, page) is Some,
        partly_programmed(
            partial,
            words,
            with_page_state(words, page, page_state_of(words, page).unwrap().next(scratch_page)),
        ),
    ensures
        partial == words || partial == with_page_state(
            words,
            page,
            page_state_of(words, page).unwrap().next(scratch_page),
        ),
{
    let state = page_state_of(words, page).unwrap();
    let after = with_page_state(words, page, state.next(scratch_page));
    let count = choose|count: int|
        0 <= count <= after.len() && partial == #[trigger] programmed_prefix(
            words,
            after,
            count,
        );
    let changed: int = match state {
        PageState::Original => CACHED_PAGES_START + page,
        PageState::InScratch { .. } => COPIED_PAGES_START + page,
        _ => FINISHED_PAGES_START + page,
    };
    assert forall|i: int| 0 <= i < STATE_WORDS && i != changed implies after[i] == words[i] by {}
    if count <= changed {
        assert(partial =~= words);
    } else {
        assert(partial =~= after);
    }
}


} // verus!
