//! What the bootloader decides at a boot: whether to swap, and where the
//! application starts.

use crate::flash::{
    erased_page, flash_wf, lemma_programmable_over_itself, page_index, valid_page_address, Flash,
    FlashCall,
};
use crate::flash_addresses::{RegionMap, FLASH_PAGES, PAGE_SIZE, PAGE_WORDS};
use crate::state::{
    lemma_state_pages, lemma_validity_of_first_quarter, lemma_with_goal, page_state_of,
    prepared_record, record_is_valid, same_but_state, store_calls, stored_record, with_goal,
    BootloaderGoal,
    BootloaderState, PageState, CACHED_PAGES_START, ERASED_WORD, GOAL_INDEX, MAX_PROGRAM_PAGES,
    STATE_WORDS,
};
use crate::swap::{
    check_swap_order, copies_kept, goal_after_swap, goal_is_under_way, keeps_copy,
    lemma_copies_kept_beside_state, lemma_state_pages_keep_images, original_a, original_b,
    page_state_fits, perform_swap, same_outside_swap, slots_are_swapped, swap_calls,
    swap_in_order, swap_is_kept, swapped_record, swapped_up_to,
};
use vstd::prelude::*;

verus! {

/// The first address of the RAM in which an application's stack lies.
pub const SRAM_START: u32 = 0x2000_0000;

/// The address after the last one of the RAM in which an application's
/// stack lies.
pub const SRAM_END: u32 = 0x2004_0000;

/// The number of boots from a panic after which the bootloader waits before
/// it goes on.
pub const PANIC_LIMIT: u32 = 10;

/// What a boot did before the application is started.
#[derive(Debug, Copy, Clone, Eq, PartialEq, Structural)]
pub enum BootOutcome {
    /// Neither state page holds a valid record: nothing was swapped.
    StateInvalid,
    /// The record is valid, but its goal word stands for no goal: nothing
    /// was swapped.
    UnknownGoal,
    /// The goal was to start the application: nothing was swapped.
    NoSwap,
    /// The goal was to finish a swap, but the record's page states are not
    /// those of a swap that can be taken up: nothing was swapped.
    SwapNotResumable,
    /// The goal was to start or to finish a swap, and the swap was made:
    /// the slots are swapped if power has lasted.
    Swapped {
        /// Whether it was a test swap, which the next boot swaps back.
        test_swap: bool,
    },
}

/// Whether a swap can be taken up from the record that a boot has loaded:
/// the record is in order, and it is what the primary state page holds
/// unless all pages are swapped already.
pub open spec fn swap_is_resumable(
    pages: Seq<Seq<u32>>,
    record: Seq<u32>,
    map: &RegionMap,
) -> bool {
    &&& swap_in_order(record, map)
    &&& pages[map.state_page()] == record || swapped_up_to(record, map.program_pages())
}

/// What a boot does, as the flash tells it.
pub open spec fn boot_outcome(pages: Seq<Seq<u32>>, map: &RegionMap) -> BootOutcome {
    let record = stored_record(pages, map);
    if !record_is_valid(record) {
        BootOutcome::StateInvalid
    } else {
        match BootloaderGoal::decode(record[GOAL_INDEX as int]) {
            None => BootOutcome::UnknownGoal,
            Some(BootloaderGoal::JumpToApplication) => BootOutcome::NoSwap,
            Some(BootloaderGoal::StartSwap) => BootOutcome::Swapped { test_swap: false },
            Some(BootloaderGoal::StartTestSwap) => BootOutcome::Swapped { test_swap: true },
            Some(BootloaderGoal::FinishSwap) => if swap_is_resumable(pages, record, map) {
                BootOutcome::Swapped { test_swap: false }
            } else {
                BootOutcome::SwapNotResumable
            },
            Some(BootloaderGoal::FinishTestSwap) => if swap_is_resumable(pages, record, map) {
                BootOutcome::Swapped { test_swap: true }
            } else {
                BootOutcome::SwapNotResumable
            },
        }
    }
}

/// The record from which a boot swaps: the one that it has loaded, made
/// ready first where the goal is to start a swap.
pub open spec fn swap_record(pages: Seq<Seq<u32>>, map: &RegionMap) -> Seq<u32> {
    let record = stored_record(pages, map);
    match BootloaderGoal::decode(record[GOAL_INDEX as int]) {
        Some(BootloaderGoal::StartSwap) => prepared_record(record, false, map.program_pages()),
        Some(BootloaderGoal::StartTestSwap) => prepared_record(record, true, map.program_pages()),
        _ => record,
    }
}

/// The record that a boot leaves on the state pages after a swap: every
/// page is swapped, and the goal is the one that a finished swap leaves.
pub open spec fn record_after_swap(pages: Seq<Seq<u32>>, map: &RegionMap, test_swap: bool) -> Seq<
    u32,
> {
    with_goal(
        swapped_record(swap_record(pages, map), map, map.program_pages()),
        goal_after_swap(test_swap),
    )
}

/// The erases and programs that a boot asks the flash for: none where it
/// does not swap; else a store of the record that is made ready, where the
/// goal is to start a swap, then the calls of the swap of the pages, then
/// the store of the goal that the swap leaves.
pub open spec fn boot_calls(pages: Seq<Seq<u32>>, map: &RegionMap) -> Seq<FlashCall> {
    let swap = swap_calls(swap_record(pages, map), map, map.program_pages()) + store_calls(map);
    if !(boot_outcome(pages, map) is Swapped) {
        Seq::empty()
    } else if swap_record(pages, map) == stored_record(pages, map) {
        swap
    } else {
        store_calls(map) + swap
    }
}

/// The flash from which a boot swaps: the one that it finds, with the
/// record that was made ready on both state pages where the goal is to
/// start a swap.
pub open spec fn swap_start(pages: Seq<Seq<u32>>, map: &RegionMap) -> Seq<Seq<u32>> {
    let record = stored_record(pages, map);
    match BootloaderGoal::decode(record[GOAL_INDEX as int]) {
        Some(BootloaderGoal::StartSwap) | Some(BootloaderGoal::StartTestSwap) => pages.update(
            map.state_page(),
            swap_record(pages, map),
        ).update(map.state_page() + 1, swap_record(pages, map)),
        _ => pages,
    }
}

/// Where a boot that swaps can have left the flash, with power or without.
///
/// Either nothing but the state pages has changed yet, and the primary
/// state page holds the record from which the boot swaps unless the backup
/// holds what it held before. Or the swap can be taken up from what the
/// flash holds. Or each slot holds what the other held before and the goal
/// of the finished swap is being stored: the primary state page holds the
/// record that the boot leaves unless the backup is as the swap of the
/// pages has left it.
pub open spec fn swap_is_under_way(
    before: Seq<Seq<u32>>,
    after: Seq<Seq<u32>>,
    map: &RegionMap,
    test_swap: bool,
) -> bool {
    ||| {
        &&& same_but_state(before, after, map)
        &&& after[map.state_page()] == swap_record(before, map) || after[map.state_page() + 1]
            == before[map.state_page() + 1]
    }
    ||| swap_is_kept(swap_start(before, map), swap_record(before, map), after, map)
    ||| goal_is_under_way(
        swap_start(before, map),
        swap_record(before, map),
        after,
        map,
        record_after_swap(before, map, test_swap),
    )
}

/// A record that was made ready for a swap has every page in its original
/// place, and is valid if it was valid before.
pub proof fn lemma_prepared_record(words: Seq<u32>, test_swap: bool, map: &RegionMap)
    requires
        map.wf(),
        words.len() == STATE_WORDS,
    ensures
        swap_in_order(prepared_record(words, test_swap, map.program_pages()), map),
        forall|page: int|
            0 <= page < map.program_pages() ==> #[trigger] page_state_of(
                prepared_record(words, test_swap, map.program_pages()),
                page,
            ) == Some(PageState::Original),
        record_is_valid(words) ==> record_is_valid(
            prepared_record(words, test_swap, map.program_pages()),
        ),
        forall|pages: Seq<Seq<u32>>|
            #[trigger] copies_kept(
                pages,
                prepared_record(words, test_swap, map.program_pages()),
                map,
            ),
{
    map.lemma_pages();
    let goal = if test_swap {
        BootloaderGoal::FinishTestSwap
    } else {
        BootloaderGoal::FinishSwap
    };
    lemma_with_goal(words, goal);
    let prepared = prepared_record(words, test_swap, map.program_pages());
    lemma_validity_of_first_quarter(prepared, with_goal(words, goal));
    assert forall|page: int| 0 <= page < map.program_pages() implies #[trigger] page_state_of(
        prepared,
        page,
    ) == Some(PageState::Original) by {
        assert(prepared[CACHED_PAGES_START + page] == ERASED_WORD);
        assert(prepared[CACHED_PAGES_START + 256 + page] == ERASED_WORD);
        assert(prepared[CACHED_PAGES_START + 512 + page] == ERASED_WORD);
    }
    assert forall|pages: Seq<Seq<u32>>| #[trigger] copies_kept(pages, prepared, map) by {
        assert forall|page: int| 0 <= page < map.program_pages() implies !#[trigger] keeps_copy(
            prepared,
            map,
            page,
        ) by {
            assert(page_state_of(prepared, page) == Some(PageState::Original));
        }
    }
}

/// Tells whether the first `count` pages are swapped.
fn all_swapped(state: &BootloaderState, count: u32) -> (swapped: bool)
    requires
        count <= MAX_PROGRAM_PAGES,
        forall|page: int| 0 <= page < count ==> (#[trigger] page_state_of(state@, page)) is Some,
    ensures
        swapped == swapped_up_to(state@, count as int),
{
    let mut page: u32 = 0;
    while page < count
        invariant
            page <= count <= MAX_PROGRAM_PAGES,
            forall|page: int|
                0 <= page < count ==> (#[trigger] page_state_of(state@, page)) is Some,
            swapped_up_to(state@, page as int),
        decreases count - page,
    {
        if !state.get_page_state(page).is_swapped() {
            assert(page_state_of(state@, page as int) != Some(PageState::Swapped));
            return false;
        }
        page += 1;
    }
    true
}

/// Tells whether the page at `page_address` holds the record.
fn is_stored_at<F: Flash>(state: &BootloaderState, flash: &F, page_address: u32) -> (stored: bool)
    requires
        flash_wf(flash.pages()),
        valid_page_address(page_address),
    ensures
        stored == (flash.pages()[page_index(page_address)] == state@),
{
    proof {
        state.lemma_len();
    }
    let held = flash.read(page_address);
    let mut index: usize = 0;
    while index < PAGE_WORDS
        invariant
            index <= PAGE_WORDS,
            state@.len() == STATE_WORDS,
            held@ == flash.pages()[page_index(page_address)],
            forall|i: int| 0 <= i < index ==> held@[i] == state@[i],
        decreases PAGE_WORDS - index,
    {
        if held[index] != state.word(index) {
            assert(held@[index as int] != state@[index as int]);
            return false;
        }
        index += 1;
    }
    assert(held@ =~= state@);
    true
}

/// Does what the record on the state pages asks for: swaps the slots if
/// the goal is to start or to finish a swap, and nothing else.
///
/// What is done depends on what the flash holds alone. Where nothing is
/// swapped, the flash is asked for no erase and no program. Where the
/// slots are swapped and there is power to the end, each slot holds what
/// the other held before, and both state pages hold a valid record with
/// the goal that a finished swap leaves. Whenever power is lost, the flash
/// is left as `swap_is_under_way` tells.
pub fn boot<F: Flash>(flash: &mut F, map: &RegionMap) -> (outcome: BootOutcome)
    requires
        flash_wf(old(flash).pages()),
        map.wf(),
    ensures
        outcome == boot_outcome(old(flash).pages(), map),
        flash_wf(final(flash).pages()),
        final(flash).calls() == old(flash).calls() + boot_calls(old(flash).pages(), map),
        final(flash).powered() ==> old(flash).powered(),
        !old(flash).powered() ==> final(flash).pages() == old(flash).pages(),
        same_outside_swap(old(flash).pages(), final(flash).pages(), map),
        !(outcome is Swapped) ==> final(flash).pages() == old(flash).pages(),
        outcome matches BootOutcome::Swapped { test_swap } ==> final(flash).powered() ==> {
            let record = final(flash).pages()[map.state_page()];
            &&& slots_are_swapped(
                old(flash).pages(),
                swap_record(old(flash).pages(), map),
                final(flash).pages(),
                map,
            )
            &&& record == record_after_swap(old(flash).pages(), map, test_swap)
            &&& copies_kept(old(flash).pages(), swap_record(old(flash).pages(), map), map)
                ==> copies_kept(final(flash).pages(), record, map)
            &&& final(flash).pages()[map.state_page() + 1] == record
            &&& record_is_valid(record)
            &&& BootloaderGoal::decode(record[GOAL_INDEX as int]) == Some(
                goal_after_swap(test_swap),
            )
            &&& swapped_up_to(record, map.program_pages())
        },
        outcome matches BootOutcome::Swapped { test_swap } ==> old(flash).powered()
            ==> swap_is_under_way(old(flash).pages(), final(flash).pages(), map, test_swap),
{
    proof {
        map.lemma_pages();
        lemma_state_pages(map);
    }
    let mut state = BootloaderState::load(flash, map);
    proof {
        state.lemma_len();
    }
    if !state.is_valid() {
        return BootOutcome::StateInvalid;
    }
    let (test_swap, start) = match state.stored_goal() {
        None => {
            return BootOutcome::UnknownGoal;
        },
        Some(BootloaderGoal::JumpToApplication) => {
            return BootOutcome::NoSwap;
        },
        Some(BootloaderGoal::StartSwap) => (false, true),
        Some(BootloaderGoal::FinishSwap) => (false, false),
        Some(BootloaderGoal::StartTestSwap) => (true, true),
        Some(BootloaderGoal::FinishTestSwap) => (true, false),
    };
    if start {
        proof {
            lemma_prepared_record(state@, test_swap, map);
        }
        state.prepare_swap(test_swap, flash, map);
        let ghost prepared = flash.pages();
        let ghost prepared_powered = flash.powered();
        let ghost record = state@;
        perform_swap(test_swap, &mut state, flash, map);
        proof {
            if flash.powered() && copies_kept(old(flash).pages(), record, map) {
                lemma_copies_kept_beside_state(old(flash).pages(), record, prepared, record, map);
            }
            if prepared_powered {
                assert(prepared =~= swap_start(old(flash).pages(), map));
                lemma_programmable_over_itself(record);
                if flash.powered() {
                    lemma_slots_swapped_from(
                        old(flash).pages(),
                        prepared,
                        record,
                        flash.pages(),
                        map,
                    );
                }
            } else {
                assert(flash.pages() == prepared);
            }
            lemma_same_outside_swap(old(flash).pages(), prepared, flash.pages(), map);
        }
    } else {
        if !check_swap_order(&state, map) {
            return BootOutcome::SwapNotResumable;
        }
        let total_program_pages: u32 = (map.program_slot_a_end - map.program_slot_a_start)
            / PAGE_SIZE;
        proof {
            assert forall|page: int| 0 <= page < total_program_pages implies (
            #[trigger] page_state_of(state@, page)) is Some by {
                assert(page_state_fits(page_state_of(state@, page), map));
            }
        }
        if !is_stored_at(&state, flash, map.bootloader_state_start) && !all_swapped(
            &state,
            total_program_pages,
        ) {
            return BootOutcome::SwapNotResumable;
        }
        perform_swap(test_swap, &mut state, flash, map);
    }
    BootOutcome::Swapped { test_swap }
}

/// Where the state pages alone have changed before a swap, the swap gives
/// the slots what it would have given them without that change.
proof fn lemma_slots_swapped_from(
    before: Seq<Seq<u32>>,
    prepared: Seq<Seq<u32>>,
    record: Seq<u32>,
    after: Seq<Seq<u32>>,
    map: &RegionMap,
)
    requires
        map.wf(),
        flash_wf(before),
        same_but_state(before, prepared, map),
        swap_in_order(record, map),
        slots_are_swapped(prepared, record, after, map),
    ensures
        slots_are_swapped(before, record, after, map),
{
    map.lemma_pages();
    lemma_state_pages_keep_images(before, prepared, record, map);
    assert forall|page: int| 0 <= page < map.program_pages() implies {
        &&& after[map.slot_a_page() + page] == original_b(before, record, map, page)
        &&& after[map.slot_b_page() + page] == original_a(before, record, map, page)
    } by {
        assert(original_a(prepared, record, map, page) == original_a(before, record, map, page));
        assert(original_b(prepared, record, map, page) == original_b(before, record, map, page));
    }
}

/// A change of the state pages followed by a change inside the regions of
/// the swap is a change inside the regions of the swap.
proof fn lemma_same_outside_swap(
    before: Seq<Seq<u32>>,
    between: Seq<Seq<u32>>,
    after: Seq<Seq<u32>>,
    map: &RegionMap,
)
    requires
        same_but_state(before, between, map),
        same_outside_swap(between, after, map),
    ensures
        same_outside_swap(before, after, map),
{
    assert forall|page: int|
        0 <= page < before.len() && !map.is_scratch_page(page) && !map.is_state_page(page)
            && !map.is_slot_a_page(page) && !map.is_slot_b_page(page) implies #[trigger] after[page]
        == before[page] by {
        assert(between[page] == before[page]);
    }
}

/// A swap that has lost power is taken up by the boot that follows, and
/// that boot gives the slots what the swap would have given them had power
/// lasted.
///
/// `before` is the flash from which the swap set out with the valid record
/// `record`, whose goal is to finish a swap; `crashed` is a flash from which
/// the swap can be taken up, as the swap of the pages leaves it whenever
/// power is lost; `after` is the flash that the boot after that leaves with
/// power to the end. The slots end as they would have without the loss of
/// power, and so do the copies in the scratch pages.
pub proof fn lemma_resumed_swap(
    before: Seq<Seq<u32>>,
    record: Seq<u32>,
    crashed: Seq<Seq<u32>>,
    after: Seq<Seq<u32>>,
    map: &RegionMap,
    test_swap: bool,
)
    requires
        map.wf(),
        flash_wf(crashed),
        record.len() == STATE_WORDS,
        record_is_valid(record),
        BootloaderGoal::decode(record[GOAL_INDEX as int]) == Some(
            if test_swap {
                BootloaderGoal::FinishTestSwap
            } else {
                BootloaderGoal::FinishSwap
            },
        ),
        swap_is_kept(before, record, crashed, map),
        slots_are_swapped(crashed, swap_record(crashed, map), after, map),
        copies_kept(crashed, swap_record(crashed, map), map) ==> copies_kept(
            after,
            after[map.state_page()],
            map,
        ),
    ensures
        boot_outcome(crashed, map) == (BootOutcome::Swapped { test_swap }),
        slots_are_swapped(before, record, after, map),
        copies_kept(before, record, map) ==> copies_kept(after, after[map.state_page()], map),
{
    map.lemma_pages();
    let durable = crashed[map.state_page()];
    lemma_validity_of_first_quarter(durable, record);
    assert(stored_record(crashed, map) == durable);
    assert(swap_record(crashed, map) == durable);
    assert forall|page: int| 0 <= page < map.program_pages() implies {
        &&& after[map.slot_a_page() + page] == original_b(before, record, map, page)
        &&& after[map.slot_b_page() + page] == original_a(before, record, map, page)
    } by {
        assert(original_a(crashed, durable, map, page) == original_a(before, record, map, page));
        assert(original_b(crashed, durable, map, page) == original_b(before, record, map, page));
    }
}

/// Where the store of the goal of a finished swap has lost power and the
/// boot after it loads the record with all pages swapped that the backup
/// still holds, that boot stores the goal again and leaves the slots as
/// they are.
///
/// `crashed` is the flash after the loss of power, `after` the flash that
/// the boot after it leaves with power to the end.
pub proof fn lemma_finished_swap_stays(
    crashed: Seq<Seq<u32>>,
    after: Seq<Seq<u32>>,
    map: &RegionMap,
    test_swap: bool,
)
    requires
        map.wf(),
        flash_wf(crashed),
        record_is_valid(stored_record(crashed, map)),
        BootloaderGoal::decode(stored_record(crashed, map)[GOAL_INDEX as int]) == Some(
            if test_swap {
                BootloaderGoal::FinishTestSwap
            } else {
                BootloaderGoal::FinishSwap
            },
        ),
        swap_in_order(stored_record(crashed, map), map),
        swapped_up_to(stored_record(crashed, map), map.program_pages()),
        slots_are_swapped(crashed, swap_record(crashed, map), after, map),
    ensures
        boot_outcome(crashed, map) == (BootOutcome::Swapped { test_swap }),
        forall|page: int|
            0 <= page < map.program_pages() ==> {
                &&& #[trigger] after[map.slot_a_page() + page] == crashed[map.slot_a_page() + page]
                &&& #[trigger] after[map.slot_b_page() + page] == crashed[map.slot_b_page() + page]
            },
{
    let record = stored_record(crashed, map);
    assert forall|page: int| 0 <= page < map.program_pages() implies {
        &&& #[trigger] after[map.slot_a_page() + page] == crashed[map.slot_a_page() + page]
        &&& #[trigger] after[map.slot_b_page() + page] == crashed[map.slot_b_page() + page]
    } by {
        assert(page_state_of(record, page) == Some(PageState::Swapped));
    }
}

/// A boot that finds both state pages erased swaps nothing and asks the
/// flash for no erase and no program, whatever the checksum of the erased
/// record is: it takes the record for invalid, or else for one whose goal
/// is to start the application.
pub proof fn lemma_erased_state_swaps_nothing(pages: Seq<Seq<u32>>, map: &RegionMap)
    requires
        map.wf(),
        flash_wf(pages),
        pages[map.state_page()] == erased_page(),
        pages[map.state_page() + 1] == erased_page(),
    ensures
        boot_outcome(pages, map) == if record_is_valid(erased_page()) {
            BootOutcome::NoSwap
        } else {
            BootOutcome::StateInvalid
        },
        boot_calls(pages, map) == Seq::<FlashCall>::empty(),
{
}

/// Whether a word is padding in front of an application: erased flash or
/// zeroes.
pub open spec fn is_padding(word: u32) -> bool {
    word == ERASED_WORD || word == 0
}

/// Whether a word can be the initial stack pointer of an application: an
/// address in RAM.
pub open spec fn is_stack_pointer(word: u32) -> bool {
    SRAM_START <= word < SRAM_END
}

/// Whether a word can be the reset vector of an application: an address in
/// slot A.
pub open spec fn is_reset_vector(word: u32, map: &RegionMap) -> bool {
    map.program_slot_a_start <= word < map.program_slot_a_end
}

/// The number of words in slot A.
pub open spec fn slot_a_words(map: &RegionMap) -> int {
    map.program_pages() * PAGE_WORDS as int
}

/// The word at `index` of slot A, counted in words from its start.
pub open spec fn slot_a_word(pages: Seq<Seq<u32>>, map: &RegionMap, index: int) -> u32 {
    pages[map.slot_a_page() + index / PAGE_WORDS as int][index % PAGE_WORDS as int]
}

/// The index of the first word of slot A at or after `from` that is not
/// padding, or the number of words in slot A if there is none.
pub open spec fn next_word(pages: Seq<Seq<u32>>, map: &RegionMap, from: int) -> int
    decreases slot_a_words(map) - from,
{
    if from >= slot_a_words(map) {
        slot_a_words(map)
    } else if is_padding(slot_a_word(pages, map, from)) {
        next_word(pages, map, from + 1)
    } else {
        from
    }
}

/// The address of the application's vector table in slot A, if there is
/// one.
///
/// The table starts at the first word that is not padding, which has to be
/// a stack pointer. The word after it that is not padding has to be a reset
/// vector: where a word that is none follows, or only padding up to the end
/// of the slot, there is no table.
pub open spec fn application_address(pages: Seq<Seq<u32>>, map: &RegionMap) -> Option<u32> {
    let table = next_word(pages, map, 0);
    if table >= slot_a_words(map) || !is_stack_pointer(slot_a_word(pages, map, table)) {
        None
    } else {
        let vector = next_word(pages, map, table + 1);
        if vector < slot_a_words(map) && is_reset_vector(slot_a_word(pages, map, vector), map) {
            Some((map.program_slot_a_start + 4 * table) as u32)
        } else {
            None
        }
    }
}

/// Padding is skipped: where all words from `from` up to `to` are padding,
/// the next word that is not is the same from both.
proof fn lemma_next_word_skips(pages: Seq<Seq<u32>>, map: &RegionMap, from: int, to: int)
    requires
        0 <= from <= to <= slot_a_words(map),
        forall|i: int| from <= i < to ==> is_padding(#[trigger] slot_a_word(pages, map, i)),
    ensures
        next_word(pages, map, from) == next_word(pages, map, to),
    decreases to - from,
{
    if from < to {
        lemma_next_word_skips(pages, map, from + 1, to);
    }
}

/// Finds the application's vector table in slot A.
pub fn find_application<F: Flash>(flash: &F, map: &RegionMap) -> (address: Option<u32>)
    requires
        flash_wf(flash.pages()),
        map.wf(),
    ensures
        address == application_address(flash.pages(), map),
{
    proof {
        map.lemma_pages();
    }
    let total_program_pages: u32 = (map.program_slot_a_end - map.program_slot_a_start)
        / PAGE_SIZE;
    let mut application_address: Option<u32> = None;
    let ghost mut table: int = 0;
    let mut page: u32 = 0;
    while page < total_program_pages
        invariant
            flash_wf(flash.pages()),
            map.wf(),
            page <= total_program_pages <= FLASH_PAGES,
            total_program_pages == map.program_pages(),
            application_address is None ==> forall|i: int|
                0 <= i < page * PAGE_WORDS ==> is_padding(
                    #[trigger] slot_a_word(flash.pages(), map, i),
                ),
            application_address is Some ==> {
                &&& 0 <= table < page * PAGE_WORDS
                &&& application_address == Some((map.program_slot_a_start + 4 * table) as u32)
                &&& next_word(flash.pages(), map, 0) == table
                &&& is_stack_pointer(slot_a_word(flash.pages(), map, table))
                &&& forall|i: int|
                    table < i < page * PAGE_WORDS ==> is_padding(
                        #[trigger] slot_a_word(flash.pages(), map, i),
                    )
            },
        decreases total_program_pages - page,
    {
        let page_address: u32 = map.program_slot_a_start + page * PAGE_SIZE;
        let words = flash.read(page_address);
        let mut offset: usize = 0;
        while offset < PAGE_WORDS
            invariant
                flash_wf(flash.pages()),
                map.wf(),
                page < total_program_pages <= FLASH_PAGES,
                total_program_pages == map.program_pages(),
                page_address == map.program_slot_a_start + page * PAGE_SIZE,
                offset <= PAGE_WORDS,
                words@ == flash.pages()[map.slot_a_page() + page],
                application_address is None ==> forall|i: int|
                    0 <= i < page * PAGE_WORDS + offset ==> is_padding(
                        #[trigger] slot_a_word(flash.pages(), map, i),
                    ),
                application_address is Some ==> {
                    &&& 0 <= table < page * PAGE_WORDS + offset
                    &&& application_address == Some((map.program_slot_a_start + 4 * table) as u32)
                    &&& next_word(flash.pages(), map, 0) == table
                    &&& is_stack_pointer(slot_a_word(flash.pages(), map, table))
                    &&& forall|i: int|
                        table < i < page * PAGE_WORDS + offset ==> is_padding(
                            #[trigger] slot_a_word(flash.pages(), map, i),
                        )
                },
            decreases PAGE_WORDS - offset,
        {
            let word: u32 = words[offset];
            let ghost index: int = page * PAGE_WORDS + offset;
            proof {
                assert(index / PAGE_WORDS as int == page as int);
                assert(index % PAGE_WORDS as int == offset as int);
                assert(slot_a_word(flash.pages(), map, index) == word);
                assert(index < slot_a_words(map)) by (nonlinear_arith)
                    requires
                        index == page * PAGE_WORDS + offset,
                        offset < PAGE_WORDS,
                        page < map.program_pages(),
                        slot_a_words(map) == map.program_pages() * PAGE_WORDS as int,
                ;
            }
            if word == ERASED_WORD || word == 0 {
            } else if application_address.is_none() {
                proof {
                    lemma_next_word_skips(flash.pages(), map, 0, index);
                }
                if SRAM_START <= word && word < SRAM_END {
                    application_address = Some(page_address + 4 * (offset as u32));
                    proof {
                        table = index;
                    }
                } else {
                    return None;
                }
            } else {
                proof {
                    lemma_next_word_skips(flash.pages(), map, table + 1, index);
                }
                if map.program_slot_a_start <= word && word < map.program_slot_a_end {
                    return application_address;
                } else {
                    return None;
                }
            }
            offset += 1;
        }
        page += 1;
    }
    proof {
        if application_address is None {
            lemma_next_word_skips(flash.pages(), map, 0, slot_a_words(map));
        } else {
            lemma_next_word_skips(flash.pages(), map, table + 1, slot_a_words(map));
        }
    }
    None
}

/// What the bootloader makes of the count of panics at a boot.
#[derive(Debug, Copy, Clone, Eq, PartialEq, Structural)]
pub struct PanicTally {
    /// The number of boots from a panic in a row, this boot included.
    pub panics: u32,
    /// Whether the bootloader is to wait before it goes on, to spare the
    /// flash in a loop of resets.
    pub throttle: bool,
    /// The count to keep for the next boot.
    pub kept: u32,
}

/// The tally for a count of `stored` panics kept from the boot before and
/// for a boot that did or did not follow a panic.
///
/// A kept count above the limit is what memory holds after power-up and
/// counts as zero. The boot's own panic is added. A count above the limit
/// throttles the boot and starts from zero again.
pub open spec fn panic_tally(stored: u32, panicked: bool) -> PanicTally {
    let start: u32 = if stored > PANIC_LIMIT {
        0
    } else {
        stored
    };
    let panics: u32 = if panicked {
        (start + 1) as u32
    } else {
        start
    };
    PanicTally {
        panics,
        throttle: panics > PANIC_LIMIT,
        kept: if panics > PANIC_LIMIT {
            0
        } else {
            panics
        },
    }
}

/// Counts the panics at a boot: `stored` is the count kept from the boot
/// before, `panicked` tells whether this boot follows a panic.
pub fn count_panics(stored: u32, panicked: bool) -> (tally: PanicTally)
    ensures
        tally == panic_tally(stored, panicked),
{
    let mut panics: u32 = stored;
    if panics > PANIC_LIMIT {
        panics = 0;
    }
    if panicked {
        panics += 1;
    }
    if panics > PANIC_LIMIT {
        PanicTally { panics, throttle: true, kept: 0 }
    } else {
        PanicTally { panics, throttle: false, kept: panics }
    }
}


} // verus!
