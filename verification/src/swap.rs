//! The engine that swaps the two image slots, page by page.
//!
//! Every program page goes through three steps. Slot A's page is copied to
//! a scratch page; slot B's page is written over slot A's; the copy in the
//! scratch page is written over slot B's. After each step the page's new
//! state is programmed into the state pages, and only then does the next
//! step begin. Whenever power is lost, the record on the primary state page
//! and the flash together still tell what each slot held before the swap,
//! so the swap can be taken up again at the next boot.

use crate::flash::{
    clears_bits_only, erased_page, flash_wf, lemma_clears_bits_only, lemma_programmable_over,
    lemma_programmable_over_part, page_index, programmable, programmed, same_but,
    valid_page_address, Flash, FlashCall,
};
use crate::flash_addresses::{RegionMap, FLASH_PAGES, PAGE_SIZE};
use crate::state::{
    burn_store_calls, lemma_page_state_frame, lemma_page_state_round_trip,
    lemma_step_clears_bits_only, lemma_step_is_one_write, lemma_validity_of_first_quarter,
    lemma_with_goal, page_state_of, record_is_valid, same_but_state, store_calls, with_goal,
    with_page_state, BootloaderGoal, BootloaderState, PageState, CACHED_PAGES_START, ERASED_WORD,
    GOAL_INDEX, MAX_PROGRAM_PAGES, STATE_WORDS, VALID_WORD,
};
use vstd::prelude::*;

verus! {

/// Whether a page's three words stand for a state that the engine can work
/// from: a page that is in a scratch page names a page of the scratch
/// region.
pub open spec fn page_state_fits(state: Option<PageState>, map: &RegionMap) -> bool {
    match state {
        Some(PageState::InScratch { scratch_page }) => map.is_scratch_page(scratch_page as int),
        Some(PageState::InScratchOverwritten { scratch_page }) => map.is_scratch_page(
            scratch_page as int,
        ),
        Some(_) => true,
        None => false,
    }
}

/// The index of a scratch page is neither of the two words that mark the
/// steps of a page in the record, so a page that is in a scratch page is
/// never taken for a page in another state.
pub proof fn lemma_scratch_page_is_no_mark(map: &RegionMap, page: int)
    requires
        map.wf(),
        map.is_scratch_page(page),
    ensures
        0 <= page < FLASH_PAGES,
        page != VALID_WORD,
        page != ERASED_WORD,
{
    map.lemma_pages();
}

/// Whether the record is one that the engine leaves: every page has a
/// state that fits, and the pages were swapped in order, so that before any
/// page that has left its original place all pages are swapped.
pub open spec fn swap_in_order(record: Seq<u32>, map: &RegionMap) -> bool {
    &&& record.len() == STATE_WORDS
    &&& forall|page: int|
        0 <= page < map.program_pages() ==> page_state_fits(
            #[trigger] page_state_of(record, page),
            map,
        )
    &&& forall|first: int, second: int|
        #![trigger page_state_of(record, first), page_state_of(record, second)]
        0 <= first < second < map.program_pages() ==> page_state_of(record, first) == Some(
            PageState::Swapped,
        ) || page_state_of(record, second) == Some(PageState::Original)
}

/// Whether the first `count` pages are swapped.
pub open spec fn swapped_up_to(record: Seq<u32>, count: int) -> bool {
    forall|page: int|
        0 <= page < count ==> #[trigger] page_state_of(record, page) == Some(PageState::Swapped)
}

/// What page `page` of slot A held before the swap, as the record and the
/// flash tell it.
pub open spec fn original_a(
    pages: Seq<Seq<u32>>,
    record: Seq<u32>,
    map: &RegionMap,
    page: int,
) -> Seq<u32> {
    match page_state_of(record, page) {
        Some(PageState::InScratch { scratch_page }) => pages[scratch_page as int],
        Some(PageState::InScratchOverwritten { scratch_page }) => pages[scratch_page as int],
        Some(PageState::Swapped) => pages[map.slot_b_page() + page],
        _ => pages[map.slot_a_page() + page],
    }
}

/// What page `page` of slot B held before the swap, as the record and the
/// flash tell it.
pub open spec fn original_b(
    pages: Seq<Seq<u32>>,
    record: Seq<u32>,
    map: &RegionMap,
    page: int,
) -> Seq<u32> {
    match page_state_of(record, page) {
        Some(PageState::InScratchOverwritten { .. }) => pages[map.slot_a_page() + page],
        Some(PageState::Swapped) => pages[map.slot_a_page() + page],
        _ => pages[map.slot_b_page() + page],
    }
}

/// Whether a flash and its record tell of the same images before the swap
/// as another flash and its record.
pub open spec fn images_kept(
    before: Seq<Seq<u32>>,
    record_before: Seq<u32>,
    after: Seq<Seq<u32>>,
    record_after: Seq<u32>,
    map: &RegionMap,
) -> bool {
    forall|page: int|
        #![trigger original_a(after, record_after, map, page)]
        #![trigger original_b(after, record_after, map, page)]
        0 <= page < map.program_pages() ==> {
            &&& original_a(after, record_after, map, page) == original_a(
                before,
                record_before,
                map,
                page,
            )
            &&& original_b(after, record_after, map, page) == original_b(
                before,
                record_before,
                map,
                page,
            )
        }
}

/// Whether every page outside of the scratch region, the state pages and
/// the two slots is in `after` what it is in `before`.
pub open spec fn same_outside_swap(
    before: Seq<Seq<u32>>,
    after: Seq<Seq<u32>>,
    map: &RegionMap,
) -> bool {
    &&& after.len() == before.len()
    &&& forall|page: int|
        0 <= page < before.len() && !map.is_scratch_page(page) && !map.is_state_page(page)
            && !map.is_slot_a_page(page) && !map.is_slot_b_page(page) ==> #[trigger] after[page]
            == before[page]
}

/// What a move of page `source` to page `target` does to the flash.
///
/// Only the target changes. With power before and after, it holds what the
/// source holds. Without power nothing changes.
pub open spec fn move_outcome(
    before: Seq<Seq<u32>>,
    was_powered: bool,
    after: Seq<Seq<u32>>,
    is_powered: bool,
    source: int,
    target: int,
) -> bool {
    &&& flash_wf(after)
    &&& same_but(before, after, target)
    &&& is_powered ==> was_powered
    &&& !was_powered ==> after[target] == before[target]
    &&& is_powered ==> after[target] == before[source]
}

/// Moves a page: erases the page at `target_address` and programs it with
/// what the page at `source_address` holds.
fn move_page<F: Flash>(flash: &mut F, source_address: u32, target_address: u32)
    requires
        flash_wf(old(flash).pages()),
        valid_page_address(source_address),
        valid_page_address(target_address),
        page_index(source_address) != page_index(target_address),
    ensures
        move_outcome(
            old(flash).pages(),
            old(flash).powered(),
            final(flash).pages(),
            final(flash).powered(),
            page_index(source_address),
            page_index(target_address),
        ),
        final(flash).calls() == old(flash).calls().push(
            (FlashCall::Erase { page: page_index(target_address) }),
        ).push((FlashCall::Program { page: page_index(target_address) })),
{
    flash.erase_page(target_address);
    let data = flash.read(source_address);
    proof {
        assert forall|i: int| 0 <= i < data@.len() implies clears_bits_only(
            #[trigger] data@[i],
            erased_page()[i],
        ) by {
            lemma_clears_bits_only(data@[i]);
        }
        assert(programmed(erased_page(), data@) =~= data@);
    }
    flash.program_page(target_address, &data);
}

/// Whether page `target` is the one that the next step of page `page`
/// writes to: a scratch page for a page in its original place, then the
/// page of slot A, then the page of slot B.
pub open spec fn is_step_target(record: Seq<u32>, map: &RegionMap, page: int, target: int) -> bool {
    match page_state_of(record, page) {
        Some(PageState::Original) => map.is_scratch_page(target),
        Some(PageState::InScratch { .. }) => target == map.slot_a_page() + page,
        Some(PageState::InScratchOverwritten { .. }) => target == map.slot_b_page() + page,
        _ => false,
    }
}

/// Whether the move of the next step of page `page` has been made: the
/// page that the step writes to holds what the step copies.
pub open spec fn step_is_moved(
    pages: Seq<Seq<u32>>,
    record: Seq<u32>,
    map: &RegionMap,
    page: int,
    scratch_page: int,
) -> bool {
    match page_state_of(record, page) {
        Some(PageState::Original) => pages[scratch_page] == pages[map.slot_a_page() + page],
        Some(PageState::InScratch { .. }) => pages[map.slot_a_page() + page]
            == pages[map.slot_b_page() + page],
        Some(PageState::InScratchOverwritten { scratch_page: used }) => pages[map.slot_b_page()
            + page] == pages[used as int],
        _ => true,
    }
}

/// Where the pages before `page` are swapped and `page` is not, the pages
/// after it are in their original place.
proof fn lemma_frontier(record: Seq<u32>, map: &RegionMap, page: int)
    requires
        swap_in_order(record, map),
        0 <= page < map.program_pages(),
        page_state_of(record, page) != Some(PageState::Swapped),
    ensures
        forall|later: int|
            page < later < map.program_pages() ==> #[trigger] page_state_of(record, later)
                == Some(PageState::Original),
{
    assert forall|later: int| page < later < map.program_pages() implies #[trigger] page_state_of(
        record,
        later,
    ) == Some(PageState::Original) by {
        assert(page_state_of(record, page) == Some(PageState::Swapped) || page_state_of(
            record,
            later,
        ) == Some(PageState::Original));
    }
}

/// The page that a step writes to holds nothing that tells of the images
/// before the swap: whatever becomes of it, they are kept.
proof fn lemma_target_is_free(
    before: Seq<Seq<u32>>,
    after: Seq<Seq<u32>>,
    record: Seq<u32>,
    map: &RegionMap,
    page: int,
    target: int,
)
    requires
        map.wf(),
        flash_wf(before),
        same_but(before, after, target),
        swap_in_order(record, map),
        0 <= page < map.program_pages(),
        swapped_up_to(record, page),
        is_step_target(record, map, page, target),
    ensures
        images_kept(before, record, after, record, map),
{
    map.lemma_pages();
    lemma_frontier(record, map, page);
    assert forall|other: int| 0 <= other < map.program_pages() implies {
        &&& original_a(after, record, map, other) == original_a(before, record, map, other)
        &&& original_b(after, record, map, other) == original_b(before, record, map, other)
    } by {
        let state = page_state_of(record, other);
        assert(page_state_fits(state, map));
        assert(map.is_slot_a_page(map.slot_a_page() + other));
        assert(map.is_slot_b_page(map.slot_b_page() + other));
        assert(map.is_slot_a_page(map.slot_a_page() + page));
        assert(map.is_slot_b_page(map.slot_b_page() + page));
        if other < page {
            assert(state == Some(PageState::Swapped));
        } else if other > page {
            assert(state == Some(PageState::Original));
        }
    }
}

/// The state pages hold nothing of the images: whatever becomes of them,
/// the images that a record tells of are kept.
pub proof fn lemma_state_pages_keep_images(
    before: Seq<Seq<u32>>,
    after: Seq<Seq<u32>>,
    record: Seq<u32>,
    map: &RegionMap,
)
    requires
        map.wf(),
        flash_wf(before),
        same_but_state(before, after, map),
        swap_in_order(record, map),
    ensures
        images_kept(before, record, after, record, map),
{
    map.lemma_pages();
    assert forall|other: int| 0 <= other < map.program_pages() implies {
        &&& original_a(after, record, map, other) == original_a(before, record, map, other)
        &&& original_b(after, record, map, other) == original_b(before, record, map, other)
    } by {
        let state = page_state_of(record, other);
        assert(page_state_fits(state, map));
        assert(map.is_slot_a_page(map.slot_a_page() + other));
        assert(map.is_slot_b_page(map.slot_b_page() + other));
    }
}

/// Once the move of a step has been made, the record after the step tells
/// of the same images as the record before it.
proof fn lemma_step_keeps_images(
    pages: Seq<Seq<u32>>,
    record: Seq<u32>,
    map: &RegionMap,
    page: int,
    scratch_page: u32,
)
    requires
        map.wf(),
        flash_wf(pages),
        swap_in_order(record, map),
        0 <= page < map.program_pages(),
        page_state_of(record, page) != Some(PageState::Swapped),
        map.is_scratch_page(scratch_page as int),
        step_is_moved(pages, record, map, page, scratch_page as int),
    ensures
        images_kept(
            pages,
            record,
            pages,
            with_page_state(record, page, page_state_of(record, page).unwrap().next(scratch_page)),
            map,
        ),
{
    map.lemma_pages();
    assert(page_state_fits(page_state_of(record, page), map));
    let state = page_state_of(record, page).unwrap();
    let next = state.next(scratch_page);
    let after = with_page_state(record, page, next);
    lemma_page_state_round_trip(record, page, next);
    lemma_page_state_frame(record, page, next);
    assert forall|other: int| 0 <= other < map.program_pages() implies {
        &&& original_a(pages, after, map, other) == original_a(pages, record, map, other)
        &&& original_b(pages, after, map, other) == original_b(pages, record, map, other)
    } by {
        if other != page {
            assert(page_state_of(after, other) == page_state_of(record, other));
        }
    }
}

/// Keeping the images carries over two changes in a row.
pub proof fn lemma_images_kept_twice(
    first: Seq<Seq<u32>>,
    first_record: Seq<u32>,
    second: Seq<Seq<u32>>,
    second_record: Seq<u32>,
    third: Seq<Seq<u32>>,
    third_record: Seq<u32>,
    map: &RegionMap,
)
    requires
        images_kept(first, first_record, second, second_record, map),
        images_kept(second, second_record, third, third_record, map),
    ensures
        images_kept(first, first_record, third, third_record, map),
{
    assert forall|page: int| 0 <= page < map.program_pages() implies {
        &&& original_a(third, third_record, map, page) == original_a(
            first,
            first_record,
            map,
            page,
        )
        &&& original_b(third, third_record, map, page) == original_b(
            first,
            first_record,
            map,
            page,
        )
    } by {
        assert(original_a(second, second_record, map, page) == original_a(
            first,
            first_record,
            map,
            page,
        ));
        assert(original_b(second, second_record, map, page) == original_b(
            first,
            first_record,
            map,
            page,
        ));
    }
}

/// The record after the next step of the swap of page `page`.
pub open spec fn advanced_record(record: Seq<u32>, page: int, scratch_page: u32) -> Seq<u32> {
    match page_state_of(record, page) {
        Some(state) => with_page_state(record, page, state.next(scratch_page)),
        None => record,
    }
}

/// The record after the swap of page `page` has been finished: after three
/// steps, of which those that are left over for a page that is on its way
/// change nothing.
pub open spec fn swapped_page_record(record: Seq<u32>, page: int, scratch_page: u32) -> Seq<
    u32,
> {
    advanced_record(
        advanced_record(advanced_record(record, page, scratch_page), page, scratch_page),
        page,
        scratch_page,
    )
}

/// The scratch page that page `page` is copied to: the scratch pages are
/// taken in turn.
pub open spec fn scratch_page_for(map: &RegionMap, page: int) -> u32 {
    (map.scratch_page() + page % map.scratch_pages()) as u32
}

/// The record after the swap of the first `count` pages has been finished.
pub open spec fn swapped_record(record: Seq<u32>, map: &RegionMap, count: int) -> Seq<u32>
    decreases count,
{
    if count <= 0 {
        record
    } else {
        swapped_page_record(
            swapped_record(record, map, count - 1),
            count - 1,
            scratch_page_for(map, count - 1),
        )
    }
}

/// A page is swapped after at most three steps, and a step changes nothing
/// for a page that is swapped.
pub proof fn lemma_swapped_page(record: Seq<u32>, page: int, scratch_page: u32)
    requires
        record.len() == STATE_WORDS,
        0 <= page < MAX_PROGRAM_PAGES,
        page_state_of(record, page) is Some,
        scratch_page != ERASED_WORD,
    ensures
        page_state_of(swapped_page_record(record, page, scratch_page), page) == Some(
            PageState::Swapped,
        ),
        page_state_of(record, page) == Some(PageState::Swapped) ==> advanced_record(
            record,
            page,
            scratch_page,
        ) == record && swapped_page_record(record, page, scratch_page) == record,
        swapped_page_record(advanced_record(record, page, scratch_page), page, scratch_page)
            == swapped_page_record(record, page, scratch_page),
{
    let first = advanced_record(record, page, scratch_page);
    lemma_page_state_round_trip(
        record,
        page,
        page_state_of(record, page).unwrap().next(scratch_page),
    );
    let second = advanced_record(first, page, scratch_page);
    lemma_page_state_round_trip(
        first,
        page,
        page_state_of(first, page).unwrap().next(scratch_page),
    );
    let third = advanced_record(second, page, scratch_page);
    lemma_page_state_round_trip(
        second,
        page,
        page_state_of(second, page).unwrap().next(scratch_page),
    );
    assert(page_state_of(third, page) == Some(PageState::Swapped));
    assert(advanced_record(third, page, scratch_page) =~= third);
    if page_state_of(record, page) == Some(PageState::Swapped) {
        assert(first =~= record);
    }
}

/// Whether page `page` has left its original place.
pub open spec fn has_started(record: Seq<u32>, page: int) -> bool {
    page_state_of(record, page) != Some(PageState::Original)
}

/// The scratch page of page `page`: the one that the record names for a
/// page that has left its original place, and the one whose turn it will
/// be for a page that has not.
pub open spec fn scratch_use(record: Seq<u32>, map: &RegionMap, page: int) -> int {
    if has_started(record, page) {
        record[CACHED_PAGES_START + page] as int
    } else {
        scratch_page_for(map, page) as int
    }
}

/// Whether the scratch page of page `page` keeps the copy that was made of
/// the page: the page has left its original place, and no later page uses
/// the same scratch page.
pub open spec fn keeps_copy(record: Seq<u32>, map: &RegionMap, page: int) -> bool {
    &&& has_started(record, page)
    &&& map.is_scratch_page(scratch_use(record, map, page))
    &&& forall|later: int|
        page < later < map.program_pages() ==> #[trigger] scratch_use(record, map, later)
            != scratch_use(record, map, page)
}

/// Whether every scratch page that keeps the copy of a page holds what
/// that page of slot A held before the swap.
pub open spec fn copies_kept(pages: Seq<Seq<u32>>, record: Seq<u32>, map: &RegionMap) -> bool {
    forall|page: int|
        0 <= page < map.program_pages() && #[trigger] keeps_copy(record, map, page)
            ==> pages[scratch_use(record, map, page)] == original_a(pages, record, map, page)
}

/// A step leaves every page its scratch page, when the page that leaves its
/// original place is copied to the scratch page whose turn it is.
proof fn lemma_step_keeps_scratch_use(record: Seq<u32>, map: &RegionMap, page: int)
    requires
        map.wf(),
        swap_in_order(record, map),
        0 <= page < map.program_pages(),
    ensures
        forall|other: int|
            0 <= other < map.program_pages() ==> #[trigger] scratch_use(
                advanced_record(record, page, scratch_page_for(map, page)),
                map,
                other,
            ) == scratch_use(record, map, other),
        forall|other: int|
            0 <= other < map.program_pages() && other != page ==> #[trigger] has_started(
                advanced_record(record, page, scratch_page_for(map, page)),
                other,
            ) == has_started(record, other),
        has_started(advanced_record(record, page, scratch_page_for(map, page)), page),
{
    map.lemma_pages();
    assert(page_state_fits(page_state_of(record, page), map));
    let scratch_page = scratch_page_for(map, page);
    let state = page_state_of(record, page).unwrap();
    let after = advanced_record(record, page, scratch_page);
    lemma_page_state_round_trip(record, page, state.next(scratch_page));
    lemma_page_state_frame(record, page, state.next(scratch_page));
    assert forall|other: int| 0 <= other < map.program_pages() implies #[trigger] scratch_use(
        after,
        map,
        other,
    ) == scratch_use(record, map, other) by {
        if other != page {
            assert(page_state_of(after, other) == page_state_of(record, other));
        }
    }
    assert forall|other: int|
        0 <= other < map.program_pages() && other != page implies #[trigger] has_started(
        after,
        other,
    ) == has_started(record, other) by {
        assert(page_state_of(after, other) == page_state_of(record, other));
    }
}

/// A step keeps the copies in the scratch pages: where the flash and the
/// record before the step tell of the same images as those after it, and
/// no scratch page has changed but the one that the step writes to, every
/// scratch page that keeps a copy after the step holds it.
proof fn lemma_step_keeps_copies(
    before: Seq<Seq<u32>>,
    record: Seq<u32>,
    after: Seq<Seq<u32>>,
    record_after: Seq<u32>,
    map: &RegionMap,
    page: int,
)
    requires
        map.wf(),
        flash_wf(before),
        flash_wf(after),
        swap_in_order(record, map),
        0 <= page < map.program_pages(),
        swapped_up_to(record, page),
        page_state_of(record, page) != Some(PageState::Swapped),
        record_after == record || record_after == advanced_record(
            record,
            page,
            scratch_page_for(map, page),
        ),
        images_kept(before, record, after, record_after, map),
        forall|scratch: int|
            map.is_scratch_page(scratch) && !(!has_started(record, page) && scratch
                == scratch_page_for(map, page)) ==> #[trigger] after[scratch] == before[scratch],
        copies_kept(before, record, map),
    ensures
        copies_kept(after, record_after, map),
{
    map.lemma_pages();
    lemma_step_keeps_scratch_use(record, map, page);
    assert forall|other: int|
        0 <= other < map.program_pages() && #[trigger] keeps_copy(
            record_after,
            map,
            other,
        ) implies after[scratch_use(record_after, map, other)] == original_a(
        after,
        record_after,
        map,
        other,
    ) by {
        let used = scratch_use(record_after, map, other);
        assert(used == scratch_use(record, map, other));
        assert(original_a(after, record_after, map, other) == original_a(
            before,
            record,
            map,
            other,
        ));
        if has_started(record, other) {
            assert(keeps_copy(record, map, other)) by {
                assert forall|later: int|
                    other < later < map.program_pages() implies #[trigger] scratch_use(
                    record,
                    map,
                    later,
                ) != scratch_use(record, map, other) by {
                    assert(scratch_use(record_after, map, later) != scratch_use(
                        record_after,
                        map,
                        other,
                    ));
                }
            }
            if !has_started(record, page) && used == scratch_page_for(map, page) {
                assert(other < page) by {
                    if other > page {
                        assert(page_state_of(record, page) == Some(PageState::Swapped)
                            || page_state_of(record, other) == Some(PageState::Original));
                    }
                }
                assert(scratch_use(record, map, page) != scratch_use(record, map, other));
            }
            assert(after[used] == before[used]);
        } else {
            assert(other == page);
            assert(record_after != record);
            assert(page_state_fits(page_state_of(record, page), map));
            lemma_page_state_round_trip(
                record,
                page,
                PageState::InScratch { scratch_page: scratch_page_for(map, page) },
            );
        }
    }
}

/// The page that the next step of page `page` writes to, where
/// `scratch_page` is the scratch page that a page in its original place is
/// copied to.
pub open spec fn step_target(
    record: Seq<u32>,
    map: &RegionMap,
    page: int,
    scratch_page: u32,
) -> int {
    match page_state_of(record, page) {
        Some(PageState::Original) => scratch_page as int,
        Some(PageState::InScratch { .. }) => map.slot_a_page() + page,
        _ => map.slot_b_page() + page,
    }
}

/// The calls that one step makes: an erase and a program of the page that
/// the step writes to, then a burn-store of the page's new state.
pub open spec fn step_calls(map: &RegionMap, target: int) -> Seq<FlashCall> {
    seq![FlashCall::Erase { page: target }, FlashCall::Program { page: target }]
        + burn_store_calls(map)
}

/// The calls that the swap of page `page` makes from the state that the
/// record tells: those of the steps that are left, one step after the
/// other, and none for a page that is swapped.
pub open spec fn page_calls(
    record: Seq<u32>,
    map: &RegionMap,
    page: int,
    scratch_page: u32,
) -> Seq<FlashCall> {
    let to_scratch = step_calls(map, scratch_page as int);
    let to_slot_a = step_calls(map, map.slot_a_page() + page);
    let to_slot_b = step_calls(map, map.slot_b_page() + page);
    match page_state_of(record, page) {
        Some(PageState::Original) => to_scratch + to_slot_a + to_slot_b,
        Some(PageState::InScratch { .. }) => to_slot_a + to_slot_b,
        Some(PageState::InScratchOverwritten { .. }) => to_slot_b,
        _ => Seq::empty(),
    }
}

/// The calls that the swap of the first `count` pages makes, page after
/// page.
pub open spec fn swap_calls(record: Seq<u32>, map: &RegionMap, count: int) -> Seq<FlashCall>
    decreases count,
{
    if count <= 0 {
        Seq::empty()
    } else {
        swap_calls(record, map, count - 1) + page_calls(
            record,
            map,
            count - 1,
            scratch_page_for(map, count - 1),
        )
    }
}

/// The swap of a page makes four calls for each step that is left, of which
/// the first is the one erase of the step and the last two are the
/// burn-store of the state that the step leads to: as many burn-stores as
/// there are steps left, at most three erases, and no call for a page that
/// is swapped.
pub proof fn lemma_page_calls(record: Seq<u32>, map: &RegionMap, page: int, scratch_page: u32)
    requires
        page_state_of(record, page) is Some,
    ensures
        page_calls(record, map, page, scratch_page).len() == 4 * page_state_of(
            record,
            page,
        ).unwrap().steps_left(),
        page_state_of(record, page) == Some(PageState::Swapped) ==> page_calls(
            record,
            map,
            page,
            scratch_page,
        ) == Seq::<FlashCall>::empty(),
        forall|i: int|
            0 <= i < page_calls(record, map, page, scratch_page).len() ==> {
                let call = #[trigger] page_calls(record, map, page, scratch_page)[i];
                &&& i % 4 == 0 ==> call is Erase
                &&& i % 4 == 1 ==> call is Program
                &&& i % 4 == 2 ==> call == (FlashCall::Program { page: map.state_page() })
                &&& i % 4 == 3 ==> call == (FlashCall::Program { page: map.state_page() + 1 })
            },
{
}

/// The swap of the first `count` pages makes at most twelve calls for each
/// page: at most three erases of a page of the slots or of the scratch
/// region, and at most three burn-stores.
pub proof fn lemma_swap_calls(record: Seq<u32>, map: &RegionMap, count: int)
    requires
        0 <= count,
        forall|page: int| 0 <= page < count ==> (#[trigger] page_state_of(record, page)) is Some,
    ensures
        swap_calls(record, map, count).len() <= 12 * count,
        swapped_up_to(record, count) ==> swap_calls(record, map, count)
            == Seq::<FlashCall>::empty(),
    decreases count,
{
    if count > 0 {
        lemma_swap_calls(record, map, count - 1);
        lemma_page_calls(record, map, count - 1, scratch_page_for(map, count - 1));
        if swapped_up_to(record, count) {
            assert(page_state_of(record, count - 1) == Some(PageState::Swapped));
            assert(swapped_up_to(record, count - 1));
            assert(swap_calls(record, map, count) =~= Seq::<FlashCall>::empty());
        }
    }
}

/// The calls of the swap of a page are those of its next step and then
/// those of the swap of the page from the state that the step leads to.
proof fn lemma_page_calls_step(record: Seq<u32>, map: &RegionMap, page: int, scratch_page: u32)
    requires
        record.len() == STATE_WORDS,
        0 <= page < MAX_PROGRAM_PAGES,
        page_state_of(record, page) is Some,
        page_state_of(record, page) != Some(PageState::Swapped),
        scratch_page != ERASED_WORD,
    ensures
        page_calls(record, map, page, scratch_page) == step_calls(
            map,
            step_target(record, map, page, scratch_page),
        ) + page_calls(advanced_record(record, page, scratch_page), map, page, scratch_page),
{
    lemma_page_state_round_trip(
        record,
        page,
        page_state_of(record, page).unwrap().next(scratch_page),
    );
    assert(page_calls(record, map, page, scratch_page) =~= step_calls(
        map,
        step_target(record, map, page, scratch_page),
    ) + page_calls(advanced_record(record, page, scratch_page), map, page, scratch_page));
}

/// Whether the backup state page is behind `record`: whether the record can
/// be programmed over what the backup holds.
pub open spec fn backup_is_behind(pages: Seq<Seq<u32>>, record: Seq<u32>, map: &RegionMap) -> bool {
    programmable(record, pages[map.state_page() + 1])
}

/// What one step of a page's swap does to the flash, where `record_before`
/// is the record that the primary state page held before the step and
/// `record_after` the record after it.
///
/// Without power nothing changes. With power before the step, the primary
/// state page holds the record before the step or the one after it, and
/// the one after it if there still is power; together with the flash, the
/// record that it holds tells of the same images as before the step; the
/// scratch pages keep their copies, if the step takes the scratch page
/// whose turn it is; and no page outside of the regions of the swap
/// changes. With power to the end, the move of the step has been made. A
/// backup that was behind the record is behind the record that the primary
/// state page holds, and holds the record after the step with power to the
/// end.
pub open spec fn step_outcome(
    before: Seq<Seq<u32>>,
    was_powered: bool,
    after: Seq<Seq<u32>>,
    is_powered: bool,
    map: &RegionMap,
    record_before: Seq<u32>,
    record_after: Seq<u32>,
    page: int,
    scratch_page: u32,
) -> bool {
    let durable = after[map.state_page()];
    &&& flash_wf(after)
    &&& is_powered ==> was_powered
    &&& !was_powered ==> after == before
    &&& was_powered ==> {
        &&& durable == record_before || durable == record_after
        &&& is_powered ==> durable == record_after
        &&& is_powered ==> step_is_moved(after, record_before, map, page, scratch_page as int)
        &&& images_kept(before, record_before, after, durable, map)
        &&& scratch_page == scratch_page_for(map, page) && copies_kept(before, record_before, map)
            ==> copies_kept(after, durable, map)
        &&& backup_is_behind(before, record_before, map) ==> {
            &&& backup_is_behind(after, durable, map)
            &&& is_powered ==> after[map.state_page() + 1] == record_after
        }
        &&& same_outside_swap(before, after, map)
    }
}

/// Makes the next step of the swap of page `page`, counted from the start
/// of the slots: moves one page and programs the page's new state into the
/// state pages. `scratch_page` is the index of the scratch page that a page
/// in its original place is copied to.
///
/// The page's state in the record goes one step forward, whatever becomes
/// of the flash. The flash is asked for one erase and one program of the
/// page that the step writes to, and then for one burn-store.
pub fn advance_page<F: Flash>(
    state: &mut BootloaderState,
    flash: &mut F,
    map: &RegionMap,
    page: u32,
    scratch_page: u32,
)
    requires
        flash_wf(old(flash).pages()),
        map.wf(),
        page < map.program_pages(),
        swap_in_order(old(state)@, map),
        swapped_up_to(old(state)@, page as int),
        page_state_of(old(state)@, page as int) != Some(PageState::Swapped),
        map.is_scratch_page(scratch_page as int),
        old(flash).powered() ==> old(flash).pages()[map.state_page()] == old(state)@,
    ensures
        final(state)@ == advanced_record(old(state)@, page as int, scratch_page),
        page_state_of(final(state)@, page as int) == Some(
            page_state_of(old(state)@, page as int).unwrap().next(scratch_page),
        ),
        swap_in_order(final(state)@, map),
        step_outcome(
            old(flash).pages(),
            old(flash).powered(),
            final(flash).pages(),
            final(flash).powered(),
            map,
            old(state)@,
            final(state)@,
            page as int,
            scratch_page,
        ),
        final(flash).calls() == old(flash).calls() + step_calls(
            map,
            step_target(old(state)@, map, page as int, scratch_page),
        ),
{
    let ghost before = flash.pages();
    let ghost record = state@;
    proof {
        map.lemma_pages();
        state.lemma_len();
        assert(page_state_fits(page_state_of(record, page as int), map));
        assert(map.is_slot_a_page(map.slot_a_page() + page));
        assert(map.is_slot_b_page(map.slot_b_page() + page));
    }
    let slot_a_address: u32 = map.program_slot_a_start + page * PAGE_SIZE;
    let slot_b_address: u32 = map.program_slot_b_start + page * PAGE_SIZE;
    let current = state.get_page_state(page);
    let ghost target: int;
    match current {
        PageState::Original => {
            let scratch_address: u32 = scratch_page * PAGE_SIZE;
            proof {
                target = scratch_page as int;
            }
            move_page(flash, slot_a_address, scratch_address);
            state.set_page_state(page, PageState::InScratch { scratch_page });
        },
        PageState::InScratch { scratch_page: used } => {
            proof {
                target = map.slot_a_page() + page;
            }
            move_page(flash, slot_b_address, slot_a_address);
            state.set_page_state(page, PageState::InScratchOverwritten { scratch_page: used });
        },
        PageState::InScratchOverwritten { scratch_page: used } => {
            let scratch_address: u32 = used * PAGE_SIZE;
            proof {
                target = map.slot_b_page() + page;
            }
            move_page(flash, scratch_address, slot_b_address);
            state.set_page_state(page, PageState::Swapped);
        },
        PageState::Swapped => {
            proof {
                target = 0;
            }
        },
    }
    let ghost moved = flash.pages();
    let ghost moved_powered = flash.powered();
    proof {
        lemma_target_is_free(before, moved, record, map, page as int, target);
        lemma_step_clears_bits_only(record, page as int, scratch_page);
        lemma_page_state_frame(
            record,
            page as int,
            page_state_of(record, page as int).unwrap().next(scratch_page),
        );
        lemma_order_of_step(record, map, page as int, scratch_page);
        if moved_powered {
            lemma_step_keeps_images(moved, record, map, page as int, scratch_page);
        }
    }
    state.burn_store(flash, map);
    proof {
        let after = flash.pages();
        let durable = after[map.state_page()];
        if old(flash).powered() {
            assert(moved[map.state_page()] == record);
            lemma_step_is_one_write(record, page as int, scratch_page, durable);
            if moved_powered {
                lemma_state_pages_keep_images(moved, after, state@, map);
                lemma_images_kept_twice(moved, record, moved, state@, after, state@, map);
            }
            lemma_state_pages_keep_images(moved, after, record, map);
            if durable == record {
                lemma_images_kept_twice(before, record, moved, record, after, record, map);
            } else {
                lemma_images_kept_twice(before, record, moved, record, after, state@, map);
            }
            if backup_is_behind(before, record, map) {
                lemma_programmable_over(state@, record, moved[map.state_page() + 1]);
                lemma_programmable_over_part(
                    state@,
                    moved[map.state_page() + 1],
                    after[map.state_page() + 1],
                );
            }
            if scratch_page == scratch_page_for(map, page as int) && copies_kept(
                before,
                record,
                map,
            ) {
                assert forall|scratch: int|
                    map.is_scratch_page(scratch) && !(!has_started(record, page as int) && scratch
                        == scratch_page_for(map, page as int)) implies #[trigger] after[scratch]
                    == before[scratch] by {
                    assert(moved[scratch] == before[scratch]);
                }
                lemma_step_keeps_copies(before, record, after, durable, map, page as int);
            }
        } else {
            assert(after =~= before);
        }
        lemma_page_state_round_trip(
            record,
            page as int,
            page_state_of(record, page as int).unwrap().next(scratch_page),
        );
        assert(flash.calls() =~= old(flash).calls() + step_calls(
            map,
            step_target(record, map, page as int, scratch_page),
        ));
    }
}

/// A step leaves a record that is in order.
proof fn lemma_order_of_step(record: Seq<u32>, map: &RegionMap, page: int, scratch_page: u32)
    requires
        map.wf(),
        swap_in_order(record, map),
        0 <= page < map.program_pages(),
        swapped_up_to(record, page),
        page_state_of(record, page) != Some(PageState::Swapped),
        map.is_scratch_page(scratch_page as int),
    ensures
        swap_in_order(
            with_page_state(record, page, page_state_of(record, page).unwrap().next(scratch_page)),
            map,
        ),
{
    map.lemma_pages();
    lemma_frontier(record, map, page);
    assert(page_state_fits(page_state_of(record, page), map));
    let state = page_state_of(record, page).unwrap();
    let next = state.next(scratch_page);
    let after = with_page_state(record, page, next);
    lemma_page_state_round_trip(record, page, next);
    lemma_page_state_frame(record, page, next);
    assert forall|other: int| 0 <= other < map.program_pages() implies page_state_fits(
        #[trigger] page_state_of(after, other),
        map,
    ) by {
        assert(page_state_fits(page_state_of(record, other), map));
    }
    assert forall|first: int, second: int|
        #![trigger page_state_of(after, first), page_state_of(after, second)]
        0 <= first < second < map.program_pages() implies page_state_of(after, first) == Some(
        PageState::Swapped,
    ) || page_state_of(after, second) == Some(PageState::Original) by {
        assert(page_state_of(record, first) == Some(PageState::Swapped) || page_state_of(
            record,
            second,
        ) == Some(PageState::Original));
        if second == page {
            assert(page_state_of(record, first) == Some(PageState::Swapped));
        }
    }
}


/// Tells whether the record is one that the engine can work from: whether
/// every page has a state that fits and the pages were swapped in order.
pub fn check_swap_order(state: &BootloaderState, map: &RegionMap) -> (in_order: bool)
    requires
        map.wf(),
    ensures
        in_order == swap_in_order(state@, map),
{
    proof {
        map.lemma_pages();
        state.lemma_len();
    }
    let total_program_pages: u32 = (map.program_slot_a_end - map.program_slot_a_start)
        / PAGE_SIZE;
    let first_scratch_page: u32 = map.bootloader_scratch_start / PAGE_SIZE;
    let end_scratch_page: u32 = map.bootloader_scratch_end / PAGE_SIZE;
    let mut unswapped_seen = false;
    let ghost mut unswapped: int = 0;
    let mut page: u32 = 0;
    while page < total_program_pages
        invariant
            map.wf(),
            state@.len() == STATE_WORDS,
            page <= total_program_pages <= MAX_PROGRAM_PAGES,
            total_program_pages == map.program_pages(),
            first_scratch_page == map.scratch_page(),
            end_scratch_page == map.scratch_page() + map.scratch_pages(),
            forall|earlier: int|
                0 <= earlier < page ==> page_state_fits(
                    #[trigger] page_state_of(state@, earlier),
                    map,
                ),
            forall|first: int, second: int|
                #![trigger page_state_of(state@, first), page_state_of(state@, second)]
                0 <= first < second < page ==> page_state_of(state@, first) == Some(
                    PageState::Swapped,
                ) || page_state_of(state@, second) == Some(PageState::Original),
            !unswapped_seen ==> swapped_up_to(state@, page as int),
            unswapped_seen ==> 0 <= unswapped < page && page_state_of(state@, unswapped) != Some(
                PageState::Swapped,
            ),
        decreases total_program_pages - page,
    {
        let fits = match state.checked_page_state(page) {
            Some(PageState::InScratch { scratch_page }) => first_scratch_page <= scratch_page
                && scratch_page < end_scratch_page,
            Some(PageState::InScratchOverwritten { scratch_page }) => first_scratch_page
                <= scratch_page && scratch_page < end_scratch_page,
            Some(_) => true,
            None => false,
        };
        if !fits {
            assert(!page_state_fits(page_state_of(state@, page as int), map));
            return false;
        }
        let current = state.get_page_state(page);
        if unswapped_seen && current != PageState::Original {
            assert(!(page_state_of(state@, unswapped) == Some(PageState::Swapped) || page_state_of(
                state@,
                page as int,
            ) == Some(PageState::Original)));
            return false;
        }
        if !current.is_swapped() && !unswapped_seen {
            unswapped_seen = true;
            proof {
                unswapped = page as int;
            }
        }
        page += 1;
    }
    true
}

/// Whether the swap can be taken up from the flash `after`: its primary
/// state page holds a record that is in order and has the first quarter of
/// `record_before`, and that tells, together with the flash, of the same
/// images as `record_before` told with the flash `before`. The scratch
/// pages keep their copies if they kept them before, and the backup state
/// page is behind the primary if it was behind the record before.
pub open spec fn swap_is_kept(
    before: Seq<Seq<u32>>,
    record_before: Seq<u32>,
    after: Seq<Seq<u32>>,
    map: &RegionMap,
) -> bool {
    let durable = after[map.state_page()];
    &&& swap_in_order(durable, map)
    &&& forall|i: int| 0 <= i < CACHED_PAGES_START ==> durable[i] == record_before[i]
    &&& images_kept(before, record_before, after, durable, map)
    &&& copies_kept(before, record_before, map) ==> copies_kept(after, durable, map)
    &&& backup_is_behind(before, record_before, map) ==> backup_is_behind(after, durable, map)
}

/// What the swap of all pages does to the flash, where `record_before` is
/// the record in memory before it and `record_after` the one after it.
///
/// Without power nothing changes. Where the primary state page did not
/// hold the record, all pages were swapped already, and nothing changes
/// either. Else the swap can be taken up from what the flash holds,
/// whenever power was lost, and no page outside of the regions of the swap
/// has changed. With power to the end, the primary state page holds the
/// record in memory, and a backup that was behind the record holds it too,
/// unless no step was made.
pub open spec fn swap_outcome(
    before: Seq<Seq<u32>>,
    was_powered: bool,
    after: Seq<Seq<u32>>,
    is_powered: bool,
    map: &RegionMap,
    record_before: Seq<u32>,
    record_after: Seq<u32>,
) -> bool {
    &&& flash_wf(after)
    &&& is_powered ==> was_powered
    &&& !was_powered ==> after == before
    &&& was_powered && before[map.state_page()] != record_before ==> after == before
        && record_after == record_before
    &&& was_powered && before[map.state_page()] == record_before ==> {
        &&& swap_is_kept(before, record_before, after, map)
        &&& same_outside_swap(before, after, map)
        &&& is_powered ==> after[map.state_page()] == record_after
        &&& is_powered && backup_is_behind(before, record_before, map) ==> after[map.state_page()
            + 1] == record_after || (after[map.state_page() + 1] == before[map.state_page() + 1]
            && record_after == record_before)
    }
}

/// Whether each slot holds what the record and the flash `before` tell
/// that the other held before the swap.
pub open spec fn slots_are_swapped(
    before: Seq<Seq<u32>>,
    record_before: Seq<u32>,
    after: Seq<Seq<u32>>,
    map: &RegionMap,
) -> bool {
    forall|page: int|
        #![trigger after[map.slot_a_page() + page]]
        #![trigger after[map.slot_b_page() + page]]
        0 <= page < map.program_pages() ==> {
            &&& after[map.slot_a_page() + page] == original_b(before, record_before, map, page)
            &&& after[map.slot_b_page() + page] == original_a(before, record_before, map, page)
        }
}

/// Swaps every page that is not swapped yet, one step after the other,
/// from where the record says that an earlier run has got to.
///
/// In the record all pages end as swapped, whatever becomes of the flash.
/// With power to the end, each slot holds what the other held before the
/// swap. The flash is asked for the calls of the steps that are left, page
/// after page, and for no other.
pub fn swap_pages<F: Flash>(state: &mut BootloaderState, flash: &mut F, map: &RegionMap)
    requires
        flash_wf(old(flash).pages()),
        map.wf(),
        swap_in_order(old(state)@, map),
        old(flash).powered() ==> old(flash).pages()[map.state_page()] == old(state)@
            || swapped_up_to(old(state)@, map.program_pages()),
    ensures
        final(state)@ == swapped_record(old(state)@, map, map.program_pages()),
        swap_in_order(final(state)@, map),
        swapped_up_to(final(state)@, map.program_pages()),
        forall|i: int| 0 <= i < CACHED_PAGES_START ==> final(state)@[i] == old(state)@[i],
        swap_outcome(
            old(flash).pages(),
            old(flash).powered(),
            final(flash).pages(),
            final(flash).powered(),
            map,
            old(state)@,
            final(state)@,
        ),
        final(flash).powered() ==> slots_are_swapped(
            old(flash).pages(),
            old(state)@,
            final(flash).pages(),
            map,
        ),
        final(flash).powered() && copies_kept(old(flash).pages(), old(state)@, map)
            ==> copies_kept(final(flash).pages(), final(state)@, map),
        final(flash).calls() == old(flash).calls() + swap_calls(
            old(state)@,
            map,
            map.program_pages(),
        ),
{
    proof {
        map.lemma_pages();
        state.lemma_len();
        if flash.powered() && flash.pages()[map.state_page()] == state@ {
            lemma_images_kept_same(flash.pages(), state@, map);
        }
        assert(flash.calls() =~= flash.calls() + swap_calls(state@, map, 0));
    }
    let total_program_pages: u32 = (map.program_slot_a_end - map.program_slot_a_start)
        / PAGE_SIZE;
    let total_scratch_pages: u32 = (map.bootloader_scratch_end - map.bootloader_scratch_start)
        / PAGE_SIZE;
    let first_scratch_page: u32 = map.bootloader_scratch_start / PAGE_SIZE;
    let mut scratch_page_index: u32 = 0;
    let mut page: u32 = 0;
    while page < total_program_pages
        invariant
            flash_wf(flash.pages()),
            map.wf(),
            page <= total_program_pages <= MAX_PROGRAM_PAGES,
            total_program_pages == map.program_pages(),
            total_scratch_pages == map.scratch_pages(),
            first_scratch_page == map.scratch_page(),
            scratch_page_index == page % total_scratch_pages,
            state@ == swapped_record(old(state)@, map, page as int),
            flash.calls() == old(flash).calls() + swap_calls(old(state)@, map, page as int),
            forall|later: int|
                page <= later < total_program_pages ==> #[trigger] page_state_of(state@, later)
                    == page_state_of(old(state)@, later),
            old(flash).powered() ==> old(flash).pages()[map.state_page()] == old(state)@
                || swapped_up_to(old(state)@, map.program_pages()),
            swap_in_order(state@, map),
            swapped_up_to(state@, page as int),
            forall|i: int| 0 <= i < CACHED_PAGES_START ==> state@[i] == old(state)@[i],
            swap_outcome(
                old(flash).pages(),
                old(flash).powered(),
                flash.pages(),
                flash.powered(),
                map,
                old(state)@,
                state@,
            ),
        decreases total_program_pages - page,
    {
        proof {
            let scratch_page = (first_scratch_page + scratch_page_index) as u32;
            assert(page_state_of(state@, page as int) == page_state_of(old(state)@, page as int));
            assert(flash.calls() + page_calls(state@, map, page as int, scratch_page)
                =~= old(flash).calls() + swap_calls(old(state)@, map, page + 1));
        }
        while !state.get_page_state(page).is_swapped()
            invariant
                flash_wf(flash.pages()),
                map.wf(),
                page < total_program_pages <= MAX_PROGRAM_PAGES,
                total_program_pages == map.program_pages(),
                total_scratch_pages == map.scratch_pages(),
                first_scratch_page == map.scratch_page(),
                scratch_page_index == page % total_scratch_pages,
                flash.calls() + page_calls(
                    state@,
                    map,
                    page as int,
                    (first_scratch_page + scratch_page_index) as u32,
                ) == old(flash).calls() + swap_calls(old(state)@, map, page + 1),
                forall|later: int|
                    page < later < total_program_pages ==> #[trigger] page_state_of(
                        state@,
                        later,
                    ) == page_state_of(old(state)@, later),
                swapped_page_record(
                    state@,
                    page as int,
                    (first_scratch_page + scratch_page_index) as u32,
                ) == swapped_record(old(state)@, map, page + 1),
                old(flash).powered() ==> old(flash).pages()[map.state_page()] == old(state)@
                    || swapped_up_to(old(state)@, map.program_pages()),
                swap_in_order(state@, map),
                swapped_up_to(state@, page as int),
                forall|i: int| 0 <= i < CACHED_PAGES_START ==> state@[i] == old(state)@[i],
                swap_outcome(
                    old(flash).pages(),
                    old(flash).powered(),
                    flash.pages(),
                    flash.powered(),
                    map,
                    old(state)@,
                    state@,
                ),
            decreases page_state_of(state@, page as int).unwrap().steps_left(),
        {
            let scratch_page: u32 = first_scratch_page + scratch_page_index;
            let ghost stepped_from = flash.pages();
            let ghost called = flash.calls();
            let ghost record = state@;
            proof {
                assert(page_state_fits(page_state_of(record, page as int), map));
            }
            advance_page(state, flash, map, page, scratch_page);
            proof {
                lemma_page_calls_step(record, map, page as int, scratch_page);
                assert(flash.calls() + page_calls(state@, map, page as int, scratch_page)
                    =~= called + page_calls(record, map, page as int, scratch_page));
                lemma_swapped_page(record, page as int, scratch_page);
                lemma_page_state_frame(
                    record,
                    page as int,
                    page_state_of(record, page as int).unwrap().next(scratch_page),
                );
                if old(flash).powered() && old(flash).pages()[map.state_page()] == old(state)@ {
                    lemma_images_kept_twice(
                        old(flash).pages(),
                        old(state)@,
                        stepped_from,
                        stepped_from[map.state_page()],
                        flash.pages(),
                        flash.pages()[map.state_page()],
                        map,
                    );
                }
            }
        }
        proof {
            assert(page_state_fits(page_state_of(state@, page as int), map));
            assert(flash.calls() =~= flash.calls() + page_calls(
                state@,
                map,
                page as int,
                (first_scratch_page + scratch_page_index) as u32,
            ));
            lemma_swapped_page(
                state@,
                page as int,
                (first_scratch_page + scratch_page_index) as u32,
            );
            vstd::arithmetic::div_mod::lemma_add_mod_noop_right(
                1,
                page as int,
                total_scratch_pages as int,
            );
        }
        scratch_page_index = (scratch_page_index + 1) % total_scratch_pages;
        page += 1;
    }
    proof {
        if flash.powered() {
            assert forall|page: int| 0 <= page < map.program_pages() implies {
                &&& flash.pages()[map.slot_a_page() + page] == original_b(
                    old(flash).pages(),
                    old(state)@,
                    map,
                    page,
                )
                &&& flash.pages()[map.slot_b_page() + page] == original_a(
                    old(flash).pages(),
                    old(state)@,
                    map,
                    page,
                )
            } by {
                assert(page_state_of(state@, page) == Some(PageState::Swapped));
                if old(flash).pages()[map.state_page()] == old(state)@ {
                    assert(original_a(flash.pages(), state@, map, page) == original_a(
                        old(flash).pages(),
                        old(state)@,
                        map,
                        page,
                    ));
                    assert(original_b(flash.pages(), state@, map, page) == original_b(
                        old(flash).pages(),
                        old(state)@,
                        map,
                        page,
                    ));
                } else {
                    assert(page_state_of(old(state)@, page) == Some(PageState::Swapped));
                }
            }
        }
    }
}

/// A flash and its record tell of the same images as themselves.
proof fn lemma_images_kept_same(pages: Seq<Seq<u32>>, record: Seq<u32>, map: &RegionMap)
    ensures
        images_kept(pages, record, pages, record, map),
{
}

/// The goal that a finished swap leaves: to start the application, or,
/// after a test swap, to swap back.
pub open spec fn goal_after_swap(test_swap: bool) -> BootloaderGoal {
    if test_swap {
        BootloaderGoal::StartSwap
    } else {
        BootloaderGoal::JumpToApplication
    }
}

/// Whether the flash `after` is one that the store of the goal of a
/// finished swap can leave, with power or without: each slot holds what the
/// other held before the swap, and the primary state page holds the record
/// `stored` unless the backup is as the swap of the pages has left it. A
/// backup that was behind the record before the swap then holds the record
/// with all pages swapped, or what it held before the swap if no step was
/// made.
pub open spec fn goal_is_under_way(
    before: Seq<Seq<u32>>,
    record_before: Seq<u32>,
    after: Seq<Seq<u32>>,
    map: &RegionMap,
    stored: Seq<u32>,
) -> bool {
    let swapped = swapped_record(record_before, map, map.program_pages());
    let backup = after[map.state_page() + 1];
    &&& slots_are_swapped(before, record_before, after, map)
    &&& before[map.state_page()] != record_before ==> after[map.state_page()] == stored || backup
        == before[map.state_page() + 1]
    &&& before[map.state_page()] == record_before && backup_is_behind(before, record_before, map)
        ==> after[map.state_page()] == stored || backup == swapped || (backup
        == before[map.state_page() + 1] && swapped == record_before)
}

/// Performs the swap: swaps every page that is not swapped yet, then sets
/// the goal that a finished swap leaves and stores the record.
///
/// With power to the end, each slot holds what the other held before the
/// swap, and both state pages hold the record. Whenever power is lost, the
/// swap can be taken up from what the flash holds, or the slots are
/// swapped and one of the two state pages is whole. The flash is asked for
/// the calls of the steps that are left, page after page, and then for
/// those of the store.
pub fn perform_swap<F: Flash>(
    test_swap: bool,
    state: &mut BootloaderState,
    flash: &mut F,
    map: &RegionMap,
)
    requires
        flash_wf(old(flash).pages()),
        map.wf(),
        swap_in_order(old(state)@, map),
        old(flash).powered() ==> old(flash).pages()[map.state_page()] == old(state)@
            || swapped_up_to(old(state)@, map.program_pages()),
    ensures
        final(state)@ == with_goal(
            swapped_record(old(state)@, map, map.program_pages()),
            goal_after_swap(test_swap),
        ),
        swap_in_order(final(state)@, map),
        swapped_up_to(final(state)@, map.program_pages()),
        BootloaderGoal::decode(final(state)@[GOAL_INDEX as int]) == Some(
            goal_after_swap(test_swap),
        ),
        final(state)@[GOAL_INDEX as int] == goal_after_swap(test_swap).word(),
        record_is_valid(old(state)@) ==> record_is_valid(final(state)@),
        forall|i: int| 2 <= i < CACHED_PAGES_START ==> final(state)@[i] == old(state)@[i],
        final(flash).powered() ==> old(flash).powered(),
        !old(flash).powered() ==> final(flash).pages() == old(flash).pages(),
        same_outside_swap(old(flash).pages(), final(flash).pages(), map),
        final(flash).powered() ==> {
            &&& slots_are_swapped(old(flash).pages(), old(state)@, final(flash).pages(), map)
            &&& final(flash).pages()[map.state_page()] == final(state)@
            &&& final(flash).pages()[map.state_page() + 1] == final(state)@
            &&& copies_kept(old(flash).pages(), old(state)@, map) ==> copies_kept(
                final(flash).pages(),
                final(state)@,
                map,
            )
        },
        flash_wf(final(flash).pages()),
        final(flash).calls() == old(flash).calls() + swap_calls(
            old(state)@,
            map,
            map.program_pages(),
        ) + store_calls(map),
        old(flash).powered() ==> swap_is_kept(
            old(flash).pages(),
            old(state)@,
            final(flash).pages(),
            map,
        ) || goal_is_under_way(
            old(flash).pages(),
            old(state)@,
            final(flash).pages(),
            map,
            final(state)@,
        ),
{
    proof {
        map.lemma_pages();
        state.lemma_len();
    }
    swap_pages(state, flash, map);
    let ghost swapped = state@;
    let ghost swapped_pages = flash.pages();
    if test_swap {
        state.set_goal(BootloaderGoal::StartSwap);
    } else {
        state.set_goal(BootloaderGoal::JumpToApplication);
    }
    proof {
        lemma_with_goal(swapped, goal_after_swap(test_swap));
        lemma_validity_of_first_quarter(swapped, old(state)@);
        lemma_order_of_goal(swapped, goal_after_swap(test_swap), map);
    }
    let ghost stored = state@;
    let ghost swapped_powered = flash.powered();
    state.store(flash, map);
    proof {
        if !swapped_powered {
            assert(flash.pages() == swapped_pages);
        }
        if flash.powered() && copies_kept(old(flash).pages(), old(state)@, map) {
            lemma_copies_kept_beside_state(swapped_pages, swapped, flash.pages(), stored, map);
        }
        if swapped_powered {
            assert forall|page: int| 0 <= page < map.program_pages() implies {
                &&& flash.pages()[map.slot_a_page() + page] == original_b(
                    old(flash).pages(),
                    old(state)@,
                    map,
                    page,
                )
                &&& flash.pages()[map.slot_b_page() + page] == original_a(
                    old(flash).pages(),
                    old(state)@,
                    map,
                    page,
                )
            } by {
                assert(map.is_slot_a_page(map.slot_a_page() + page));
                assert(map.is_slot_b_page(map.slot_b_page() + page));
                assert(flash.pages()[map.slot_a_page() + page] == swapped_pages[map.slot_a_page()
                    + page]);
                assert(flash.pages()[map.slot_b_page() + page] == swapped_pages[map.slot_b_page()
                    + page]);
            }
        }
    }
}

/// Setting the goal of a record that is in order leaves it in order, with
/// every page in the state that it had.
proof fn lemma_order_of_goal(record: Seq<u32>, goal: BootloaderGoal, map: &RegionMap)
    requires
        map.wf(),
        swap_in_order(record, map),
    ensures
        swap_in_order(with_goal(record, goal), map),
        forall|count: int|
            0 <= count <= map.program_pages() && swapped_up_to(record, count) ==> swapped_up_to(
                with_goal(record, goal),
                count,
            ),
{
    map.lemma_pages();
    lemma_with_goal(record, goal);
    let changed = with_goal(record, goal);
    assert forall|page: int| 0 <= page < map.program_pages() implies page_state_fits(
        #[trigger] page_state_of(changed, page),
        map,
    ) by {
        assert(page_state_fits(page_state_of(record, page), map));
    }
    assert forall|first: int, second: int|
        #![trigger page_state_of(changed, first), page_state_of(changed, second)]
        0 <= first < second < map.program_pages() implies page_state_of(changed, first) == Some(
        PageState::Swapped,
    ) || page_state_of(changed, second) == Some(PageState::Original) by {
        assert(page_state_of(record, first) == Some(PageState::Swapped) || page_state_of(
            record,
            second,
        ) == Some(PageState::Original));
    }
    assert forall|count: int|
        0 <= count <= map.program_pages() && swapped_up_to(record, count) implies swapped_up_to(
        with_goal(record, goal),
        count,
    ) by {
        assert forall|page: int| 0 <= page < count implies #[trigger] page_state_of(
            changed,
            page,
        ) == Some(PageState::Swapped) by {
            assert(page_state_of(record, page) == Some(PageState::Swapped));
        }
    }
}


/// The copies in the scratch pages are kept where nothing but the state
/// pages and the first quarter of the record changes.
pub proof fn lemma_copies_kept_beside_state(
    before: Seq<Seq<u32>>,
    record: Seq<u32>,
    after: Seq<Seq<u32>>,
    record_after: Seq<u32>,
    map: &RegionMap,
)
    requires
        map.wf(),
        flash_wf(before),
        same_but_state(before, after, map),
        swap_in_order(record, map),
        record_after.len() == STATE_WORDS,
        forall|i: int| CACHED_PAGES_START <= i < STATE_WORDS ==> record_after[i] == record[i],
        copies_kept(before, record, map),
    ensures
        copies_kept(after, record_after, map),
{
    map.lemma_pages();
    lemma_state_pages_keep_images(before, after, record, map);
    assert forall|page: int| 0 <= page < map.program_pages() implies {
        &&& page_state_of(record_after, page) == page_state_of(record, page)
        &&& #[trigger] scratch_use(record_after, map, page) == scratch_use(record, map, page)
    } by {}
    assert forall|page: int|
        0 <= page < map.program_pages() && #[trigger] keeps_copy(
            record_after,
            map,
            page,
        ) implies after[scratch_use(record_after, map, page)] == original_a(
        after,
        record_after,
        map,
        page,
    ) by {
        assert(keeps_copy(record, map, page)) by {
            assert forall|later: int|
                page < later < map.program_pages() implies #[trigger] scratch_use(
                record,
                map,
                later,
            ) != scratch_use(record, map, page) by {
                assert(scratch_use(record_after, map, later) != scratch_use(
                    record_after,
                    map,
                    page,
                ));
            }
        }
        assert(page_state_fits(page_state_of(record, page), map));
        assert(map.is_slot_a_page(map.slot_a_page() + page));
        assert(map.is_slot_b_page(map.slot_b_page() + page));
        assert(original_a(after, record, map, page) == original_a(before, record, map, page));
    }
}


} // verus!
