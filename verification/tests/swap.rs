use dis_bootloader::boot::{boot, BootOutcome};
use dis_bootloader::flash::Flash;
use dis_bootloader::flash_addresses::RegionMap;
use dis_bootloader::mem_flash::MemFlash;
use dis_bootloader::state::{BootloaderGoal, BootloaderState, PageState, VALID_WORD};
use dis_bootloader::swap::{advance_page, check_swap_order, perform_swap, swap_pages};

const SCRATCH: u32 = 0x0000;
const STATE: u32 = 0x2000;
const SLOT_A: u32 = 0x1_0000;
const SLOT_B: u32 = 0x2_0000;
const PAGE: u32 = 0x1000;

const A0: u32 = 0x0A0A_0A0A;
const A1: u32 = 0x0B0B_0B0B;
const B0: u32 = 0xB0B0_B0B0;
const B1: u32 = 0xB1B1_B1B1;

/// Two program pages, two scratch pages; the scratch pages are the pages 0 and 1 of the flash.
fn layout() -> RegionMap {
    RegionMap::new(
        0x4000..0x1_0000,
        SCRATCH..SCRATCH + 2 * PAGE,
        STATE..STATE + 2 * PAGE,
        SLOT_A..SLOT_A + 2 * PAGE,
        SLOT_B..SLOT_B + 2 * PAGE,
    )
    .unwrap()
}

fn fill(flash: &mut MemFlash, address: u32, word: u32) {
    flash.fill_page(address, &[word; 1024]);
}

fn holds(flash: &MemFlash, address: u32, word: u32) -> bool {
    flash.read(address).iter().all(|held| *held == word)
}

fn request(flash: &mut MemFlash, goal: BootloaderGoal) {
    let map = layout();
    let mut state = BootloaderState::load(flash, &map);
    state.set_goal(goal);
    state.set_valid(true);
    state.store(flash, &map);
}

/// Slot A holds [A0, A1], slot B holds [B0, B1], and the record asks for `goal`.
fn flash_with(goal: BootloaderGoal) -> MemFlash {
    let mut flash = MemFlash::new();
    fill(&mut flash, SLOT_A, A0);
    fill(&mut flash, SLOT_A + PAGE, A1);
    fill(&mut flash, SLOT_B, B0);
    fill(&mut flash, SLOT_B + PAGE, B1);
    request(&mut flash, goal);
    flash
}

fn assert_original(flash: &MemFlash) {
    assert!(holds(flash, SLOT_A, A0));
    assert!(holds(flash, SLOT_A + PAGE, A1));
    assert!(holds(flash, SLOT_B, B0));
    assert!(holds(flash, SLOT_B + PAGE, B1));
}

fn assert_swapped(flash: &MemFlash) {
    assert!(holds(flash, SLOT_A, B0));
    assert!(holds(flash, SLOT_A + PAGE, B1));
    assert!(holds(flash, SLOT_B, A0));
    assert!(holds(flash, SLOT_B + PAGE, A1));
}

#[test]
fn no_op_boot() {
    let map = layout();
    let mut flash = MemFlash::new();
    fill(&mut flash, SLOT_A, A0);
    fill(&mut flash, SLOT_A + PAGE, A1);
    fill(&mut flash, SLOT_B, B0);
    fill(&mut flash, SLOT_B + PAGE, B1);
    assert!(!BootloaderState::load(&flash, &map).is_valid());
    assert_eq!(boot(&mut flash, &map), BootOutcome::StateInvalid);
    assert_original(&flash);
    assert!(holds(&flash, SCRATCH, 0xFFFF_FFFF));
    assert!(holds(&flash, SCRATCH + PAGE, 0xFFFF_FFFF));
    assert!(holds(&flash, STATE, 0xFFFF_FFFF));
    assert!(holds(&flash, STATE + PAGE, 0xFFFF_FFFF));
}

#[test]
fn full_swap() {
    let map = layout();
    let mut flash = flash_with(BootloaderGoal::StartSwap);
    let mut state = BootloaderState::load(&flash, &map);
    assert!(state.is_valid());
    assert_eq!(state.goal(), BootloaderGoal::StartSwap);
    state.prepare_swap(false, &mut flash, &map);
    perform_swap(false, &mut state, &mut flash, &map);
    assert_swapped(&flash);
    assert_eq!(state.goal(), BootloaderGoal::JumpToApplication);
    assert!(state.is_valid());
    let stored = BootloaderState::load(&flash, &map);
    assert_eq!(stored.goal(), BootloaderGoal::JumpToApplication);
    assert!(stored.is_valid());
}

#[test]
fn full_swap_by_boot() {
    let map = layout();
    let mut flash = flash_with(BootloaderGoal::StartSwap);
    assert_eq!(boot(&mut flash, &map), BootOutcome::Swapped { test_swap: false });
    assert_swapped(&flash);
    let state = BootloaderState::load(&flash, &map);
    assert_eq!(state.goal(), BootloaderGoal::JumpToApplication);
    assert!(state.is_valid());
    assert_eq!(state.get_page_state(0), PageState::Swapped);
    assert_eq!(state.get_page_state(1), PageState::Swapped);
    assert_eq!(boot(&mut flash, &map), BootOutcome::NoSwap);
    assert_swapped(&flash);
}

#[test]
fn full_swap_leaves_the_record_on_both_state_pages() {
    let map = layout();
    let mut flash = flash_with(BootloaderGoal::StartSwap);
    boot(&mut flash, &map);
    let primary = flash.read(STATE);
    let backup = flash.read(STATE + PAGE);
    assert_eq!(primary, backup);
    assert_eq!(primary[0], 0xD000_A3E2);
    assert_eq!(primary[1], 0);
    assert_eq!((primary[256], primary[512], primary[768]), (0, VALID_WORD, VALID_WORD));
    assert_eq!((primary[257], primary[513], primary[769]), (1, VALID_WORD, VALID_WORD));
    assert_eq!((primary[258], primary[514], primary[770]), (0xFFFF_FFFF, 0xFFFF_FFFF, 0xFFFF_FFFF));
}

#[test]
fn full_swap_leaves_the_copies_in_the_scratch_pages() {
    let map = layout();
    let mut flash = flash_with(BootloaderGoal::StartSwap);
    boot(&mut flash, &map);
    assert!(holds(&flash, SCRATCH, A0));
    assert!(holds(&flash, SCRATCH + PAGE, A1));
}

/// The number of writes of a swap up to the erase of slot B's page 1: six for the record that
/// is made ready, three steps for page 0 and two for page 1, each an erase, 1024 words and
/// one word on either state page, and the erase itself.
const WRITES_TO_ERASE_OF_B1: u64 = 6 + 5 * 1027 + 1;

#[test]
fn resume_after_crash_in_the_middle_of_page_1() {
    let map = layout();
    let mut flash = flash_with(BootloaderGoal::StartSwap);
    flash.cut_power_after(WRITES_TO_ERASE_OF_B1);
    boot(&mut flash, &map);
    assert!(!flash.is_powered());

    flash.restore_power();
    assert!(holds(&flash, SLOT_B + PAGE, 0xFFFF_FFFF));
    assert!(holds(&flash, SLOT_A + PAGE, B1));
    assert!(holds(&flash, SCRATCH + PAGE, A1));
    let state = BootloaderState::load(&flash, &map);
    assert!(state.is_valid());
    assert_eq!(state.goal(), BootloaderGoal::FinishSwap);
    assert_eq!(state.get_page_state(0), PageState::Swapped);
    assert_eq!(state.get_page_state(1), PageState::InScratchOverwritten { scratch_page: 1 });

    assert_eq!(boot(&mut flash, &map), BootOutcome::Swapped { test_swap: false });
    assert!(flash.is_powered());
    assert_swapped(&flash);
    let state = BootloaderState::load(&flash, &map);
    assert_eq!(state.goal(), BootloaderGoal::JumpToApplication);
    assert!(state.is_valid());

    let mut whole = flash_with(BootloaderGoal::StartSwap);
    boot(&mut whole, &map);
    for page in 0..256u32 {
        assert_eq!(flash.read(page * PAGE), whole.read(page * PAGE));
    }
}

#[test]
fn test_swap_auto_revert() {
    let map = layout();
    let mut flash = flash_with(BootloaderGoal::StartTestSwap);
    assert_eq!(boot(&mut flash, &map), BootOutcome::Swapped { test_swap: true });
    assert_swapped(&flash);
    let state = BootloaderState::load(&flash, &map);
    assert!(state.is_valid());
    assert_eq!(state.goal(), BootloaderGoal::StartSwap);

    assert_eq!(boot(&mut flash, &map), BootOutcome::Swapped { test_swap: false });
    assert_original(&flash);
    let state = BootloaderState::load(&flash, &map);
    assert!(state.is_valid());
    assert_eq!(state.goal(), BootloaderGoal::JumpToApplication);
}

#[test]
fn test_swap_confirmed() {
    let map = layout();
    let mut flash = flash_with(BootloaderGoal::StartTestSwap);
    assert_eq!(boot(&mut flash, &map), BootOutcome::Swapped { test_swap: true });

    let mut state = BootloaderState::load(&flash, &map);
    state.set_goal(BootloaderGoal::JumpToApplication);
    assert!(state.is_valid());
    state.store(&mut flash, &map);

    assert_eq!(boot(&mut flash, &map), BootOutcome::NoSwap);
    assert_swapped(&flash);
}

#[test]
fn corrupt_primary_mirror() {
    let map = layout();
    let mut flash = flash_with(BootloaderGoal::StartSwap);
    boot(&mut flash, &map);
    let mut garbage = [0u32; 1024];
    for (index, word) in garbage.iter_mut().enumerate() {
        *word = 0x9E37_79B9u32.wrapping_mul(index as u32 + 1);
    }
    flash.fill_page(STATE, &garbage);
    let backup = flash.read(STATE + PAGE);

    let state = BootloaderState::load(&flash, &map);
    assert!(state.is_valid());
    assert_eq!(state.goal(), BootloaderGoal::JumpToApplication);
    for index in 0..1024 {
        assert_eq!(state.word(index), backup[index]);
    }
    assert_eq!(boot(&mut flash, &map), BootOutcome::NoSwap);
    assert_swapped(&flash);
    assert_eq!(flash.read(STATE), garbage);
    assert_eq!(flash.read(STATE + PAGE), backup);
}

#[test]
fn unknown_goal_swaps_nothing() {
    let map = layout();
    let mut flash = flash_with(BootloaderGoal::StartSwap);
    let mut record = flash.read(STATE);
    record[1] = 5;
    record[0] = 0x203D_DC76;
    flash.fill_page(STATE, &record);
    let state = BootloaderState::load(&flash, &map);
    assert!(state.is_valid());
    assert_eq!(state.word(1), 5);
    assert_eq!(boot(&mut flash, &map), BootOutcome::UnknownGoal);
    assert_original(&flash);
}

#[test]
fn finish_with_a_triple_that_is_no_state_swaps_nothing() {
    let map = layout();
    let mut flash = flash_with(BootloaderGoal::FinishSwap);
    let mut record = flash.read(STATE);
    record[768 + 1] = 0x1234_5678;
    flash.fill_page(STATE, &record);
    let before = flash.read(STATE);
    assert_eq!(boot(&mut flash, &map), BootOutcome::SwapNotResumable);
    assert_original(&flash);
    assert_eq!(flash.read(STATE), before);
}

#[test]
fn finish_with_a_scratch_page_outside_of_the_scratch_region_swaps_nothing() {
    let map = layout();
    let mut flash = flash_with(BootloaderGoal::FinishSwap);
    let mut state = BootloaderState::load(&flash, &map);
    state.set_page_state(0, PageState::InScratch { scratch_page: 0x10 });
    state.store(&mut flash, &map);
    assert!(!check_swap_order(&state, &map));
    assert_eq!(boot(&mut flash, &map), BootOutcome::SwapNotResumable);
    assert_original(&flash);
}

#[test]
fn finish_with_pages_out_of_order_swaps_nothing() {
    let map = layout();
    let mut flash = flash_with(BootloaderGoal::FinishSwap);
    let mut state = BootloaderState::load(&flash, &map);
    state.set_page_state(1, PageState::Swapped);
    state.store(&mut flash, &map);
    assert!(!check_swap_order(&state, &map));
    assert_eq!(boot(&mut flash, &map), BootOutcome::SwapNotResumable);
    assert_original(&flash);
}

#[test]
fn finish_from_the_backup_with_pages_left_swaps_nothing() {
    let map = layout();
    let mut flash = flash_with(BootloaderGoal::FinishSwap);
    fill(&mut flash, STATE, 0x1234_5678);
    let state = BootloaderState::load(&flash, &map);
    assert!(state.is_valid());
    assert!(check_swap_order(&state, &map));
    assert_eq!(boot(&mut flash, &map), BootOutcome::SwapNotResumable);
    assert_original(&flash);
}

#[test]
fn finish_from_the_backup_with_all_pages_swapped_sets_the_goal() {
    let map = layout();
    let mut flash = flash_with(BootloaderGoal::FinishTestSwap);
    let mut state = BootloaderState::load(&flash, &map);
    state.set_page_state(0, PageState::Swapped);
    state.set_page_state(1, PageState::Swapped);
    state.store(&mut flash, &map);
    fill(&mut flash, STATE, 0x1234_5678);
    assert_eq!(boot(&mut flash, &map), BootOutcome::Swapped { test_swap: true });
    assert_original(&flash);
    let state = BootloaderState::load(&flash, &map);
    assert!(state.is_valid());
    assert_eq!(state.goal(), BootloaderGoal::StartSwap);
    assert_eq!(flash.read(STATE), flash.read(STATE + PAGE));
}

#[test]
fn records_in_order() {
    let map = layout();
    let flash = flash_with(BootloaderGoal::FinishSwap);
    let mut state = BootloaderState::load(&flash, &map);
    assert!(check_swap_order(&state, &map));
    state.set_page_state(0, PageState::InScratch { scratch_page: 1 });
    assert!(check_swap_order(&state, &map));
    state.set_page_state(0, PageState::InScratchOverwritten { scratch_page: 0 });
    assert!(check_swap_order(&state, &map));
    state.set_page_state(1, PageState::InScratch { scratch_page: 1 });
    assert!(!check_swap_order(&state, &map));
    state.set_page_state(0, PageState::Swapped);
    assert!(check_swap_order(&state, &map));
    state.set_page_state(1, PageState::InScratch { scratch_page: 2 });
    assert!(!check_swap_order(&state, &map));
    state.set_page_state(1, PageState::Swapped);
    assert!(check_swap_order(&state, &map));
    state.set_page_state(2, PageState::InScratch { scratch_page: 77 });
    assert!(check_swap_order(&state, &map));
}

#[test]
fn each_step_advances_the_page_by_one_state() {
    let map = layout();
    let mut flash = flash_with(BootloaderGoal::FinishSwap);
    let mut state = BootloaderState::load(&flash, &map);
    assert_eq!(state.get_page_state(0), PageState::Original);

    advance_page(&mut state, &mut flash, &map, 0, 1);
    assert_eq!(state.get_page_state(0), PageState::InScratch { scratch_page: 1 });
    assert!(holds(&flash, SCRATCH + PAGE, A0));
    assert!(holds(&flash, SLOT_A, A0));
    assert!(holds(&flash, SLOT_B, B0));

    advance_page(&mut state, &mut flash, &map, 0, 0);
    assert_eq!(state.get_page_state(0), PageState::InScratchOverwritten { scratch_page: 1 });
    assert!(holds(&flash, SCRATCH + PAGE, A0));
    assert!(holds(&flash, SLOT_A, B0));
    assert!(holds(&flash, SLOT_B, B0));

    advance_page(&mut state, &mut flash, &map, 0, 0);
    assert_eq!(state.get_page_state(0), PageState::Swapped);
    assert!(holds(&flash, SCRATCH + PAGE, A0));
    assert!(holds(&flash, SLOT_A, B0));
    assert!(holds(&flash, SLOT_B, A0));

    assert_eq!(state.get_page_state(1), PageState::Original);
    assert!(holds(&flash, SLOT_A + PAGE, A1));
    assert!(holds(&flash, SLOT_B + PAGE, B1));
    assert!(holds(&flash, SCRATCH, 0xFFFF_FFFF));
    let stored = BootloaderState::load(&flash, &map);
    assert_eq!(stored.get_page_state(0), PageState::Swapped);
    assert_eq!(flash.read(STATE), flash.read(STATE + PAGE));
}

#[test]
fn each_step_only_clears_bits_of_the_state_pages() {
    let map = layout();
    let mut flash = flash_with(BootloaderGoal::FinishSwap);
    let mut state = BootloaderState::load(&flash, &map);
    for page in 0..2u32 {
        for _ in 0..3 {
            let before = flash.read(STATE);
            let before_backup = flash.read(STATE + PAGE);
            advance_page(&mut state, &mut flash, &map, page, page);
            let after = flash.read(STATE);
            let after_backup = flash.read(STATE + PAGE);
            let mut changed = 0;
            for index in 0..1024 {
                assert_eq!(after[index] & before[index], after[index]);
                assert_eq!(after_backup[index] & before_backup[index], after_backup[index]);
                assert_eq!(after[index], state.word(index));
                if after[index] != before[index] {
                    changed += 1;
                }
            }
            assert_eq!(changed, 1);
        }
        assert_eq!(state.get_page_state(page), PageState::Swapped);
    }
}

#[test]
fn swap_pages_leaves_the_goal() {
    let map = layout();
    let mut flash = flash_with(BootloaderGoal::FinishTestSwap);
    let mut state = BootloaderState::load(&flash, &map);
    swap_pages(&mut state, &mut flash, &map);
    assert_swapped(&flash);
    assert_eq!(state.goal(), BootloaderGoal::FinishTestSwap);
    assert!(state.is_valid());
    assert_eq!(state.get_page_state(0), PageState::Swapped);
    assert_eq!(state.get_page_state(1), PageState::Swapped);
    assert_eq!(state.get_page_state(2), PageState::Original);
    let stored = BootloaderState::load(&flash, &map);
    assert_eq!(stored.goal(), BootloaderGoal::FinishTestSwap);
    assert_eq!(stored.get_page_state(1), PageState::Swapped);
}

#[test]
fn swap_takes_the_scratch_page_from_the_record() {
    let map = layout();
    let mut flash = flash_with(BootloaderGoal::FinishSwap);
    fill(&mut flash, SCRATCH + PAGE, A0);
    fill(&mut flash, SLOT_A, 0x5555_5555);
    let mut state = BootloaderState::load(&flash, &map);
    state.set_page_state(0, PageState::InScratch { scratch_page: 1 });
    state.burn_store(&mut flash, &map);
    assert_eq!(boot(&mut flash, &map), BootOutcome::Swapped { test_swap: false });
    assert_swapped(&flash);
}

#[test]
fn swap_without_power_changes_nothing() {
    let map = layout();
    let mut flash = flash_with(BootloaderGoal::StartSwap);
    flash.cut_power_after(0);
    assert_eq!(boot(&mut flash, &map), BootOutcome::Swapped { test_swap: false });
    assert!(!flash.is_powered());
    assert_original(&flash);
    flash.restore_power();
    let state = BootloaderState::load(&flash, &map);
    assert_eq!(state.goal(), BootloaderGoal::StartSwap);
}

fn reset(flash: &mut MemFlash, record: &[u32; 1024]) {
    fill(flash, SCRATCH, 0xFFFF_FFFF);
    fill(flash, SCRATCH + PAGE, 0xFFFF_FFFF);
    flash.fill_page(STATE, record);
    flash.fill_page(STATE + PAGE, record);
    fill(flash, SLOT_A, A0);
    fill(flash, SLOT_A + PAGE, A1);
    fill(flash, SLOT_B, B0);
    fill(flash, SLOT_B + PAGE, B1);
}

/// Loses power after each number of writes from `first` up to `last`, boots again, and holds
/// the flash against the one that a swap without a loss of power leaves.
fn crash_and_resume(goal: BootloaderGoal, first: u64, last: u64) {
    let map = layout();
    let mut flash = flash_with(goal);
    let record = flash.read(STATE);
    let mut whole = flash_with(goal);
    boot(&mut whole, &map);
    for writes in first..last {
        reset(&mut flash, &record);
        flash.restore_power();
        flash.cut_power_after(writes);
        boot(&mut flash, &map);
        flash.restore_power();
        boot(&mut flash, &map);
        for page in [SLOT_A, SLOT_A + PAGE, SLOT_B, SLOT_B + PAGE, SCRATCH, SCRATCH + PAGE] {
            assert_eq!(flash.read(page), whole.read(page), "after {} writes", writes);
        }
        let state = BootloaderState::load(&flash, &map);
        assert!(state.is_valid(), "after {} writes", writes);
        assert_eq!(state.stored_goal(), whole_goal(&whole), "after {} writes", writes);
    }
}

fn whole_goal(whole: &MemFlash) -> Option<BootloaderGoal> {
    BootloaderState::load(whole, &layout()).stored_goal()
}

#[test]
fn crash_while_the_record_is_made_ready() {
    crash_and_resume(BootloaderGoal::StartSwap, 0, 8);
}

#[test]
fn crash_at_any_write_of_page_0() {
    crash_and_resume(BootloaderGoal::StartSwap, 6, 6 + 3 * 1027 + 1);
}

#[test]
fn crash_at_any_write_of_page_1() {
    crash_and_resume(BootloaderGoal::StartSwap, 6 + 3 * 1027, 6 + 6 * 1027 + 1);
}

#[test]
fn crash_while_the_goal_is_stored() {
    crash_and_resume(BootloaderGoal::StartSwap, 6 + 6 * 1027, 6 + 6 * 1027 + 24);
}

#[test]
fn crash_at_any_write_of_a_swap_that_is_taken_up() {
    crash_and_resume(BootloaderGoal::FinishSwap, 0, 6 * 1027 + 24);
}

#[test]
fn crash_at_some_writes_of_a_test_swap() {
    let map = layout();
    let cuts = [
        0u64, 1, 2, 3, 5, 6, 7, 1000, 1031, 1032, 1033, 1034, 2059, 2060, 2061, 3500, 5142, 6167,
        6168, 6170, 6175, 6180,
    ];
    for writes in cuts {
        let mut flash = flash_with(BootloaderGoal::StartTestSwap);
        flash.cut_power_after(writes);
        boot(&mut flash, &map);
        flash.restore_power();
        boot(&mut flash, &map);
        let state = BootloaderState::load(&flash, &map);
        assert!(state.is_valid());
        if state.goal() == BootloaderGoal::StartSwap {
            assert_swapped(&flash);
        } else {
            assert_eq!(state.goal(), BootloaderGoal::JumpToApplication);
            assert_original(&flash);
        }
    }
}

/// Five program pages and two scratch pages that start at page 0x0D of the flash.
fn long_layout() -> RegionMap {
    RegionMap::new(
        0x0000..0x0_D000,
        0x0_D000..0x0_F000,
        0x0_F000..0x1_1000,
        0x4_0000..0x4_5000,
        0x8_0000..0x8_5000,
    )
    .unwrap()
}

fn long_flash(goal: BootloaderGoal) -> MemFlash {
    let map = long_layout();
    let mut flash = MemFlash::new();
    for page in 0..5u32 {
        fill(&mut flash, 0x4_0000 + page * PAGE, 0xA000_0000 + page);
        fill(&mut flash, 0x8_0000 + page * PAGE, 0xB000_0000 + page);
    }
    let mut state = BootloaderState::load(&flash, &map);
    state.set_goal(goal);
    state.set_valid(true);
    state.store(&mut flash, &map);
    flash
}

#[test]
fn scratch_pages_are_taken_in_turn() {
    let map = long_layout();
    let mut flash = long_flash(BootloaderGoal::StartSwap);
    assert_eq!(boot(&mut flash, &map), BootOutcome::Swapped { test_swap: false });
    for page in 0..5u32 {
        assert!(holds(&flash, 0x4_0000 + page * PAGE, 0xB000_0000 + page));
        assert!(holds(&flash, 0x8_0000 + page * PAGE, 0xA000_0000 + page));
    }
    let record = flash.read(0x0_F000);
    for page in 0..5usize {
        assert_eq!(record[256 + page], 0x0D + (page as u32 % 2));
        assert_eq!(record[512 + page], VALID_WORD);
        assert_eq!(record[768 + page], VALID_WORD);
    }
    assert_eq!(record[256 + 5], 0xFFFF_FFFF);
    assert_eq!(record[768 + 5], 0xFFFF_FFFF);
    assert!(holds(&flash, 0x0_D000, 0xA000_0004));
    assert!(holds(&flash, 0x0_E000, 0xA000_0003));
    assert!(holds(&flash, 0x0_C000, 0xFFFF_FFFF));
    assert!(holds(&flash, 0x1_1000, 0xFFFF_FFFF));
}

#[test]
fn crash_at_some_writes_of_a_swap_of_five_pages() {
    let map = long_layout();
    let mut whole = long_flash(BootloaderGoal::StartSwap);
    boot(&mut whole, &map);
    let mut writes = 0u64;
    while writes < 6 + 15 * 1027 + 40 {
        let mut flash = long_flash(BootloaderGoal::StartSwap);
        flash.cut_power_after(writes);
        boot(&mut flash, &map);
        flash.restore_power();
        boot(&mut flash, &map);
        for page in 0..5u32 {
            assert!(holds(&flash, 0x4_0000 + page * PAGE, 0xB000_0000 + page), "{}", writes);
            assert!(holds(&flash, 0x8_0000 + page * PAGE, 0xA000_0000 + page), "{}", writes);
        }
        assert_eq!(flash.read(0x0_D000), whole.read(0x0_D000), "{}", writes);
        assert_eq!(flash.read(0x0_E000), whole.read(0x0_E000), "{}", writes);
        let state = BootloaderState::load(&flash, &map);
        assert!(state.is_valid());
        assert_eq!(state.goal(), BootloaderGoal::JumpToApplication);
        writes += 97;
    }
}

#[test]
fn two_losses_of_power_in_a_row() {
    let map = layout();
    let mut flash = flash_with(BootloaderGoal::StartSwap);
    flash.cut_power_after(6 + 1027 + 500);
    boot(&mut flash, &map);
    assert!(!flash.is_powered());
    flash.restore_power();
    flash.cut_power_after(700);
    boot(&mut flash, &map);
    assert!(!flash.is_powered());
    flash.restore_power();
    assert_eq!(boot(&mut flash, &map), BootOutcome::Swapped { test_swap: false });
    assert_swapped(&flash);
    assert_eq!(BootloaderState::load(&flash, &map).goal(), BootloaderGoal::JumpToApplication);
}

#[test]
fn loss_of_power_in_a_store_leaves_one_state_page_whole() {
    let map = layout();
    let asked = flash_with(BootloaderGoal::StartSwap).read(STATE);

    let mut ready = flash_with(BootloaderGoal::StartSwap);
    ready.cut_power_after(6);
    boot(&mut ready, &map);
    let ready = ready.read(STATE);
    assert_eq!(ready[1], 2);

    let mut swapped = flash_with(BootloaderGoal::StartSwap);
    swapped.cut_power_after(6 + 6 * 1027);
    boot(&mut swapped, &map);
    let swapped = swapped.read(STATE + PAGE);
    assert_eq!(swapped[1], 2);
    assert_eq!((swapped[768], swapped[769]), (VALID_WORD, VALID_WORD));

    let mut whole = flash_with(BootloaderGoal::StartSwap);
    boot(&mut whole, &map);
    let stored = whole.read(STATE);
    assert_eq!(stored[1], 0);

    for writes in 0..6u64 {
        let mut flash = flash_with(BootloaderGoal::StartSwap);
        flash.cut_power_after(writes);
        boot(&mut flash, &map);
        assert!(flash.read(STATE) == ready || flash.read(STATE + PAGE) == asked, "{}", writes);
        assert_original(&flash);
    }
    for writes in 6 + 6 * 1027..6 + 6 * 1027 + 20u64 {
        let mut flash = flash_with(BootloaderGoal::StartSwap);
        flash.cut_power_after(writes);
        boot(&mut flash, &map);
        assert!(flash.read(STATE) == stored || flash.read(STATE + PAGE) == swapped, "{}", writes);
        assert_swapped(&flash);
    }
}

#[test]
fn backup_follows_the_primary_state_page_step_by_step() {
    let map = layout();
    let mut flash = flash_with(BootloaderGoal::FinishSwap);
    let mut state = BootloaderState::load(&flash, &map);
    for page in 0..2u32 {
        for _ in 0..3 {
            advance_page(&mut state, &mut flash, &map, page, page);
            assert_eq!(flash.read(STATE), flash.read(STATE + PAGE));
            assert_eq!(flash.read(STATE + PAGE)[256 + page as usize], page);
        }
    }
}

#[test]
fn swap_takes_as_many_writes_as_its_steps_ask_for() {
    let map = layout();
    // Six writes for the record that is made ready, 1027 for each of the six steps, and for
    // each state page an erase and the eight words of the last record that are not erased.
    let writes = 6 + 6 * 1027 + 18;
    let mut flash = flash_with(BootloaderGoal::StartSwap);
    flash.cut_power_after(writes);
    boot(&mut flash, &map);
    assert!(flash.is_powered());
    flash.erase_page(SCRATCH);
    assert!(!flash.is_powered());

    let mut flash = flash_with(BootloaderGoal::StartSwap);
    flash.cut_power_after(writes - 1);
    boot(&mut flash, &map);
    assert!(!flash.is_powered());

    let mut flash = flash_with(BootloaderGoal::JumpToApplication);
    flash.cut_power_after(0);
    assert_eq!(boot(&mut flash, &map), BootOutcome::NoSwap);
    assert!(flash.is_powered());
    let mut flash = MemFlash::new();
    flash.cut_power_after(0);
    assert_eq!(boot(&mut flash, &map), BootOutcome::StateInvalid);
    assert!(flash.is_powered());
}
