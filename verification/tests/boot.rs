use dis_bootloader::boot::{boot, count_panics, find_application, BootOutcome, PanicTally};
use dis_bootloader::flash_addresses::{
    bootloader_flash_page_range, bootloader_flash_range, bootloader_scratch_page_range,
    bootloader_scratch_range, bootloader_state_page_range, bootloader_state_range,
    program_slot_a_page_range, program_slot_a_range, program_slot_b_page_range,
    program_slot_b_range, RegionMap, PAGE_SIZE,
};
use dis_bootloader::mem_flash::MemFlash;
use dis_bootloader::reset_reason::{ResetFlags, ResetReason};
use dis_bootloader::state::{BootloaderGoal, BootloaderState};

const SLOT_A: u32 = 0x5_0000;

fn layout() -> RegionMap {
    RegionMap::new(
        0x0000..0x2_0000,
        0x2_0000..0x2_4000,
        0x2_4000..0x2_6000,
        SLOT_A..SLOT_A + 0x3000,
        0x9_0000..0x9_3000,
    )
    .unwrap()
}

fn slot_a(words: &[u32]) -> MemFlash {
    let mut flash = MemFlash::new();
    flash.fill_page(SLOT_A, words);
    flash
}

#[test]
fn address_ranges() {
    let map = layout();
    assert_eq!(bootloader_flash_range(&map), 0x0000..0x2_0000);
    assert_eq!(bootloader_scratch_range(&map), 0x2_0000..0x2_4000);
    assert_eq!(bootloader_state_range(&map), 0x2_4000..0x2_6000);
    assert_eq!(program_slot_a_range(&map), 0x5_0000..0x5_3000);
    assert_eq!(program_slot_b_range(&map), 0x9_0000..0x9_3000);
}

#[test]
fn page_ranges() {
    let map = layout();
    assert_eq!(PAGE_SIZE, 4096);
    assert_eq!(bootloader_flash_page_range(&map), 0..0x20);
    assert_eq!(bootloader_scratch_page_range(&map), 0x20..0x24);
    assert_eq!(bootloader_state_page_range(&map), 0x24..0x26);
    assert_eq!(program_slot_a_page_range(&map), 0x50..0x53);
    assert_eq!(program_slot_b_page_range(&map), 0x90..0x93);
}

#[test]
fn region_map_keeps_the_ranges() {
    let map = layout();
    assert_eq!(map.bootloader_flash_start, 0);
    assert_eq!(map.bootloader_flash_end, 0x2_0000);
    assert_eq!(map.bootloader_scratch_start, 0x2_0000);
    assert_eq!(map.bootloader_scratch_end, 0x2_4000);
    assert_eq!(map.bootloader_state_start, 0x2_4000);
    assert_eq!(map.bootloader_state_end, 0x2_6000);
    assert_eq!(map.program_slot_a_start, 0x5_0000);
    assert_eq!(map.program_slot_a_end, 0x5_3000);
    assert_eq!(map.program_slot_b_start, 0x9_0000);
    assert_eq!(map.program_slot_b_end, 0x9_3000);
}

#[test]
fn region_map_with_slots_of_no_page() {
    assert!(RegionMap::new(
        0..0x1000,
        0x1000..0x2000,
        0x2000..0x4000,
        0x4000..0x4000,
        0x4000..0x4000
    )
    .is_some());
}

#[test]
fn region_map_up_to_the_end_of_flash() {
    assert!(RegionMap::new(
        0..0x1000,
        0x1000..0x2000,
        0x2000..0x4000,
        0x4000..0x8_2000,
        0x8_2000..0x10_0000
    )
    .is_some());
    assert!(RegionMap::new(
        0..0x1000,
        0x1000..0x2000,
        0x2000..0x4000,
        0x5000..0x8_3000,
        0x8_3000..0x10_1000
    )
    .is_none());
}

#[test]
fn region_map_wants_slots_of_one_size() {
    assert!(RegionMap::new(
        0..0x1000,
        0x1000..0x2000,
        0x2000..0x4000,
        0x4000..0x6000,
        0x6000..0x9000
    )
    .is_none());
}

#[test]
fn region_map_wants_a_scratch_page() {
    assert!(RegionMap::new(
        0..0x1000,
        0x1000..0x1000,
        0x2000..0x4000,
        0x4000..0x6000,
        0x6000..0x8000
    )
    .is_none());
}

#[test]
fn region_map_wants_two_state_pages() {
    assert!(RegionMap::new(
        0..0x1000,
        0x1000..0x2000,
        0x2000..0x3000,
        0x4000..0x6000,
        0x6000..0x8000
    )
    .is_none());
    assert!(RegionMap::new(
        0..0x1000,
        0x1000..0x2000,
        0x2000..0x5000,
        0x5000..0x6000,
        0x6000..0x7000
    )
    .is_none());
}

#[test]
fn region_map_wants_whole_pages() {
    assert!(RegionMap::new(
        0..0x1000,
        0x1000..0x2000,
        0x2000..0x4000,
        0x4004..0x6004,
        0x7000..0x9000
    )
    .is_none());
    assert!(RegionMap::new(
        0..0x0800,
        0x1000..0x2000,
        0x2000..0x4000,
        0x4000..0x6000,
        0x7000..0x9000
    )
    .is_none());
}

#[test]
fn region_map_wants_regions_apart() {
    assert!(RegionMap::new(
        0..0x1000,
        0x1000..0x3000,
        0x2000..0x4000,
        0x4000..0x6000,
        0x6000..0x8000
    )
    .is_none());
    assert!(RegionMap::new(
        0..0x1000,
        0x1000..0x2000,
        0x2000..0x4000,
        0x4000..0x6000,
        0x5000..0x7000
    )
    .is_none());
    assert!(RegionMap::new(
        0..0x5000,
        0x1000..0x2000,
        0x2000..0x4000,
        0x6000..0x8000,
        0x8000..0xA000
    )
    .is_none());
}

#[test]
fn region_map_wants_ranges_that_do_not_run_backwards() {
    assert!(RegionMap::new(
        0x2000..0x1000,
        0x3000..0x4000,
        0x4000..0x6000,
        0x6000..0x8000,
        0x8000..0xA000
    )
    .is_none());
}

#[test]
fn erased_slot_holds_no_application() {
    assert_eq!(find_application(&MemFlash::new(), &layout()), None);
}

#[test]
fn padded_slot_holds_no_application() {
    assert_eq!(find_application(&slot_a(&[0u32; 1024]), &layout()), None);
}

#[test]
fn application_at_the_start_of_the_slot() {
    let flash = slot_a(&[0x2000_4000, 0x0005_0101, 0x0005_0201]);
    assert_eq!(find_application(&flash, &layout()), Some(SLOT_A));
}

#[test]
fn application_behind_padding() {
    let mut words = [0u32; 1024];
    for word in words.iter_mut().skip(64) {
        *word = 0xFFFF_FFFF;
    }
    words[128] = 0x2003_FFFC;
    words[129] = 0x0005_0301;
    let flash = slot_a(&words);
    assert_eq!(find_application(&flash, &layout()), Some(SLOT_A + 0x200));
}

#[test]
fn application_on_a_later_page() {
    let mut flash = MemFlash::new();
    flash.fill_page(SLOT_A, &[0u32; 1024]);
    let mut words = [0xFFFF_FFFFu32; 1024];
    words[1023] = 0x2000_0000;
    flash.fill_page(SLOT_A + 0x1000, &words);
    flash.fill_page(SLOT_A + 0x2000, &[0, 0x0005_2FFF]);
    assert_eq!(find_application(&flash, &layout()), Some(SLOT_A + 0x1FFC));
}

#[test]
fn padding_between_stack_pointer_and_reset_vector_is_skipped() {
    let flash = slot_a(&[0x2000_4000, 0, 0xFFFF_FFFF, 0x0005_2000]);
    assert_eq!(find_application(&flash, &layout()), Some(SLOT_A));
}

#[test]
fn stack_pointer_with_only_padding_behind_it_is_no_table() {
    let flash = slot_a(&[0, 0x2000_4000]);
    assert_eq!(find_application(&flash, &layout()), None);
    let flash = slot_a(&[0x2000_4000, 0xFFFF_FFFF, 0]);
    assert_eq!(find_application(&flash, &layout()), None);
}

#[test]
fn stack_pointer_in_the_last_word_of_the_slot_is_no_table() {
    let mut flash = MemFlash::new();
    let mut words = [0xFFFF_FFFFu32; 1024];
    words[1023] = 0x2000_4000;
    flash.fill_page(SLOT_A + 0x2000, &words);
    flash.fill_page(SLOT_A + 0x3000, &[0x0005_0101]);
    assert_eq!(find_application(&flash, &layout()), None);
}

#[test]
fn reset_vector_in_the_last_word_of_the_slot_is_found() {
    let mut flash = MemFlash::new();
    let mut words = [0u32; 1024];
    words[1022] = 0x2000_4000;
    words[1023] = 0x0005_0101;
    flash.fill_page(SLOT_A + 0x2000, &words);
    assert_eq!(find_application(&flash, &layout()), Some(SLOT_A + 0x2FF8));
}

#[test]
fn first_word_has_to_be_a_stack_pointer() {
    assert_eq!(find_application(&slot_a(&[0x0005_0101, 0x2000_4000]), &layout()), None);
    assert_eq!(find_application(&slot_a(&[0x1FFF_FFFF, 0x0005_0101]), &layout()), None);
    assert_eq!(find_application(&slot_a(&[0x2004_0000, 0x0005_0101]), &layout()), None);
    assert_eq!(find_application(&slot_a(&[0, 0, 1]), &layout()), None);
}

#[test]
fn stack_pointer_range_is_half_open() {
    assert_eq!(
        find_application(&slot_a(&[0x2000_0000, 0x0005_0000]), &layout()),
        Some(SLOT_A)
    );
    assert_eq!(
        find_application(&slot_a(&[0x2003_FFFF, 0x0005_0000]), &layout()),
        Some(SLOT_A)
    );
}

#[test]
fn second_word_has_to_be_a_reset_vector() {
    assert_eq!(find_application(&slot_a(&[0x2000_4000, 0x0004_FFFF]), &layout()), None);
    assert_eq!(find_application(&slot_a(&[0x2000_4000, 0x0005_3000]), &layout()), None);
    assert_eq!(find_application(&slot_a(&[0x2000_4000, 0x2000_4000]), &layout()), None);
    assert_eq!(find_application(&slot_a(&[0x2000_4000, 0x0009_0101]), &layout()), None);
    assert_eq!(
        find_application(&slot_a(&[0x2000_4000, 0x0005_2FFF]), &layout()),
        Some(SLOT_A)
    );
}

#[test]
fn application_outside_of_slot_a_is_not_found() {
    let mut flash = MemFlash::new();
    flash.fill_page(SLOT_A + 0x3000, &[0x2000_4000, 0x0005_0101]);
    flash.fill_page(SLOT_A - 0x1000, &[0x2000_4000, 0x0005_0101]);
    assert_eq!(find_application(&flash, &layout()), None);
}

#[test]
fn panics_are_counted() {
    assert_eq!(count_panics(0, false), PanicTally { panics: 0, throttle: false, kept: 0 });
    assert_eq!(count_panics(0, true), PanicTally { panics: 1, throttle: false, kept: 1 });
    assert_eq!(count_panics(3, true), PanicTally { panics: 4, throttle: false, kept: 4 });
    assert_eq!(count_panics(3, false), PanicTally { panics: 3, throttle: false, kept: 3 });
    assert_eq!(count_panics(9, true), PanicTally { panics: 10, throttle: false, kept: 10 });
    assert_eq!(count_panics(10, false), PanicTally { panics: 10, throttle: false, kept: 10 });
}

#[test]
fn panic_above_the_limit_throttles_the_boot() {
    assert_eq!(count_panics(10, true), PanicTally { panics: 11, throttle: true, kept: 0 });
}

#[test]
fn count_above_the_limit_is_taken_as_zero() {
    assert_eq!(count_panics(11, false), PanicTally { panics: 0, throttle: false, kept: 0 });
    assert_eq!(count_panics(11, true), PanicTally { panics: 1, throttle: false, kept: 1 });
    assert_eq!(
        count_panics(0xFFFF_FFFF, true),
        PanicTally { panics: 1, throttle: false, kept: 1 }
    );
}

fn flags(set: usize) -> ResetFlags {
    ResetFlags {
        resetpin: set == 0,
        dog: set == 1,
        off: set == 2,
        dif: set == 3,
        sreq: set == 4,
        lockup: set == 5,
        ctrlap: set == 6,
    }
}

#[test]
fn reset_reasons() {
    assert_eq!(ResetReason::lookup(&flags(0)), ResetReason::ResetPin);
    assert_eq!(ResetReason::lookup(&flags(1)), ResetReason::Watchdog);
    assert_eq!(ResetReason::lookup(&flags(2)), ResetReason::WakeupFromOff);
    assert_eq!(ResetReason::lookup(&flags(3)), ResetReason::DebugFromOff);
    assert_eq!(ResetReason::lookup(&flags(4)), ResetReason::SysResetReq);
    assert_eq!(ResetReason::lookup(&flags(5)), ResetReason::Lockup);
    assert_eq!(ResetReason::lookup(&flags(6)), ResetReason::CtrlAp);
    assert_eq!(ResetReason::lookup(&flags(7)), ResetReason::NoReason);
}

#[test]
fn first_reset_reason_wins() {
    let all = ResetFlags {
        resetpin: true,
        dog: true,
        off: true,
        dif: true,
        sreq: true,
        lockup: true,
        ctrlap: true,
    };
    assert_eq!(ResetReason::lookup(&all), ResetReason::ResetPin);
    assert_eq!(ResetReason::lookup(&ResetFlags { resetpin: false, ..all }), ResetReason::Watchdog);
    assert_eq!(
        ResetReason::lookup(&ResetFlags { resetpin: false, dog: false, off: false, ..all }),
        ResetReason::DebugFromOff
    );
    assert_eq!(
        ResetReason::lookup(&ResetFlags { lockup: true, ctrlap: true, ..flags(7) }),
        ResetReason::Lockup
    );
}

#[test]
fn application_that_was_swapped_in_is_found() {
    let map = layout();
    let mut flash = MemFlash::new();
    flash.fill_page(0x9_0000, &[0, 0, 0x2000_8000, 0x0005_0009]);
    assert_eq!(find_application(&flash, &map), None);
    let mut state = BootloaderState::load(&flash, &map);
    state.set_goal(BootloaderGoal::StartSwap);
    state.set_valid(true);
    state.store(&mut flash, &map);
    assert_eq!(boot(&mut flash, &map), BootOutcome::Swapped { test_swap: false });
    assert_eq!(find_application(&flash, &map), Some(SLOT_A + 8));
}
