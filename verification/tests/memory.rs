use najm_kernel::abi::layout::{HIGHER_HALF_START, USER_SPACE_END};
use najm_kernel::mm::address_space::{
    activate, kernel_root, record_kernel_root, restore, AddressSpace, KernelRoot, MapAttempt, MapError,
};
use najm_kernel::mm::allocator::{init_heap, HEAP_SIZE, HEAP_START};
use najm_kernel::mm::frame_pool::{self, FramePool};
use najm_kernel::mm::kstack::{self, Allocator, StackRegion};
use najm_kernel::mm::memory::{
    clear_lower_half_mappings, copy_from_user, copy_from_user_into, copy_to_user, next_frame,
    pml4_entries_in_use, user_range_is_accessible, BootInfoFrameAllocator, MemoryRegion,
    MemoryRegionKind, MAX_USER_TRANSFER,
};
use najm_kernel::mm::paging::{
    page_is_accessible, page_is_user_accessible, translate_in, PageFlags, HUGE_PAGE, NO_EXECUTE,
    PRESENT, USER_ACCESSIBLE, WRITABLE,
};
use x86_64::structures::paging::PageTableFlags;
use x86_64::VirtAddr;

const ROOT: u64 = 0x1000;

fn set_entry(mem: &mut [u8], table: u64, index: usize, entry: u64) {
    let at = table as usize + 8 * index;
    mem[at..at + 8].copy_from_slice(&entry.to_le_bytes());
}

fn map(mem: &mut [u8], addr: u64, frame: u64, flags: u64) {
    let virt = VirtAddr::new(addr);
    let parents = PRESENT | WRITABLE | USER_ACCESSIBLE;
    set_entry(mem, ROOT, virt.p4_index().into(), 0x2000 | parents);
    set_entry(mem, 0x2000, virt.p3_index().into(), 0x3000 | parents);
    set_entry(mem, 0x3000, virt.p2_index().into(), 0x4000 | parents);
    set_entry(mem, 0x4000, virt.p1_index().into(), frame | flags);
}

fn two_pages() -> Vec<u8> {
    let mut mem = vec![0u8; 0x10000];
    let user = PRESENT | WRITABLE | USER_ACCESSIBLE;
    map(&mut mem, 0x40_0000, 0x8000, user);
    map(&mut mem, 0x40_1000, 0x6000, user);
    mem
}

#[test]
fn flag_bits_are_those_of_the_hardware() {
    assert_eq!(PRESENT, PageTableFlags::PRESENT.bits());
    assert_eq!(WRITABLE, PageTableFlags::WRITABLE.bits());
    assert_eq!(USER_ACCESSIBLE, PageTableFlags::USER_ACCESSIBLE.bits());
    assert_eq!(HUGE_PAGE, PageTableFlags::HUGE_PAGE.bits());
    assert_eq!(NO_EXECUTE, PageTableFlags::NO_EXECUTE.bits());
    let flags = PageFlags { writable: true, user_accessible: false, no_execute: true };
    let expected = PageTableFlags::PRESENT | PageTableFlags::WRITABLE | PageTableFlags::NO_EXECUTE;
    assert_eq!(flags.bits(), expected.bits());
}

#[test]
fn addresses_are_translated_through_four_levels() {
    let mut mem = two_pages();
    assert_eq!(translate_in(&mem, ROOT, 0x40_0123), Some(0x8000));
    assert_eq!(translate_in(&mem, ROOT, 0x40_1fff), Some(0x6000));
    assert_eq!(translate_in(&mem, ROOT, 0x40_2000), None);
    assert_eq!(translate_in(&mem, ROOT, 0x0000_8000_0000_0000), None);
    assert_eq!(translate_in(&mem, ROOT, u64::MAX), None);
    // Every level has an index of its own.
    let far = 0x0000_1234_5678_9000;
    map(&mut mem, far, 0x9000, PRESENT);
    assert_eq!(translate_in(&mem, ROOT, far + 0xabc), Some(0x9000));
    assert_eq!(translate_in(&mem, ROOT, far ^ (1 << 39)), None);
    assert_eq!(translate_in(&mem, ROOT, far ^ (1 << 30)), None);
    assert_eq!(translate_in(&mem, ROOT, far ^ (1 << 21)), None);
    assert_eq!(translate_in(&mem, ROOT, far ^ (1 << 12)), None);
}

#[test]
fn a_user_page_must_be_one_at_every_level() {
    let mut mem = two_pages();
    assert!(page_is_user_accessible(&mem, ROOT, 0x40_0000));
    assert!(page_is_accessible(&mem, ROOT, 0x40_0000, true));
    map(&mut mem, 0x40_1000, 0x6000, PRESENT | USER_ACCESSIBLE);
    assert!(page_is_accessible(&mem, ROOT, 0x40_1000, false));
    assert!(!page_is_accessible(&mem, ROOT, 0x40_1000, true));
    map(&mut mem, 0x40_1000, 0x6000, PRESENT | WRITABLE);
    assert!(!page_is_user_accessible(&mem, ROOT, 0x40_1000));
    // A parent that is not user-accessible closes off what is below it.
    let index: usize = VirtAddr::new(0x40_0000).p3_index().into();
    set_entry(&mut mem, 0x2000, index, 0x3000 | PRESENT | WRITABLE);
    assert!(!page_is_user_accessible(&mem, ROOT, 0x40_0000));
    assert!(!page_is_accessible(&mem, ROOT, 0x0000_9000_0000_0000, false));
}

#[test]
fn a_huge_page_ends_the_check_early() {
    let mut mem = two_pages();
    let index: usize = VirtAddr::new(0x40_0000).p2_index().into();
    set_entry(&mut mem, 0x3000, index, 0x20_0000 | PRESENT | USER_ACCESSIBLE | HUGE_PAGE);
    assert!(page_is_user_accessible(&mem, ROOT, 0x40_0000));
    assert_eq!(translate_in(&mem, ROOT, 0x40_0000), None);
}

#[test]
fn ranges_are_checked_whole() {
    let mem = two_pages();
    assert!(user_range_is_accessible(&mem, ROOT, 0x40_0000, 0x2000));
    assert!(user_range_is_accessible(&mem, ROOT, 0x40_0ff0, 0x20));
    assert!(user_range_is_accessible(&mem, ROOT, 0xdead_0000, 0));
    assert!(!user_range_is_accessible(&mem, ROOT, 0x40_0000, 0x2001));
    assert!(!user_range_is_accessible(&mem, ROOT, 0x3f_ffff, 2));
    assert!(!user_range_is_accessible(&mem, ROOT, u64::MAX, 2));
    assert!(!user_range_is_accessible(&mem, ROOT, HIGHER_HALF_START, 1));
    assert!(!user_range_is_accessible(&mem, ROOT, USER_SPACE_END - 1, 2));
}

#[test]
fn what_is_copied_to_a_program_is_what_it_finds() {
    let mut mem = two_pages();
    let data: Vec<u8> = (0..64).collect();
    assert_eq!(copy_to_user(&mut mem, ROOT, 0x40_0fe0, &data), Some(64));
    assert_eq!(&mem[0x8fe0..0x9000], &data[..32]);
    assert_eq!(&mem[0x6000..0x6020], &data[32..]);
    assert_eq!(copy_from_user(&mem, ROOT, 0x40_0fe0, 64), Some(data.clone()));
    let mut into = vec![0u8; 64];
    assert!(copy_from_user_into(&mem, ROOT, 0x40_0fe0, &mut into));
    assert_eq!(into, data);
}

#[test]
fn copies_that_are_not_the_programs_do_nothing() {
    let mut mem = two_pages();
    map(&mut mem, 0x40_1000, 0x6000, PRESENT | USER_ACCESSIBLE);
    let before = mem.clone();
    assert_eq!(copy_to_user(&mut mem, ROOT, 0x40_0ff0, &[1; 32]), None);
    assert_eq!(copy_to_user(&mut mem, ROOT, HIGHER_HALF_START, &[1; 4]), None);
    assert_eq!(mem, before);
    assert_eq!(copy_to_user(&mut mem, ROOT, 0x40_0000, &[]), Some(0));
    assert!(copy_from_user(&mem, ROOT, 0x40_0ff0, 32).is_some());
    assert_eq!(copy_from_user(&mem, ROOT, 0x40_1ff0, 32), None);
    assert_eq!(copy_from_user(&mem, ROOT, 0, 0), Some(Vec::new()));
    assert_eq!(copy_from_user(&mem, ROOT, 0, MAX_USER_TRANSFER as u64 + 1), None);
    let mut into = vec![7u8; 4];
    assert!(!copy_from_user_into(&mem, ROOT, 0x50_0000, &mut into));
    assert_eq!(into, [7; 4]);
}

fn kernel_memory() -> Vec<u8> {
    let mut mem = vec![0u8; 0x10000];
    set_entry(&mut mem, ROOT, 256, 0x9000 | PRESENT | WRITABLE);
    set_entry(&mut mem, ROOT, 511, 0xa000 | PRESENT);
    set_entry(&mut mem, ROOT, 3, 0xb000 | PRESENT);
    mem
}

#[test]
fn a_new_space_is_empty_below_and_the_kernels_above() {
    let mut mem = kernel_memory();
    for byte in &mut mem[0x5000..0x6000] {
        *byte = 0xff;
    }
    assert!(AddressSpace::new(&mut mem, None, ROOT).is_none());
    let space = AddressSpace::new(&mut mem, Some(0x5000), ROOT).unwrap();
    assert_eq!(space.root_frame(), 0x5000);
    assert_eq!(space.owned_frame_count(), 0);
    assert_eq!(pml4_entries_in_use(&mem, 0x5000), (0, 2));
    assert_eq!(pml4_entries_in_use(&mem, ROOT), (1, 2));
    assert_eq!(&mem[0x5000 + 2048..0x6000], &mem[0x1000 + 2048..0x2000]);
    assert_eq!(space.translate(&mem, 0x40_0000), None);
}

#[test]
fn leftover_mappings_below_are_dropped() {
    let mut mem = kernel_memory();
    let upper = mem[0x1000 + 2048..0x2000].to_vec();
    assert_eq!(clear_lower_half_mappings(&mut mem, ROOT), [3]);
    assert_eq!(pml4_entries_in_use(&mem, ROOT), (0, 2));
    assert_eq!(mem[0x1000 + 2048..0x2000], upper);
    assert_eq!(clear_lower_half_mappings(&mut mem, ROOT), []);
}

#[test]
fn mapping_keeps_the_books_and_the_rules() {
    let mut mem = kernel_memory();
    let mut space = AddressSpace::new(&mut mem, Some(0x5000), ROOT).unwrap();
    let user = PageFlags { writable: true, user_accessible: true, no_execute: true };
    let kernel_only = PageFlags { writable: true, user_accessible: false, no_execute: true };
    assert!(matches!(
        AddressSpace::check_map(HIGHER_HALF_START, user),
        Err(MapError::NotUserAddress(HIGHER_HALF_START))
    ));
    assert!(matches!(
        AddressSpace::check_map(0x40_0000, kernel_only),
        Err(MapError::NotUserAccessible(0x40_0000))
    ));
    assert!(AddressSpace::check_map(0x40_0000, user).is_ok());
    let mapped = MapAttempt::Mapped { frame: 0x8000, tables: vec![0x2000, 0x3000, 0x4000] };
    assert!(space.map_page(0x40_0000, user, mapped).is_ok());
    assert_eq!(space.owned_frame_count(), 4);
    assert!(matches!(
        space.map_page(0x40_1000, user, MapAttempt::NoFrame),
        Err(MapError::OutOfMemory)
    ));
    let failed = MapAttempt::Failed { tables: vec![0xc000], message: String::from("no") };
    assert!(matches!(space.map_page(0x40_1000, user, failed), Err(MapError::Paging(_))));
    let mut pool = FramePool::new();
    let returned = space.tear_down(&mut pool);
    assert_eq!(returned.count, frame_pool::stats(&pool).0);
    assert_eq!(returned.count, 6);
    assert_eq!(
        returned.lines,
        ["Najm Kernel: address space torn down - 6 frames returned to the pool"]
    );
    assert_eq!(frame_pool::stats(&pool).1, 6);
}

#[test]
fn a_space_is_written_through_its_own_tables() {
    let mut mem = two_pages();
    set_entry(&mut mem, ROOT, 256, 0x9000 | PRESENT);
    let space = AddressSpace::new(&mut mem, Some(0x5000), ROOT).unwrap();
    set_entry(&mut mem, 0x5000, 0, 0x2000 | PRESENT | WRITABLE | USER_ACCESSIBLE);
    assert!(space.write_at(&mut mem, 0x40_0ffe, b"abcd").is_ok());
    assert_eq!(&mem[0x8ffe..0x9000], b"ab");
    assert_eq!(&mem[0x6000..0x6002], b"cd");
    assert!(space.zero_at(&mut mem, 0x40_0fff, 2).is_ok());
    assert_eq!((mem[0x8ffe], mem[0x8fff], mem[0x6000], mem[0x6001]), (b'a', 0, 0, b'd'));
    assert!(matches!(
        space.write_at(&mut mem, 0x40_1fff, b"xy"),
        Err(MapError::NotMapped(0x40_2000))
    ));
    assert!(space.range_is_accessible(&mem, 0x40_0000, 0x2000, true));
    assert!(!space.range_is_accessible(&mem, 0x40_0000, 0x2001, false));
}

#[test]
fn the_root_is_loaded_only_where_it_changes() {
    let mut mem = kernel_memory();
    let space = AddressSpace::new(&mut mem, Some(0x5000), ROOT).unwrap();
    let switch = activate(&space, ROOT);
    assert_eq!((switch.previous, switch.load), (ROOT, Some(0x5000)));
    assert_eq!(activate(&space, 0x5000).load, None);
    assert_eq!(restore(ROOT, 0x5000), Some(ROOT));
    assert_eq!(restore(ROOT, ROOT), None);
    let mut state = KernelRoot::new();
    record_kernel_root(&mut state, ROOT);
    assert_eq!(kernel_root(&state), ROOT);
}

#[test]
fn map_errors_say_what_is_wrong() {
    assert!(MapError::NotUserAddress(0x1000).message().contains("0x1000"));
    assert!(MapError::NotUserAccessible(0x2000).message().contains("0x2000"));
    assert!(MapError::NotMapped(0x3000).message().contains("0x3000"));
    assert!(!MapError::OutOfMemory.message().is_empty());
    assert!(MapError::Paging(String::from("broken")).message().contains("broken"));
}

#[test]
fn frames_come_from_usable_regions_once_each() {
    let regions = vec![
        MemoryRegion { start: 0, end: 0x2000, kind: MemoryRegionKind::Other },
        MemoryRegion { start: 0x2000, end: 0x4000, kind: MemoryRegionKind::Usable },
        MemoryRegion { start: 0x8000, end: 0x9000, kind: MemoryRegionKind::Usable },
    ];
    let mut boot = BootInfoFrameAllocator::init(regions);
    let mut frames = Vec::new();
    while let Some(frame) = boot.allocate_frame() {
        frames.push(frame);
    }
    assert_eq!(frames, [0x2000, 0x3000, 0x8000]);
    assert_eq!(boot.allocate_frame(), None);
    let mut pool = FramePool::new();
    assert_eq!(frame_pool::release(&mut pool, 0x3000), None);
    assert_eq!(
        frame_pool::release(&mut pool, 0x3000).unwrap(),
        "Najm Kernel: FRAME POOL FAILURE - frame 0x3000 released twice; ignoring the second release rather than handing the same physical memory to two address spaces"
    );
    assert_eq!(frame_pool::stats(&pool), (1, 1));
    assert_eq!(next_frame(&mut pool, &mut boot), Some(0x3000));
    assert_eq!(next_frame(&mut pool, &mut boot), None);
    assert_eq!(frame_pool::acquire(&mut pool), None);
}

#[test]
fn kernel_stacks_are_apart_and_reused() {
    let region = StackRegion {
        area: 0xffff_d000_0000_0000,
        slot: 0x8000,
        size: 0x4000,
        slots: 3,
    };
    let mut allocator = Allocator::new(region);
    let a = kstack::allocate(&mut allocator).unwrap();
    let b = kstack::allocate(&mut allocator).unwrap();
    assert_ne!(a.stack.slot, b.stack.slot);
    assert!(a.stack.top <= b.stack.guard_page() || b.stack.top <= a.stack.guard_page());
    assert_eq!(a.stack.guard_page(), a.stack.bottom - 4096);
    assert_eq!(a.stack.top - a.stack.bottom, 0x4000);
    assert_eq!(kstack::stats(&allocator), (2, 2, 3));
    kstack::release(&mut allocator, a.stack);
    assert_eq!(kstack::stats(&allocator), (1, 2, 3));
    let again = kstack::allocate(&mut allocator).unwrap();
    assert_eq!(again.stack.slot, a.stack.slot);
    kstack::allocate(&mut allocator).unwrap();
    assert!(kstack::allocate(&mut allocator).is_none());
    assert!(kstack::guard_page_is_unmapped(None));
    assert!(!kstack::guard_page_is_unmapped(Some(0x1000)));
    assert_eq!(
        kstack::stack_flags(true),
        PageFlags { writable: true, user_accessible: false, no_execute: true }
    );
}

#[test]
fn the_heap_is_mapped_for_the_kernel_only() {
    let plan = init_heap(true);
    assert_eq!((plan.first, plan.pages * 4096), (HEAP_START, HEAP_SIZE as u64));
    assert_eq!(
        plan.flags,
        PageFlags { writable: true, user_accessible: false, no_execute: true }
    );
    assert!(!init_heap(false).flags.no_execute);
}

#[test]
fn a_frame_that_is_free_already_is_reported_when_a_space_goes() {
    let mut mem = kernel_memory();
    let space = AddressSpace::new(&mut mem, Some(0x5000), ROOT).unwrap();
    let mut pool = FramePool::new();
    assert_eq!(frame_pool::release(&mut pool, 0x5000), None);
    let returned = space.tear_down(&mut pool);
    assert_eq!(returned.lines.len(), 2);
    assert!(returned.lines[0].contains("frame 0x5000 released twice"));
    assert_eq!(
        returned.lines[1],
        format!(
            "Najm Kernel: address space torn down - {} frames returned to the pool",
            returned.count
        )
    );
    assert_eq!(frame_pool::stats(&pool), (1, 1));
}
