use broker::memory::allocator::{
    align_up, defragment, get_free_mem_size, init, init_error, place_header, required_slot_size,
    set_locked_size, AllocHeader, AllocOutcome, DeallocOutcome, InitError, Layout, MemAllocator,
    Placement, Platform,
};

const BASE: usize = 4096;
const ARENA: usize = 8 * 1024 * 1024 * 1024;

fn arena() -> MemAllocator {
    let mut allocator = MemAllocator::new();
    init(&mut allocator, Platform::Unix, BASE, ARENA);
    allocator
}

fn placed(allocator: &mut MemAllocator, size: usize, align: usize) -> Placement {
    match allocator.allocate(Layout { size, align }) {
        AllocOutcome::Placed(placement) => placement,
        other => panic!("expected memory, got {other:?}"),
    }
}

#[test]
fn aligning_rounds_up() {
    assert_eq!(align_up(0, 8), 0);
    assert_eq!(align_up(1, 8), 8);
    assert_eq!(align_up(8, 8), 8);
    assert_eq!(align_up(4097, 4096), 8192);
    assert_eq!(align_up(7, 1), 7);
}

#[test]
fn slots_have_room_for_header_padding_and_memory() {
    assert_eq!(required_slot_size(Layout { size: 1, align: 1 }), Some(24));
    assert_eq!(required_slot_size(Layout { size: 24, align: 8 }), Some(48));
    assert_eq!(required_slot_size(Layout { size: 1, align: 64 }), Some(80));
    assert_eq!(required_slot_size(Layout { size: 128, align: 1 }), Some(144));
}

#[test]
fn headers_tell_the_slot() {
    let placement = place_header(4096, 80, Layout { size: 1, align: 64 });
    assert_eq!(placement.user, 4160);
    assert_eq!(placement.header, AllocHeader { slot_offset: 64, slot_size: 80 });
    let placement = place_header(4096, 24, Layout { size: 1, align: 1 });
    assert_eq!(placement.user, 4112);
    assert_eq!(placement.header, AllocHeader { slot_offset: 16, slot_size: 24 });
}

#[test]
fn without_an_arena_the_system_is_in_charge() {
    let mut allocator = MemAllocator::new();
    assert_eq!(allocator.allocate(Layout { size: 8, align: 8 }), AllocOutcome::System);
    let header = AllocHeader { slot_offset: 16, slot_size: 24 };
    assert_eq!(allocator.deallocate(4112, header), DeallocOutcome::System);
    assert_eq!(get_free_mem_size(&allocator), usize::MAX);
    assert!(!set_locked_size(&mut allocator, 1));
    assert!(set_locked_size(&mut allocator, 0));
}

#[test]
fn arenas_must_be_large_and_set_up_once() {
    let allocator = MemAllocator::new();
    assert_eq!(init_error(&allocator, Platform::Unix, ARENA - 1), Some(InitError::TooSmall));
    assert_eq!(init_error(&allocator, Platform::Unix, ARENA), None);
    let gib = 1024 * 1024 * 1024;
    assert_eq!(init_error(&allocator, Platform::Windows, gib), Some(InitError::TooSmall));
    assert_eq!(init_error(&allocator, Platform::Windows, gib + 1), None);
    let allocator = arena();
    assert_eq!(init_error(&allocator, Platform::Unix, ARENA), Some(InitError::CalledTwice));
}

#[test]
fn memory_is_handed_out_side_by_side() {
    let mut allocator = arena();
    let first = placed(&mut allocator, 24, 8);
    assert_eq!(first.user, BASE + 16);
    assert_eq!(first.header, AllocHeader { slot_offset: 16, slot_size: 48 });
    let second = placed(&mut allocator, 1, 64);
    assert_eq!(second.user, 4160);
    assert_eq!(second.header, AllocHeader { slot_offset: 16, slot_size: 80 });
    assert_eq!(get_free_mem_size(&allocator), ARENA - 128);
}

#[test]
fn freed_memory_is_split_and_reused() {
    let mut allocator = arena();
    let first = placed(&mut allocator, 24, 8);
    placed(&mut allocator, 24, 8);
    assert_eq!(
        allocator.deallocate(first.user, first.header),
        DeallocOutcome::Freed { defrag: false }
    );
    assert_eq!(get_free_mem_size(&allocator), ARENA - 48);
    let small = placed(&mut allocator, 1, 1);
    assert_eq!(small.user, BASE + 16);
    assert_eq!(small.header, AllocHeader { slot_offset: 16, slot_size: 24 });
    let rest = placed(&mut allocator, 8, 1);
    assert_eq!(rest.user, BASE + 40);
    assert_eq!(rest.header, AllocHeader { slot_offset: 16, slot_size: 24 });
    // Nothing is left of the first slot.
    assert_eq!(placed(&mut allocator, 1, 1).user, BASE + 96 + 16);
}

#[test]
fn slots_too_small_to_cut_are_handed_out_whole() {
    let mut allocator = arena();
    let first = placed(&mut allocator, 16, 1);
    assert_eq!(first.header.slot_size, 32);
    allocator.deallocate(first.user, first.header);
    let again = placed(&mut allocator, 8, 1);
    assert_eq!(again.user, first.user);
    assert_eq!(again.header.slot_size, 32);
    assert_eq!(get_free_mem_size(&allocator), ARENA - 32);
}

#[test]
fn giving_back_undoes_handing_out() {
    let mut allocator = arena();
    let before = get_free_mem_size(&allocator);
    let placement = placed(&mut allocator, 1000, 256);
    assert_eq!(placement.user % 256, 0);
    assert!(placement.user + 1000 <= placement.user - placement.header.slot_offset + placement.header.slot_size);
    allocator.deallocate(placement.user, placement.header);
    assert_eq!(get_free_mem_size(&allocator), before);
}

#[test]
fn foreign_and_broken_memory_is_not_taken_back() {
    let mut allocator = arena();
    let header = AllocHeader { slot_offset: 16, slot_size: 24 };
    assert_eq!(allocator.deallocate(BASE - 8, header), DeallocOutcome::System);
    assert_eq!(allocator.deallocate(BASE + ARENA, header), DeallocOutcome::System);
    assert!(!allocator.owns(BASE - 1));
    assert!(allocator.owns(BASE));
    assert!(allocator.owns(BASE + ARENA - 1));
    assert!(!allocator.owns(BASE + ARENA));
    let outside = AllocHeader { slot_offset: 64, slot_size: 24 };
    assert_eq!(allocator.deallocate(BASE + 16, outside), DeallocOutcome::Rejected);
    let too_long = AllocHeader { slot_offset: 16, slot_size: ARENA + 1 };
    assert_eq!(allocator.deallocate(BASE + 16, too_long), DeallocOutcome::Rejected);
    let overflowing = AllocHeader { slot_offset: 16, slot_size: usize::MAX };
    assert_eq!(allocator.deallocate(BASE + 16, overflowing), DeallocOutcome::Rejected);
    let below_zero = AllocHeader { slot_offset: usize::MAX, slot_size: 24 };
    assert_eq!(allocator.deallocate(BASE + 16, below_zero), DeallocOutcome::Rejected);
    assert_eq!(get_free_mem_size(&allocator), ARENA);
}

#[test]
fn defragmentation_merges_slots_that_touch() {
    let mut allocator = arena();
    let first = placed(&mut allocator, 24, 8);
    let second = placed(&mut allocator, 24, 8);
    let third = placed(&mut allocator, 24, 8);
    let guard = placed(&mut allocator, 24, 8);
    let fifth = placed(&mut allocator, 24, 8);
    placed(&mut allocator, 24, 8);
    allocator.deallocate(first.user, first.header);
    allocator.deallocate(third.user, third.header);
    allocator.deallocate(fifth.user, fifth.header);
    allocator.deallocate(second.user, second.header);
    let free = get_free_mem_size(&allocator);
    defragment(&mut allocator);
    assert_eq!(get_free_mem_size(&allocator), free);
    // Three slots have become one, which now has room for more.
    let large = placed(&mut allocator, 128, 1);
    assert_eq!(large.user, BASE + 16);
    assert_eq!(large.header.slot_size, 144);
    // The slot behind the one in use was not merged.
    let next = placed(&mut allocator, 24, 8);
    assert_eq!(next.user, fifth.user);
    assert!(allocator.owns(guard.user));
}

#[test]
fn without_defragmentation_slots_stay_apart() {
    let mut allocator = arena();
    let first = placed(&mut allocator, 24, 8);
    let second = placed(&mut allocator, 24, 8);
    allocator.deallocate(first.user, first.header);
    allocator.deallocate(second.user, second.header);
    assert_eq!(placed(&mut allocator, 64, 1).user, BASE + 96 + 16);
}

#[test]
fn defragmentation_is_due_every_32nd_time() {
    let mut allocator = arena();
    for i in 1..=100 {
        let placement = placed(&mut allocator, 8, 8);
        assert_eq!(
            allocator.deallocate(placement.user, placement.header),
            DeallocOutcome::Freed { defrag: i % 32 == 0 }
        );
    }
}

#[test]
fn the_reserve_is_left_alone() {
    let mut allocator = arena();
    assert!(set_locked_size(&mut allocator, ARENA - 64));
    assert_eq!(placed(&mut allocator, 24, 8).header.slot_size, 48);
    assert_eq!(allocator.allocate(Layout { size: 1, align: 1 }), AllocOutcome::Refused);
    assert!(!set_locked_size(&mut allocator, ARENA - 47));
    assert!(!set_locked_size(&mut allocator, usize::MAX));
    assert!(set_locked_size(&mut allocator, ARENA - 48));
    assert!(set_locked_size(&mut allocator, 0));
    assert_eq!(placed(&mut allocator, 1, 1).header.slot_size, 24);
}

#[test]
fn a_full_arena_refuses() {
    let mut allocator = arena();
    let all = placed(&mut allocator, ARENA - 16, 1);
    assert_eq!(get_free_mem_size(&allocator), 0);
    assert_eq!(allocator.allocate(Layout { size: 1, align: 1 }), AllocOutcome::Refused);
    allocator.deallocate(all.user, all.header);
    assert_eq!(get_free_mem_size(&allocator), ARENA);
    placed(&mut allocator, 1, 1);
    assert_eq!(
        allocator.allocate(Layout { size: ARENA - 16, align: 1 }),
        AllocOutcome::Refused
    );
}

#[test]
fn memory_in_use_never_overlaps() {
    let mut allocator = arena();
    let mut live: Vec<(usize, usize, Placement)> = Vec::new();
    let mut seed: u64 = 1;
    for _ in 0..2000 {
        seed = seed.wrapping_mul(6364136223846793005).wrapping_add(1442695040888963407);
        let size = (seed >> 33) as usize % 500 + 1;
        let align = 1usize << ((seed >> 20) % 8);
        if live.len() > 40 {
            let (_, _, gone) = live.remove((seed >> 40) as usize % live.len());
            if allocator.deallocate(gone.user, gone.header) == (DeallocOutcome::Freed { defrag: true }) {
                defragment(&mut allocator);
            }
        }
        let placement = placed(&mut allocator, size, align);
        assert_eq!(placement.user % align, 0);
        let start = placement.user - placement.header.slot_offset;
        let end = start + placement.header.slot_size;
        assert!(placement.user >= start + 16 && placement.user + size <= end);
        for (other_start, other_end, _) in live.iter() {
            assert!(end <= *other_start || *other_end <= start);
        }
        live.push((start, end, placement));
    }
    let used: usize = live.iter().map(|(start, end, _)| end - start).sum();
    assert_eq!(get_free_mem_size(&allocator), ARENA - used);
}
