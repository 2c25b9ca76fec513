//! What handing memory out and taking it back does to the arena.
use vstd::prelude::*;

use crate::memory::allocator::{AllocHeader, Platform};
use crate::memory::arena;
use crate::memory::arena::{ArenaState, Slot};
use crate::memory::laws;
use crate::tally;

verus! {

/// The powers of two are the numbers that doubling makes of 1.
pub proof fn powers_of_two_are_doubled_ones(n: nat)
    ensures
        arena::is_power_of_two(1),
        n > 0 ==> arena::is_power_of_two(2 * n) == arena::is_power_of_two(n),
        n % 2 == 1 && n > 1 ==> !arena::is_power_of_two(n),
        !arena::is_power_of_two(0),
{
    assert(2 * n / 2 == n);
}

/// A slot is the smallest that is a multiple of 8 and has room for the header of 16
/// bytes, the worst padding and the memory.
pub proof fn slot_is_as_small_as_possible(size: nat, align: nat, other: nat)
    requires
        align > 0,
    ensures
        arena::slot_size(size, align) % 8 == 0,
        arena::slot_size(size, align) >= 16 + (align - 1) + size,
        other % 8 == 0 && other >= 16 + (align - 1) + size ==> arena::slot_size(size, align)
            <= other,
{
    laws::rounding_up((16 + (align - 1) + size) as nat, 8);
}

/// The user's memory begins at the first address that is aligned and leaves the 16 bytes
/// of the header.
pub proof fn memory_begins_as_early_as_possible(start: nat, align: nat, other: nat)
    requires
        align > 0,
    ensures
        arena::user_address(start, align) % align == 0,
        arena::user_address(start, align) >= start + 16,
        other % align == 0 && other >= start + 16 ==> arena::user_address(start, align) <= other,
{
    let user = arena::user_address(start, align);
    laws::rounding_up(start + 16, align);
    if other % align == 0 && other >= start + 16 && other < user {
        vstd::arithmetic::div_mod::lemma_fundamental_div_mod(user as int, align as int);
        vstd::arithmetic::div_mod::lemma_fundamental_div_mod(other as int, align as int);
        let a = user as int / align as int;
        let b = other as int / align as int;
        let step = align as int;
        assert(a > b) by (nonlinear_arith)
            requires
                step > 0,
                step * a > step * b,
        ;
        assert(step * a >= step * b + step) by (nonlinear_arith)
            requires
                step > 0,
                a >= b + 1,
        ;
    }
}

/// A slot can be handed out where there is an arena, the bytes in use and the reserve
/// leave room for it, and a free slot or the bytes never handed out can hold it.
pub proof fn room_decides_what_is_handed_out(arena: ArenaState, needed: nat)
    ensures
        arena.can_place(needed) <==> {
            &&& arena.base is Some
            &&& arena.used + arena.locked + needed <= arena.capacity
            &&& (exists|i: int| 0 <= i < arena.free.len() && (#[trigger] arena.free[i]).size
                >= needed) || arena.offset + needed <= arena.capacity
        },
{
    laws::first_fit_fits(arena.free, needed);
    if let Some(i) = arena::first_fit(arena.free, needed) {
        assert(arena.free[i].size >= needed);
    }
}

/// Memory comes from the first free slot that is large enough. What is left of that slot
/// stays free where it is 16 bytes or more; else the whole slot is taken. No other free
/// slot changes.
pub proof fn memory_comes_from_the_first_fit(arena: ArenaState, size: nat, align: nat, i: int)
    requires
        0 <= i < arena.free.len(),
        arena.free[i].size >= arena::slot_size(size, align),
        forall|j: int| 0 <= j < i ==> (#[trigger] arena.free[j]).size < arena::slot_size(size, align),
    ensures
        ({
            let needed = arena::slot_size(size, align);
            let after = arena.allocated(size, align);
            let user = arena.placement(size, align);
            let slot = arena.free[i];
            &&& user == arena::user_address(slot.start, align)
            &&& after.live.dom() == arena.live.dom().insert(user)
            &&& forall|other: nat|
                other != user ==> #[trigger] after.live[other] == arena.live[other]
            &&& after.live[user].start == slot.start
            &&& after.used == arena.used + after.live[user].size
            &&& slot.size >= needed + 16 ==> {
                &&& after.live[user].size == needed
                &&& after.free.len() == arena.free.len()
                &&& after.free[i].start == slot.start + needed
                &&& after.free[i].size == slot.size - needed
                &&& forall|j: int|
                    0 <= j < arena.free.len() && j != i ==> #[trigger] after.free[j]
                        == arena.free[j]
            }
            &&& slot.size < needed + 16 ==> {
                &&& after.live[user].size == slot.size
                &&& after.free == arena.free.remove(i)
            }
            &&& after.offset == arena.offset
            &&& after.base == arena.base
            &&& after.capacity == arena.capacity
            &&& after.locked == arena.locked
            &&& after.deallocations == arena.deallocations
        }),
{
    let needed = arena::slot_size(size, align);
    laws::first_fit_fits(arena.free, needed);
    let found = arena::first_fit(arena.free, needed)->0;
    if found < i {
        assert(arena.free[found].size < needed);
    } else if i < found {
        assert(arena.free[i].size < needed);
    }
    assert(arena.allocated(size, align).live.dom() =~= arena.live.dom().insert(
        arena.placement(size, align),
    ));
}

/// Where no free slot is large enough, memory comes from the bytes that were never
/// handed out, next to those that were, and the free slots stay as they are.
pub proof fn memory_comes_from_fresh_bytes(arena: ArenaState, size: nat, align: nat)
    requires
        arena.base is Some,
        arena.offset + arena::slot_size(size, align) <= arena.capacity,
        forall|j: int|
            0 <= j < arena.free.len() ==> (#[trigger] arena.free[j]).size < arena::slot_size(
                size,
                align,
            ),
    ensures
        ({
            let needed = arena::slot_size(size, align);
            let after = arena.allocated(size, align);
            let user = arena.placement(size, align);
            &&& user == arena::user_address(arena.base->0 + arena.offset, align)
            &&& after.live.dom() == arena.live.dom().insert(user)
            &&& forall|other: nat|
                other != user ==> #[trigger] after.live[other] == arena.live[other]
            &&& after.live[user].start == arena.base->0 + arena.offset
            &&& after.live[user].size == needed
            &&& after.used == arena.used + needed
            &&& after.free == arena.free
            &&& after.offset == arena.offset + needed
            &&& after.base == arena.base
            &&& after.capacity == arena.capacity
            &&& after.locked == arena.locked
            &&& after.deallocations == arena.deallocations
        }),
{
    let needed = arena::slot_size(size, align);
    laws::first_fit_fits(arena.free, needed);
    if let Some(i) = arena::first_fit(arena.free, needed) {
        assert(arena.free[i].size >= needed);
    }
    assert(arena.allocated(size, align).live.dom() =~= arena.live.dom().insert(
        arena.placement(size, align),
    ));
}

/// Giving memory back puts its slot at the front of the free list and takes its bytes
/// off those in use; no other memory is touched.
pub proof fn memory_given_back_is_free(arena: ArenaState, user: nat)
    requires
        arena.wf(),
        arena.live.contains_key(user),
    ensures
        ({
            let after = arena.deallocated(user);
            &&& after.live == arena.live.remove(user)
            &&& after.free.len() == arena.free.len() + 1
            &&& after.free[0] == arena.live[user]
            &&& forall|i: int|
                0 <= i < arena.free.len() ==> after.free[i + 1] == #[trigger] arena.free[i]
            &&& after.used + arena.live[user].size == arena.used
            &&& after.deallocations == if arena.deallocations == usize::MAX {
                0
            } else {
                arena.deallocations + 1
            }
            &&& after.offset == arena.offset
            &&& after.base == arena.base
            &&& after.capacity == arena.capacity
            &&& after.locked == arena.locked
        }),
{
    laws::deallocating_keeps_wf(arena, user);
    let modulus = (usize::MAX + 1) as nat;
    if arena.deallocations == usize::MAX {
        vstd::arithmetic::div_mod::lemma_mod_self_0(modulus as int);
    } else {
        vstd::arithmetic::div_mod::lemma_small_mod(arena.deallocations + 1, modulus);
    }
}

/// The free list is due to be tidied with every 32nd slot that is given back.
pub proof fn tidying_is_due_every_32nd_time(arena: ArenaState)
    requires
        arena.deallocations < usize::MAX,
    ensures
        arena.defrag_due() <==> (arena.deallocations + 1) % 32 == 0,
{
}

/// An arena starts without memory, in use or free; it is given all of its memory at once
/// and keeps nothing back.
pub proof fn arena_starts_unused(base: nat, capacity: nat)
    ensures
        ({
            let empty = ArenaState::empty();
            let arena = empty.initialized(base, capacity);
            &&& empty.base is None
            &&& empty.capacity == 0
            &&& arena.base == Some(base)
            &&& arena.capacity == capacity
            &&& arena.used == 0
            &&& arena.offset == 0
            &&& arena.locked == 0
            &&& arena.deallocations == 0
            &&& arena.free.len() == 0
            &&& arena.live.dom() == Set::<nat>::empty()
        }),
{
}

/// The arena owns the addresses of its memory, from the first to the last.
pub proof fn arena_owns_its_memory(arena: ArenaState, address: nat)
    ensures
        arena.base is None ==> !arena.owns(address),
        arena.base matches Some(base) ==> (arena.owns(address) <==> base <= address && address
            - base < arena.capacity),
{
}

/// The bytes in use and those that are not make up the arena; without one there is no
/// limit.
pub proof fn bytes_not_in_use(arena: ArenaState)
    requires
        arena.wf(),
    ensures
        arena.capacity > 0 ==> arena.free_size() + arena.used == arena.capacity,
        arena.capacity == 0 ==> arena.free_size() == usize::MAX,
{
    laws::bytes_are_accounted_for(arena);
}

/// A header tells how far before the memory its slot starts, and how large it is.
pub proof fn header_tells_the_slot(slot: Slot, user: nat)
    requires
        slot.start <= user <= usize::MAX,
        slot.size <= usize::MAX,
    ensures
        AllocHeader::of(slot, user).slot_offset + slot.start == user,
        AllocHeader::of(slot, user).slot_size == slot.size,
        AllocHeader::of(slot, user).slot(user) == slot,
{
}

/// A header describes a slot in the arena exactly where the arena owns each of the
/// bytes that the header tells of.
pub proof fn header_lies_in_where_its_bytes_do(header: AllocHeader, arena: ArenaState, user: nat)
    requires
        arena.base is Some,
        header.slot_size > 0,
    ensures
        header.lies_in(arena, user) <==> {
            &&& header.slot_offset <= user
            &&& forall|k: nat|
                #![trigger arena.owns((user - header.slot_offset + k) as nat)]
                k < header.slot_size ==> arena.owns((user - header.slot_offset + k) as nat)
        },
{
    if header.slot_offset <= user && forall|k: nat|
        #![trigger arena.owns((user - header.slot_offset + k) as nat)]
        k < header.slot_size ==> arena.owns((user - header.slot_offset + k) as nat) {
        let last = (header.slot_size - 1) as nat;
        assert(arena.owns((user - header.slot_offset + 0nat) as nat));
        assert(arena.owns((user - header.slot_offset + last) as nat));
    }
}

/// An arena has at least 8 GiB on Unix, and more than 1 GiB on Windows.
pub proof fn arena_has_a_least_size(size: nat)
    ensures
        Platform::Unix.accepts(size) <==> size >= 8 * 1024 * 1024 * 1024,
        Platform::Windows.accepts(size) <==> size > 1024 * 1024 * 1024,
{
}

/// A count that no longer fits a machine word starts over; a capped one stays at the
/// largest word.
pub proof fn counts_fit_a_word(n: nat)
    ensures
        n <= usize::MAX ==> tally::wrapped(n) == n && tally::capped(n) == n,
        n > usize::MAX ==> tally::wrapped(n) == tally::wrapped((n - usize::MAX - 1) as nat)
            && tally::capped(n) == usize::MAX,
{
    let modulus = (usize::MAX + 1) as nat;
    if n <= usize::MAX {
        vstd::arithmetic::div_mod::lemma_small_mod(n, modulus);
    } else {
        vstd::arithmetic::div_mod::lemma_mod_sub_multiples_vanish(n as int, modulus as int);
        assert(n - usize::MAX - 1 == -(modulus as int) + n);
    }
}

} // verus!
