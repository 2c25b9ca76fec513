//! What holds of the memory arena across operations.
use vstd::prelude::*;

use crate::memory::arena;
use crate::memory::arena::{ArenaState, Slot, DEFRAG_INTERVAL, MIN_SLOT_SIZE, SLOT_ALIGN};
use crate::tally;

verus! {

/// Rounding up gives a multiple, by less than the alignment.
pub proof fn rounding_up(value: nat, align: nat)
    requires
        align > 0,
    ensures
        arena::round_up(value, align) % align == 0,
        value <= arena::round_up(value, align) < value + align,
{
    let sum = value + align - 1;
    vstd::arithmetic::div_mod::lemma_fundamental_div_mod(sum, align as int);
    vstd::arithmetic::div_mod::lemma_mod_multiples_basic(sum / align as int, align as int);
    vstd::arithmetic::mul::lemma_mul_is_commutative(sum / align as int, align as int);
}

/// A multiple of the alignment is rounded to itself.
pub proof fn rounding_up_a_multiple(value: nat, align: nat)
    requires
        align > 0,
        value % align == 0,
    ensures
        arena::round_up(value, align) == value,
{
    let q = value as int / align as int;
    vstd::arithmetic::div_mod::lemma_fundamental_div_mod(value as int, align as int);
    vstd::arithmetic::div_mod::lemma_fundamental_div_mod_converse(
        value + align - 1,
        align as int,
        q,
        align - 1,
    );
    vstd::arithmetic::mul::lemma_mul_is_commutative(q, align as int);
}

/// A power of two divides eight or is a multiple of it.
pub proof fn small_powers_of_two(n: nat)
    requires
        arena::is_power_of_two(n),
    ensures
        n == 1 || n == 2 || n == 4 || n % 8 == 0,
{
    reveal_with_fuel(arena::is_power_of_two, 4);
}

/// The alignment of slots is a power of two.
pub proof fn slot_align_is_a_power_of_two()
    ensures
        arena::is_power_of_two(SLOT_ALIGN as nat),
{
    reveal_with_fuel(arena::is_power_of_two, 4);
}

/// What is a multiple of a multiple of eight is a multiple of eight.
proof fn multiple_of_eight(value: nat, align: nat)
    requires
        align > 0,
        align % 8 == 0,
        value % align == 0,
    ensures
        value % 8 == 0,
{
    let q = value as int / align as int;
    let r = align as int / 8;
    vstd::arithmetic::div_mod::lemma_fundamental_div_mod(value as int, align as int);
    vstd::arithmetic::mul::lemma_mul_is_associative(8, r, q);
    vstd::arithmetic::div_mod::lemma_mod_multiples_basic(r * q, 8);
    vstd::arithmetic::mul::lemma_mul_is_commutative(r * q, 8);
    assert(value == (r * q) * 8);
}

/// A multiple of eight is a multiple of every smaller power of two.
proof fn small_alignments_divide(value: nat, align: nat)
    requires
        value % 8 == 0,
        align == 1 || align == 2 || align == 4,
    ensures
        value % align == 0,
{
    if align == 1 {
        assert(value % 1 == 0);
    } else if align == 2 {
        assert(value % 2 == 0);
    } else {
        assert(value % 4 == 0);
    }
}

/// In a slot of the right size, the user's memory is aligned as asked for, the header
/// in front of it is aligned too, and both lie in the slot.
#[verifier::spinoff_prover]
pub proof fn memory_fits_its_slot(start: nat, size: nat, align: nat)
    requires
        start % SLOT_ALIGN as nat == 0,
        arena::is_power_of_two(align),
    ensures
        arena::user_address(start, align) % align == 0,
        arena::user_address(start, align) % SLOT_ALIGN as nat == 0,
        start + MIN_SLOT_SIZE <= arena::user_address(start, align),
        arena::user_address(start, align) + size <= start + arena::slot_size(size, align),
        arena::slot_size(size, align) >= MIN_SLOT_SIZE,
        arena::slot_size(size, align) % SLOT_ALIGN as nat == 0,
{
    let first = start + MIN_SLOT_SIZE as nat;
    let worst = (MIN_SLOT_SIZE + (align - 1) + size) as nat;
    assert(align > 0);
    rounding_up(first, align);
    rounding_up(worst, SLOT_ALIGN as nat);
    small_powers_of_two(align);
    if align % 8 == 0 {
        multiple_of_eight(arena::user_address(start, align), align);
    } else {
        assert(first % align == 0) by {
            small_alignments_divide(first, align);
        }
        rounding_up_a_multiple(first, align);
    }
}

/// A total is made of any one size and the total of the others.
pub proof fn total_without(slots: Seq<Slot>, i: int)
    requires
        0 <= i < slots.len(),
    ensures
        arena::total_size(slots) == slots[i].size + arena::total_size(slots.remove(i)),
    decreases slots.len(),
{
    let last = slots.len() - 1;
    if i == last {
        assert(slots.remove(i) =~= slots.drop_last());
    } else {
        total_without(slots.drop_last(), i);
        assert(slots.remove(i).drop_last() =~= slots.drop_last().remove(i));
    }
}

/// Adding a slot anywhere adds its size.
pub proof fn total_with(slots: Seq<Slot>, i: int, slot: Slot)
    requires
        0 <= i <= slots.len(),
    ensures
        arena::total_size(slots.insert(i, slot)) == arena::total_size(slots) + slot.size,
{
    total_without(slots.insert(i, slot), i);
    assert(slots.insert(i, slot).remove(i) =~= slots);
}

/// The first slot that fits does fit, and those before it do not.
pub proof fn first_fit_fits(slots: Seq<Slot>, needed: nat)
    ensures
        match arena::first_fit(slots, needed) {
            Some(i) => {
                &&& 0 <= i < slots.len()
                &&& slots[i].size >= needed
                &&& forall|j: int| 0 <= j < i ==> (#[trigger] slots[j]).size < needed
            },
            None => forall|j: int| 0 <= j < slots.len() ==> (#[trigger] slots[j]).size < needed,
        },
    decreases slots.len(),
{
    if slots.len() > 0 && slots[0].size < needed {
        let rest = slots.drop_first();
        first_fit_fits(rest, needed);
        assert forall|j: int| 0 < j < slots.len() implies slots[j] == rest[j - 1] by {}
    }
}

/// Using a slot that was not in use adds its size.
proof fn live_size_insert(live: Map<nat, Slot>, user: nat, slot: Slot)
    requires
        live.dom().finite(),
        !live.contains_key(user),
    ensures
        arena::live_size(live.insert(user, slot)) == arena::live_size(live) + slot.size,
{
    let f = |slot: Slot| slot.size;
    let sizes = live.map_values(f);
    assert(sizes.dom() =~= live.dom());
    assert(live.insert(user, slot).map_values(f) =~= sizes.insert(user, slot.size));
    tally::map_sum_insert(sizes, user, slot.size);
}

/// No longer using a slot takes its size off.
proof fn live_size_remove(live: Map<nat, Slot>, user: nat)
    requires
        live.dom().finite(),
        live.contains_key(user),
    ensures
        arena::live_size(live) == live[user].size + arena::live_size(live.remove(user)),
{
    let f = |slot: Slot| slot.size;
    let sizes = live.map_values(f);
    assert(sizes.dom() =~= live.dom());
    assert(live.remove(user).map_values(f) =~= sizes.remove(user));
    tally::map_sum_remove(sizes, user);
}

/// Giving the arena its memory makes a well-formed arena.
pub proof fn initializing_gives_wf(base: nat, capacity: nat)
    requires
        base > 0,
        base % SLOT_ALIGN as nat == 0,
        base + capacity <= usize::MAX,
    ensures
        ArenaState::empty().wf(),
        ArenaState::empty().initialized(base, capacity).wf(),
{
    let none = Map::<nat, Slot>::empty().map_values(|slot: Slot| slot.size);
    assert(none =~= Map::empty());
}

/// The slot that is handed out is in its place, large enough, and apart from every
/// other slot; what remains of the arena is in order.
#[verifier::spinoff_prover]
proof fn choosing_is_sound(arena: ArenaState, needed: nat)
    requires
        arena.wf(),
        arena.base is Some,
        arena.chosen(needed) is Some,
        needed >= MIN_SLOT_SIZE,
        needed % SLOT_ALIGN as nat == 0,
    ensures
        ({
            let slot = arena.chosen(needed)->0;
            let after = arena.without_chosen(needed);
            &&& after.carved(slot)
            &&& needed <= slot.size < needed + MIN_SLOT_SIZE
            &&& arena.used + slot.size + arena::total_size(after.free) == after.offset
            &&& after.offset <= after.capacity
            &&& after.offset % SLOT_ALIGN as nat == 0
            &&& after.slots_wf()
            &&& after.slots_apart()
            &&& forall|i: int| 0 <= i < after.free.len() ==> slot.apart(#[trigger] after.free[i])
            &&& forall|user: nat| #[trigger]
                arena.live.contains_key(user) ==> slot.apart(arena.live[user])
        }),
{
    let slot = arena.chosen(needed)->0;
    let after = arena.without_chosen(needed);
    first_fit_fits(arena.free, needed);
    match arena::first_fit(arena.free, needed) {
        Some(i) => {
            let whole = arena.free[i];
            total_without(arena.free, i);
            if whole.size - needed >= MIN_SLOT_SIZE {
                let rest = Slot { start: whole.start + needed, size: (whole.size - needed) as nat };
                total_without(after.free, i);
                assert(after.free.remove(i) =~= arena.free.remove(i));
                assert(after.free[i] == rest);
                assert forall|j: int| 0 <= j < after.free.len() implies {
                    &&& after.carved(#[trigger] after.free[j])
                    &&& slot.apart(after.free[j])
                } by {
                    if j != i {
                        assert(after.free[j] == arena.free[j]);
                        assert(arena.carved(arena.free[j]));
                    }
                }
                assert forall|a: int, b: int|
                    #![trigger after.free[a], after.free[b]]
                    0 <= a < b < after.free.len() implies after.free[a].apart(after.free[b]) by {
                    assert(arena.free[a].apart(arena.free[b]));
                }
                assert forall|user: nat, j: int|
                    #![trigger after.live[user], after.free[j]]
                    after.live.contains_key(user) && 0 <= j < after.free.len() implies
                    after.live[user].apart(after.free[j]) by {
                    assert(arena.live[user].apart(arena.free[j]));
                }
            } else {
                assert forall|j: int| 0 <= j < after.free.len() implies {
                    &&& after.carved(#[trigger] after.free[j])
                    &&& slot.apart(after.free[j])
                } by {
                    let k = if j < i { j } else { j + 1 };
                    assert(after.free[j] == arena.free[k]);
                    assert(arena.carved(arena.free[k]));
                }
                assert forall|a: int, b: int|
                    #![trigger after.free[a], after.free[b]]
                    0 <= a < b < after.free.len() implies after.free[a].apart(after.free[b]) by {
                    let j = if a < i { a } else { a + 1 };
                    let k = if b < i { b } else { b + 1 };
                    assert(arena.free[j].apart(arena.free[k]));
                }
                assert forall|user: nat, j: int|
                    #![trigger after.live[user], after.free[j]]
                    after.live.contains_key(user) && 0 <= j < after.free.len() implies
                    after.live[user].apart(after.free[j]) by {
                    let k = if j < i { j } else { j + 1 };
                    assert(arena.live[user].apart(arena.free[k]));
                }
            }
            assert forall|user: nat| #[trigger] arena.live.contains_key(user) implies slot.apart(
                arena.live[user],
            ) by {
                assert(arena.live[user].apart(arena.free[i]));
            }
            assert forall|user: nat| #[trigger] after.live.contains_key(user) implies {
                &&& after.carved(after.live[user])
                &&& after.live[user].start + MIN_SLOT_SIZE <= user < after.live[user].end()
            } by {
                assert(arena.live.contains_key(user));
            }
        },
        None => {
            assert forall|user: nat| #[trigger] arena.live.contains_key(user) implies {
                &&& after.carved(after.live[user])
                &&& slot.apart(arena.live[user])
                &&& after.live[user].start + MIN_SLOT_SIZE <= user < after.live[user].end()
            } by {
                assert(arena.carved(arena.live[user]));
            }
            assert forall|j: int| 0 <= j < after.free.len() implies {
                &&& after.carved(#[trigger] after.free[j])
                &&& slot.apart(after.free[j])
            } by {
                assert(arena.carved(arena.free[j]));
            }
        },
    }
}

/// Handing memory out keeps an arena well formed, and the memory is nobody else's: it
/// is aligned as asked for, lies in the arena, and its slot has no byte in common with
/// any slot that was in use.
#[verifier::spinoff_prover]
pub proof fn allocating_keeps_wf(arena: ArenaState, size: nat, align: nat)
    requires
        arena.wf(),
        arena::is_power_of_two(align),
        size > 0,
        arena.can_place(arena::slot_size(size, align)),
    ensures
        arena.allocated(size, align).wf(),
        ({
            let user = arena.placement(size, align);
            let slot = arena.allocated(size, align).live[user];
            &&& user % align == 0
            &&& user % SLOT_ALIGN as nat == 0
            &&& slot.start + MIN_SLOT_SIZE <= user
            &&& user + size <= slot.end() <= arena.base->0 + arena.capacity
            &&& arena.owns(user)
            &&& !arena.live.contains_key(user)
            &&& forall|other: nat| #[trigger]
                arena.live.contains_key(other) ==> slot.apart(arena.live[other])
        }),
{
    let needed = arena::slot_size(size, align);
    let slot = arena.chosen(needed)->0;
    let user = arena.placement(size, align);
    let after = arena.allocated(size, align);
    memory_fits_its_slot(0, size, align);
    choosing_is_sound(arena, needed);
    memory_fits_its_slot(slot.start, size, align);
    if arena.live.contains_key(user) {
        assert(slot.apart(arena.live[user]));
        assert(false);
    }
    live_size_insert(arena.live, user, slot);
    let rest = arena.without_chosen(needed);
    assert forall|i: int| 0 <= i < after.free.len() implies after.carved(
        #[trigger] after.free[i],
    ) by {
        assert(rest.carved(rest.free[i]));
    }
    assert forall|other: nat| #[trigger] after.live.contains_key(other) implies {
        &&& after.carved(after.live[other])
        &&& after.live[other].start + MIN_SLOT_SIZE <= other < after.live[other].end()
    } by {
        if other != user {
            assert(rest.live.contains_key(other));
        } else {
            assert(rest.carved(slot));
        }
    }
    assert forall|i: int, j: int|
        #![trigger after.free[i], after.free[j]]
        0 <= i < j < after.free.len() implies after.free[i].apart(after.free[j]) by {
        assert(rest.free[i].apart(rest.free[j]));
    }
    assert forall|a: nat, b: nat|
        #![trigger after.live[a], after.live[b]]
        after.live.contains_key(a) && after.live.contains_key(b) && a != b implies
        after.live[a].apart(after.live[b]) by {
        if a != user && b != user {
            assert(arena.live[a].apart(arena.live[b]));
        } else if a != user {
            assert(arena.live.contains_key(a));
        } else {
            assert(arena.live.contains_key(b));
        }
    }
    assert forall|a: nat, i: int|
        #![trigger after.live[a], after.free[i]]
        after.live.contains_key(a) && 0 <= i < after.free.len() implies after.live[a].apart(
        after.free[i],
    ) by {
        if a != user {
            assert(rest.live[a].apart(rest.free[i]));
        } else {
            assert(slot.apart(rest.free[i]));
        }
    }
}

/// Giving memory back keeps an arena well formed.
#[verifier::spinoff_prover]
pub proof fn deallocating_keeps_wf(arena: ArenaState, user: nat)
    requires
        arena.wf(),
        arena.live.contains_key(user),
    ensures
        arena.deallocated(user).wf(),
        arena.live[user].size <= arena.used,
{
    let slot = arena.live[user];
    let after = arena.deallocated(user);
    live_size_remove(arena.live, user);
    total_with(arena.free, 0, slot);
    assert(tally::wrapped(arena.deallocations + 1) <= usize::MAX);
    assert(arena.base is Some);
    assert forall|i: int| 0 <= i < after.free.len() implies after.carved(
        #[trigger] after.free[i],
    ) by {
        if i > 0 {
            assert(after.free[i] == arena.free[i - 1]);
            assert(arena.carved(arena.free[i - 1]));
        } else {
            assert(arena.carved(slot));
        }
    }
    assert forall|other: nat| #[trigger] after.live.contains_key(other) implies {
        &&& after.carved(after.live[other])
        &&& after.live[other].start + MIN_SLOT_SIZE <= other < after.live[other].end()
    } by {
        assert(arena.live.contains_key(other));
    }
    assert forall|i: int, j: int|
        #![trigger after.free[i], after.free[j]]
        0 <= i < j < after.free.len() implies after.free[i].apart(after.free[j]) by {
        if i > 0 {
            assert(arena.free[i - 1].apart(arena.free[j - 1]));
        } else {
            assert(arena.live[user].apart(arena.free[j - 1]));
        }
    }
    assert forall|a: nat, b: nat|
        #![trigger after.live[a], after.live[b]]
        after.live.contains_key(a) && after.live.contains_key(b) && a != b implies
        after.live[a].apart(after.live[b]) by {
        assert(arena.live[a].apart(arena.live[b]));
    }
    assert forall|a: nat, i: int|
        #![trigger after.live[a], after.free[i]]
        after.live.contains_key(a) && 0 <= i < after.free.len() implies after.live[a].apart(
        after.free[i],
    ) by {
        if i > 0 {
            assert(arena.live[a].apart(arena.free[i - 1]));
        } else {
            assert(arena.live[a].apart(arena.live[user]));
        }
    }
}

/// Reserving bytes keeps an arena well formed.
pub proof fn reserving_keeps_wf(arena: ArenaState, locked: nat)
    requires
        arena.wf(),
        arena.used + locked <= arena.capacity,
    ensures
        (ArenaState { locked, ..arena }).wf(),
{
    let after = ArenaState { locked, ..arena };
    assert(arena.base is None ==> after =~= arena);
    same_slots_same_wf(arena, after);
}

/// What holds of the slots of an arena holds of every arena with the same slots.
proof fn same_slots_same_wf(arena: ArenaState, after: ArenaState)
    requires
        arena.slots_wf(),
        arena.slots_apart(),
        after.base == arena.base,
        after.offset == arena.offset,
        after.free == arena.free,
        after.live == arena.live,
    ensures
        after.slots_wf(),
        after.slots_apart(),
{
    assert forall|i: int| 0 <= i < after.free.len() implies after.carved(
        #[trigger] after.free[i],
    ) by {
        assert(arena.carved(arena.free[i]));
    }
    assert forall|user: nat| #[trigger] after.live.contains_key(user) implies {
        &&& after.carved(after.live[user])
        &&& after.live[user].start + MIN_SLOT_SIZE <= user < after.live[user].end()
    } by {
        assert(arena.live.contains_key(user));
    }
    assert forall|i: int, j: int|
        #![trigger after.free[i], after.free[j]]
        0 <= i < j < after.free.len() implies after.free[i].apart(after.free[j]) by {
        assert(arena.free[i].apart(arena.free[j]));
    }
    assert forall|a: nat, b: nat|
        #![trigger after.live[a], after.live[b]]
        after.live.contains_key(a) && after.live.contains_key(b) && a != b implies
        after.live[a].apart(after.live[b]) by {
        assert(arena.live[a].apart(arena.live[b]));
    }
    assert forall|a: nat, i: int|
        #![trigger after.live[a], after.free[i]]
        after.live.contains_key(a) && 0 <= i < after.free.len() implies after.live[a].apart(
        after.free[i],
    ) by {
        assert(arena.live[a].apart(arena.free[i]));
    }
}

/// Moving a slot within the list of free ones keeps the same addresses free.
proof fn moving_keeps_addresses(arena: ArenaState, from: int, to: int)
    requires
        0 <= to <= from < arena.free.len(),
    ensures
        arena::addresses(arena.moved(from, to).free) == arena::addresses(arena.free),
{
    let after = arena.moved(from, to);
    let back = |i: int|
        if i == to {
            from
        } else if to < i && i <= from {
            i - 1
        } else {
            i
        };
    assert forall|i: int| 0 <= i < after.free.len() implies {
        &&& #[trigger] after.free[i] == arena.free[back(i)]
        &&& 0 <= back(i) < arena.free.len()
    } by {}
    assert forall|address: int| #[trigger]
        arena::addresses(after.free).contains(address) == arena::addresses(arena.free).contains(
            address,
        ) by {
        if arena::addresses(after.free).contains(address) {
            let i = choose|i: int|
                0 <= i < after.free.len() && (#[trigger] after.free[i]).holds(address);
            assert(arena.free[back(i)].holds(address));
        }
        if arena::addresses(arena.free).contains(address) {
            let i = choose|i: int|
                0 <= i < arena.free.len() && (#[trigger] arena.free[i]).holds(address);
            let k = if i == from {
                to
            } else if to <= i && i < from {
                i + 1
            } else {
                i
            };
            assert(after.free[k].holds(address));
        }
    }
    assert(arena::addresses(after.free) =~= arena::addresses(arena.free));
}

/// Moving a slot within the list of free ones keeps an arena well formed, and the
/// same addresses free.
#[verifier::spinoff_prover]
pub proof fn moving_keeps_wf(arena: ArenaState, from: int, to: int)
    requires
        arena.wf(),
        0 <= to <= from < arena.free.len(),
    ensures
        arena.moved(from, to).wf(),
        arena::addresses(arena.moved(from, to).free) == arena::addresses(arena.free),
{
    let after = arena.moved(from, to);
    let slot = arena.free[from];
    total_without(arena.free, from);
    total_with(arena.free.remove(from), to, slot);
    let back = |i: int|
        if i == to {
            from
        } else if to < i && i <= from {
            i - 1
        } else {
            i
        };
    assert forall|i: int| 0 <= i < after.free.len() implies {
        &&& #[trigger] after.free[i] == arena.free[back(i)]
        &&& 0 <= back(i) < arena.free.len()
    } by {}
    assert forall|i: int| 0 <= i < after.free.len() implies after.carved(
        #[trigger] after.free[i],
    ) by {
        assert(arena.carved(arena.free[back(i)]));
    }
    assert forall|user: nat| #[trigger] after.live.contains_key(user) implies {
        &&& after.carved(after.live[user])
        &&& after.live[user].start + MIN_SLOT_SIZE <= user < after.live[user].end()
    } by {
        assert(arena.live.contains_key(user));
    }
    assert forall|i: int, j: int|
        #![trigger after.free[i], after.free[j]]
        0 <= i < j < after.free.len() implies after.free[i].apart(after.free[j]) by {
        if back(i) < back(j) {
            assert(arena.free[back(i)].apart(arena.free[back(j)]));
        } else {
            assert(arena.free[back(j)].apart(arena.free[back(i)]));
        }
    }
    assert forall|a: nat, b: nat|
        #![trigger after.live[a], after.live[b]]
        after.live.contains_key(a) && after.live.contains_key(b) && a != b implies
        after.live[a].apart(after.live[b]) by {
        assert(arena.live[a].apart(arena.live[b]));
    }
    assert forall|a: nat, i: int|
        #![trigger after.live[a], after.free[i]]
        after.live.contains_key(a) && 0 <= i < after.free.len() implies after.live[a].apart(
        after.free[i],
    ) by {
        assert(arena.live[a].apart(arena.free[back(i)]));
    }
    moving_keeps_addresses(arena, from, to);
}

/// Merging a free slot with the one that begins where it ends keeps the same addresses
/// free.
proof fn merging_keeps_addresses(arena: ArenaState, i: int)
    requires
        0 <= i < arena.free.len() - 1,
        arena.free[i].end() == arena.free[i + 1].start,
    ensures
        arena::addresses(arena.merged(i).free) == arena::addresses(arena.free),
{
    let after = arena.merged(i);
    let back = |k: int|
        if k <= i {
            k
        } else {
            k + 1
        };
    assert forall|k: int| 0 <= k < after.free.len() && k != i implies #[trigger] after.free[k]
        == arena.free[back(k)] by {}
    assert forall|address: int| #[trigger]
        arena::addresses(after.free).contains(address) == arena::addresses(arena.free).contains(
            address,
        ) by {
        if arena::addresses(after.free).contains(address) {
            let k = choose|k: int|
                0 <= k < after.free.len() && (#[trigger] after.free[k]).holds(address);
            if k == i {
                assert(arena.free[i].holds(address) || arena.free[i + 1].holds(address));
            } else {
                assert(arena.free[back(k)].holds(address));
            }
        }
        if arena::addresses(arena.free).contains(address) {
            let k = choose|k: int|
                0 <= k < arena.free.len() && (#[trigger] arena.free[k]).holds(address);
            if k == i || k == i + 1 {
                assert(after.free[i].holds(address));
            } else if k < i {
                assert(after.free[k].holds(address));
            } else {
                assert(after.free[k - 1].holds(address));
            }
        }
    }
    assert(arena::addresses(after.free) =~= arena::addresses(arena.free));
}

/// Merging a free slot with the one that begins where it ends keeps an arena well
/// formed, and the same addresses free.
#[verifier::spinoff_prover]
#[verifier::rlimit(40)]
pub proof fn merging_keeps_wf(arena: ArenaState, i: int)
    requires
        arena.wf(),
        0 <= i < arena.free.len() - 1,
        arena.free[i].end() == arena.free[i + 1].start,
    ensures
        arena.merged(i).wf(),
        arena::addresses(arena.merged(i).free) == arena::addresses(arena.free),
{
    let after = arena.merged(i);
    let first = arena.free[i];
    let second = arena.free[i + 1];
    let both = Slot { start: first.start, size: first.size + second.size };
    let fewer = arena.free.remove(i + 1);
    total_without(arena.free, i + 1);
    total_without(fewer, i);
    total_without(after.free, i);
    assert(fewer.remove(i) =~= after.free.remove(i));
    let back = |k: int|
        if k <= i {
            k
        } else {
            k + 1
        };
    assert(arena.carved(first));
    assert(arena.carved(second));
    assert forall|k: int| 0 <= k < after.free.len() && k != i implies #[trigger] after.free[k]
        == arena.free[back(k)] by {}
    assert(after.free[i] == both);
    assert forall|k: int| 0 <= k < after.free.len() implies after.carved(
        #[trigger] after.free[k],
    ) by {
        if k != i {
            assert(arena.carved(arena.free[back(k)]));
        }
    }
    assert forall|user: nat| #[trigger] after.live.contains_key(user) implies {
        &&& after.carved(after.live[user])
        &&& after.live[user].start + MIN_SLOT_SIZE <= user < after.live[user].end()
    } by {
        assert(arena.live.contains_key(user));
    }
    assert forall|a: int, b: int|
        #![trigger after.free[a], after.free[b]]
        0 <= a < b < after.free.len() implies after.free[a].apart(after.free[b]) by {
        if a == i {
            assert(arena.free[i].apart(arena.free[back(b)]));
            assert(arena.free[i + 1].apart(arena.free[back(b)]));
            assert(arena.carved(arena.free[back(b)]));
        } else if b == i {
            assert(arena.free[back(a)].apart(arena.free[i]));
            assert(arena.free[back(a)].apart(arena.free[i + 1]));
            assert(arena.carved(arena.free[back(a)]));
        } else {
            assert(arena.free[back(a)].apart(arena.free[back(b)]));
        }
    }
    assert forall|a: nat, b: nat|
        #![trigger after.live[a], after.live[b]]
        after.live.contains_key(a) && after.live.contains_key(b) && a != b implies
        after.live[a].apart(after.live[b]) by {
        assert(arena.live[a].apart(arena.live[b]));
    }
    assert forall|a: nat, k: int|
        #![trigger after.live[a], after.free[k]]
        after.live.contains_key(a) && 0 <= k < after.free.len() implies after.live[a].apart(
        after.free[k],
    ) by {
        if k == i {
            assert(arena.live[a].apart(arena.free[i]));
            assert(arena.live[a].apart(arena.free[i + 1]));
            assert(arena.carved(arena.live[a]));
        } else {
            assert(arena.live[a].apart(arena.free[back(k)]));
        }
    }
    merging_keeps_addresses(arena, i);
}

/// All bytes of the arena are accounted for: they are in use, on the free list, or
/// were never handed out. So no more bytes are in use than the arena has.
pub proof fn bytes_are_accounted_for(arena: ArenaState)
    requires
        arena.wf(),
    ensures
        arena.used + arena::total_size(arena.free) + (arena.capacity - arena.offset)
            == arena.capacity,
        arena.used <= arena.capacity,
        arena.used == arena::live_size(arena.live),
{
}

/// No byte is handed out twice: the slots of two addresses in use are apart, and apart
/// from everything that is free.
pub proof fn memory_in_use_is_apart(arena: ArenaState, a: nat, b: nat)
    requires
        arena.wf(),
        arena.live.contains_key(a),
        arena.live.contains_key(b),
        a != b,
    ensures
        arena.live[a].apart(arena.live[b]),
        forall|i: int|
            0 <= i < arena.free.len() ==> arena.live[a].apart(#[trigger] arena.free[i]),
{
}

/// Giving back what was just handed out leaves the same memory in use as before.
pub proof fn deallocating_undoes_allocating(arena: ArenaState, size: nat, align: nat)
    requires
        arena.wf(),
        arena::is_power_of_two(align),
        size > 0,
        arena.can_place(arena::slot_size(size, align)),
    ensures
        ({
            let after = arena.allocated(size, align).deallocated(arena.placement(size, align));
            &&& after.live == arena.live
            &&& after.used == arena.used
            &&& after.free_size() == arena.free_size()
        }),
{
    allocating_keeps_wf(arena, size, align);
    let user = arena.placement(size, align);
    assert(arena.allocated(size, align).live.remove(user) =~= arena.live);
}

/// Memory that was given back last is handed out first, wherever it is large enough.
pub proof fn freed_memory_is_reused_first(arena: ArenaState, user: nat, needed: nat)
    requires
        arena.wf(),
        arena.live.contains_key(user),
        needed <= arena.live[user].size,
    ensures
        arena.deallocated(user).chosen(needed) matches Some(slot) && slot.start
            == arena.live[user].start,
{
    let after = arena.deallocated(user);
    assert(after.free[0] == arena.live[user]);
}

/// An allocation leaves the reserve alone where it gets a slot of exactly the size
/// needed. A free slot that is too small to be cut is handed out whole, which goes
/// beyond that by one step of the slot alignment at most.
pub proof fn allocating_leaves_the_reserve(arena: ArenaState, size: nat, align: nat)
    requires
        arena.wf(),
        arena::is_power_of_two(align),
        arena.can_place(arena::slot_size(size, align)),
    ensures
        ({
            let needed = arena::slot_size(size, align);
            let after = arena.allocated(size, align);
            &&& arena.chosen(needed)->0.size == needed ==> after.used + after.locked
                <= after.capacity
            &&& after.used + after.locked <= after.capacity + SLOT_ALIGN
        }),
{
    let needed = arena::slot_size(size, align);
    memory_fits_its_slot(0, size, align);
    choosing_is_sound(arena, needed);
    let slot = arena.chosen(needed)->0;
    assert(slot.size == needed || slot.size == needed + SLOT_ALIGN);
}

/// The free list is due to be tidied with every 32nd slot that is given back.
pub proof fn defrag_is_due_regularly(arena: ArenaState, count: nat)
    requires
        arena.deallocations == tally::wrapped(count),
    ensures
        arena.defrag_due() == ((count + 1) % DEFRAG_INTERVAL as nat == 0),
{
    assert(usize::BITS == 32 || usize::BITS == 64);
    let groups: int = if usize::BITS == 32 { 0x800_0000 } else { 0x800_0000_0000_0000 };
    assert(usize::MAX + 1 == 32 * groups);
    vstd::arithmetic::div_mod::lemma_mod_mod(count as int, 32, groups);
}

/// What is tidy is determined by the addresses it holds: there is one way to list
/// free memory without slots that touch.
pub proof fn tidy_lists_are_determined(a: Seq<Slot>, b: Seq<Slot>)
    requires
        arena::tidy(a),
        arena::tidy(b),
        forall|i: int| 0 <= i < a.len() ==> (#[trigger] a[i]).size > 0,
        forall|i: int| 0 <= i < b.len() ==> (#[trigger] b[i]).size > 0,
        arena::addresses(a) == arena::addresses(b),
    ensures
        a == b,
    decreases a.len(),
{
    if a.len() == 0 {
        if b.len() > 0 {
            assert(b[0].holds(b[0].start as int));
            assert(arena::addresses(b).contains(b[0].start as int));
            assert(arena::addresses(a).contains(b[0].start as int));
        }
        assert(a =~= b);
    } else {
        assert(a[0].holds(a[0].start as int));
        assert(arena::addresses(a).contains(a[0].start as int));
        if b.len() == 0 {
            assert(arena::addresses(b).contains(a[0].start as int));
            assert(false);
        }
        assert(b[0].holds(b[0].start as int));
        assert(arena::addresses(b).contains(b[0].start as int));
        first_is_lowest(a, b[0].start as int);
        first_is_lowest(b, a[0].start as int);
        if a[0].end() < b[0].end() {
            gap_after_first(a);
            assert(b[0].holds(a[0].end() as int));
            assert(arena::addresses(b).contains(a[0].end() as int));
        }
        if b[0].end() < a[0].end() {
            gap_after_first(b);
            assert(a[0].holds(b[0].end() as int));
            assert(arena::addresses(a).contains(b[0].end() as int));
        }
        let ra = a.drop_first();
        let rb = b.drop_first();
        addresses_of_the_rest(a);
        addresses_of_the_rest(b);
        assert(arena::addresses(ra) =~= arena::addresses(rb));
        assert forall|i: int| 0 <= i < ra.len() implies (#[trigger] ra[i]).size > 0 by {
            assert(ra[i] == a[i + 1]);
        }
        assert forall|i: int| 0 <= i < rb.len() implies (#[trigger] rb[i]).size > 0 by {
            assert(rb[i] == b[i + 1]);
        }
        tidy_lists_are_determined(ra, rb);
        assert(a =~= seq![a[0]] + ra);
        assert(b =~= seq![b[0]] + rb);
    }
}

/// No address of a tidy list is below its first slot.
proof fn first_is_lowest(slots: Seq<Slot>, address: int)
    requires
        arena::tidy(slots),
        arena::addresses(slots).contains(address),
    ensures
        slots.len() > 0,
        slots[0].start <= address,
{
    let i = choose|i: int| 0 <= i < slots.len() && (#[trigger] slots[i]).holds(address);
    if i > 0 {
        assert(slots[0].end() < slots[i].start);
    }
}

/// Where the first slot of a tidy list ends, no other begins.
proof fn gap_after_first(slots: Seq<Slot>)
    requires
        arena::tidy(slots),
        slots.len() > 0,
    ensures
        !arena::addresses(slots).contains(slots[0].end() as int),
{
    let address = slots[0].end() as int;
    if arena::addresses(slots).contains(address) {
        let i = choose|i: int| 0 <= i < slots.len() && (#[trigger] slots[i]).holds(address);
        if i > 0 {
            assert(slots[0].end() < slots[i].start);
        }
    }
}

/// The addresses of a tidy list without its first slot are those that are not in it.
proof fn addresses_of_the_rest(slots: Seq<Slot>)
    requires
        arena::tidy(slots),
        slots.len() > 0,
    ensures
        arena::tidy(slots.drop_first()),
        forall|address: int| #[trigger]
            arena::addresses(slots.drop_first()).contains(address) == (arena::addresses(
                slots,
            ).contains(address) && !slots[0].holds(address)),
{
    let rest = slots.drop_first();
    assert forall|i: int, j: int| 0 <= i < j < rest.len() implies rest[i].end()
        < rest[j].start by {
        assert(slots[i + 1].end() < slots[j + 1].start);
    }
    assert forall|address: int| #[trigger]
        arena::addresses(rest).contains(address) == (arena::addresses(slots).contains(address)
            && !slots[0].holds(address)) by {
        if arena::addresses(rest).contains(address) {
            let i = choose|i: int| 0 <= i < rest.len() && (#[trigger] rest[i]).holds(address);
            assert(slots[i + 1].holds(address));
            assert(slots[0].end() < slots[i + 1].start);
        }
        if arena::addresses(slots).contains(address) && !slots[0].holds(address) {
            let i = choose|i: int| 0 <= i < slots.len() && (#[trigger] slots[i]).holds(address);
            assert(rest[i - 1].holds(address));
        }
    }
}

} // verus!
