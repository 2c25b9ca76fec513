//! The abstract state of the memory arena, and what holds of it.
//!
//! The arena hands out slots. A slot starts with padding and a header of
//! `HEADER_SIZE` bytes, which ends where the memory that the user gets begins. Slots
//! that were given back wait on the free list; the bytes above `offset` were never
//! handed out.
use vstd::prelude::*;

use crate::tally;

verus! {

/// The size of the header in front of the user's memory, of the smallest slot, and of
/// what a free slot has to have room for.
pub const MIN_SLOT_SIZE: usize = 16;

/// What the addresses and sizes of all slots are multiples of.
pub const SLOT_ALIGN: usize = 8;

/// The number of slots given back after which the free list is tidied.
pub const DEFRAG_INTERVAL: usize = 32;

/// A stretch of memory.
pub struct Slot {
    pub start: nat,
    pub size: nat,
}

impl Slot {
    /// The first address behind the slot.
    pub open spec fn end(self) -> nat {
        self.start + self.size
    }

    /// Whether two slots have no byte in common.
    pub open spec fn apart(self, other: Self) -> bool {
        self.end() <= other.start || other.end() <= self.start
    }

    /// Whether an address lies in the slot.
    pub open spec fn holds(self, address: int) -> bool {
        self.start <= address < self.end()
    }
}

/// Whether `n` is a power of two.
pub open spec fn is_power_of_two(n: nat) -> bool
    decreases n,
{
    n == 1 || (n > 1 && n % 2 == 0 && is_power_of_two(n / 2))
}

/// The smallest multiple of `align` that is not below `value`.
pub open spec fn round_up(value: nat, align: nat) -> nat {
    (value + align - 1) as nat / align * align
}

/// The size of the slot that memory of this size and alignment takes: room for the
/// header, the worst padding and the memory itself.
pub open spec fn slot_size(size: nat, align: nat) -> nat {
    round_up((MIN_SLOT_SIZE + (align - 1) + size) as nat, SLOT_ALIGN as nat)
}

/// Where the user's memory begins in a slot that begins at `start`.
pub open spec fn user_address(start: nat, align: nat) -> nat {
    round_up(start + MIN_SLOT_SIZE as nat, align)
}

/// The total size of slots.
pub open spec fn total_size(slots: Seq<Slot>) -> nat
    decreases slots.len(),
{
    if slots.len() == 0 {
        0
    } else {
        total_size(slots.drop_last()) + slots.last().size
    }
}

/// The total size of slots that are in use.
pub open spec fn live_size(live: Map<nat, Slot>) -> nat {
    tally::map_sum(live.map_values(|slot: Slot| slot.size))
}

/// The addresses that slots hold.
pub open spec fn addresses(slots: Seq<Slot>) -> Set<int> {
    Set::new(|address: int| exists|i: int| 0 <= i < slots.len() && (#[trigger] slots[i]).holds(address))
}

/// The index of the first slot that has at least the given size.
pub open spec fn first_fit(slots: Seq<Slot>, needed: nat) -> Option<int>
    decreases slots.len(),
{
    if slots.len() == 0 {
        None
    } else if slots[0].size >= needed {
        Some(0)
    } else {
        match first_fit(slots.drop_first(), needed) {
            Some(i) => Some(i + 1),
            None => None,
        }
    }
}

/// Whether slots are in ascending order.
pub open spec fn ascending(slots: Seq<Slot>) -> bool {
    forall|i: int, j: int| 0 <= i < j < slots.len() ==> slots[i].start < slots[j].start
}

/// Whether slots are in ascending order and no two of them touch.
pub open spec fn tidy(slots: Seq<Slot>) -> bool {
    forall|i: int, j: int| 0 <= i < j < slots.len() ==> slots[i].end() < slots[j].start
}

/// The state of the arena. `live` gives, for each address that was handed out, the
/// slot it lies in.
#[verifier::ext_equal]
pub struct ArenaState {
    pub base: Option<nat>,
    pub capacity: nat,
    pub used: nat,
    pub offset: nat,
    pub locked: nat,
    pub deallocations: nat,
    pub free: Seq<Slot>,
    pub live: Map<nat, Slot>,
}

impl ArenaState {
    /// The arena before it was given memory.
    pub open spec fn empty() -> Self {
        ArenaState {
            base: None,
            capacity: 0,
            used: 0,
            offset: 0,
            locked: 0,
            deallocations: 0,
            free: Seq::empty(),
            live: Map::empty(),
        }
    }

    /// The arena after it was given memory.
    pub open spec fn initialized(self, base: nat, capacity: nat) -> Self {
        ArenaState { base: Some(base), capacity, ..self }
    }

    /// Whether a slot lies among the bytes that were handed out, in its place.
    pub open spec fn carved(self, slot: Slot) -> bool {
        &&& self.base->0 <= slot.start
        &&& slot.end() <= self.base->0 + self.offset
        &&& slot.start % SLOT_ALIGN as nat == 0
        &&& slot.size % SLOT_ALIGN as nat == 0
        &&& slot.size >= MIN_SLOT_SIZE
    }

    /// What holds of every arena: all slots lie below the offset, no two of them
    /// share a byte, together they make up all bytes below the offset, and the
    /// bytes in use are counted.
    pub open spec fn wf(self) -> bool {
        &&& self.base is None ==> self == ArenaState::empty()
        &&& self.base matches Some(base) ==> base > 0 && base % SLOT_ALIGN as nat == 0 && base
            + self.capacity <= usize::MAX
        &&& self.offset <= self.capacity
        &&& self.offset % SLOT_ALIGN as nat == 0
        &&& self.locked <= self.capacity
        &&& self.deallocations <= usize::MAX
        &&& self.live.dom().finite()
        &&& self.used == live_size(self.live)
        &&& self.used + total_size(self.free) == self.offset
        &&& self.slots_wf()
        &&& self.slots_apart()
    }

    /// Whether every slot is in its place and every user's memory in its slot.
    pub open spec fn slots_wf(self) -> bool {
        &&& forall|i: int| 0 <= i < self.free.len() ==> self.carved(#[trigger] self.free[i])
        &&& forall|user: nat| #[trigger]
            self.live.contains_key(user) ==> {
                &&& self.carved(self.live[user])
                &&& self.live[user].start + MIN_SLOT_SIZE <= user < self.live[user].end()
            }
    }

    /// Whether no two slots share a byte.
    pub open spec fn slots_apart(self) -> bool {
        &&& forall|i: int, j: int|
            #![trigger self.free[i], self.free[j]]
            0 <= i < j < self.free.len() ==> self.free[i].apart(self.free[j])
        &&& forall|a: nat, b: nat|
            #![trigger self.live[a], self.live[b]]
            self.live.contains_key(a) && self.live.contains_key(b) && a != b
                ==> self.live[a].apart(self.live[b])
        &&& forall|a: nat, i: int|
            #![trigger self.live[a], self.free[i]]
            self.live.contains_key(a) && 0 <= i < self.free.len() ==> self.live[a].apart(
                self.free[i],
            )
    }

    /// Whether so many more bytes may be used, with the reserve left alone.
    pub open spec fn admits(self, needed: nat) -> bool {
        self.used + needed <= self.capacity - self.locked
    }

    /// The slot to hand out where one of this size is needed: the first free slot
    /// that is large enough, cut to size if what is left of it can be a slot, or
    /// else bytes that were never handed out.
    pub open spec fn chosen(self, needed: nat) -> Option<Slot> {
        match first_fit(self.free, needed) {
            Some(i) => if self.free[i].size - needed >= MIN_SLOT_SIZE {
                Some(Slot { start: self.free[i].start, size: needed })
            } else {
                Some(self.free[i])
            },
            None => if self.offset + needed <= self.capacity {
                Some(Slot { start: self.base->0 + self.offset, size: needed })
            } else {
                None
            },
        }
    }

    /// The arena after the chosen slot was taken away.
    pub open spec fn without_chosen(self, needed: nat) -> Self {
        match first_fit(self.free, needed) {
            Some(i) => if self.free[i].size - needed >= MIN_SLOT_SIZE {
                ArenaState {
                    free: self.free.update(
                        i,
                        Slot {
                            start: self.free[i].start + needed,
                            size: (self.free[i].size - needed) as nat,
                        },
                    ),
                    ..self
                }
            } else {
                ArenaState { free: self.free.remove(i), ..self }
            },
            None => ArenaState { offset: self.offset + needed, ..self },
        }
    }

    /// Whether memory that takes a slot of this size can be handed out.
    pub open spec fn can_place(self, needed: nat) -> bool {
        self.base is Some && self.admits(needed) && self.chosen(needed) is Some
    }

    /// The address that is handed out.
    pub open spec fn placement(self, size: nat, align: nat) -> nat {
        user_address(self.chosen(slot_size(size, align))->0.start, align)
    }

    /// The arena after memory was handed out.
    pub open spec fn allocated(self, size: nat, align: nat) -> Self {
        let needed = slot_size(size, align);
        let slot = self.chosen(needed)->0;
        ArenaState {
            used: self.used + slot.size,
            live: self.live.insert(self.placement(size, align), slot),
            ..self.without_chosen(needed)
        }
    }

    /// Whether an address belongs to the arena.
    pub open spec fn owns(self, address: nat) -> bool {
        self.base matches Some(base) && base <= address < base + self.capacity
    }

    /// The arena after memory was given back.
    pub open spec fn deallocated(self, user: nat) -> Self {
        let slot = self.live[user];
        ArenaState {
            used: (self.used - slot.size) as nat,
            deallocations: tally::wrapped(self.deallocations + 1),
            free: self.free.insert(0, slot),
            live: self.live.remove(user),
            ..self
        }
    }

    /// The arena with its free slots listed otherwise.
    pub open spec fn with_free(self, free: Seq<Slot>) -> Self {
        ArenaState { free, ..self }
    }

    /// The arena after one free slot moved to another place in the list.
    pub open spec fn moved(self, from: int, to: int) -> Self {
        self.with_free(self.free.remove(from).insert(to, self.free[from]))
    }

    /// The arena after a free slot was merged with the one behind it in the list.
    pub open spec fn merged(self, i: int) -> Self {
        let both = Slot {
            start: self.free[i].start,
            size: self.free[i].size + self.free[i + 1].size,
        };
        self.with_free(self.free.remove(i + 1).update(i, both))
    }

    /// Whether giving memory back now is the occasion to tidy the free list.
    pub open spec fn defrag_due(self) -> bool {
        self.deallocations % DEFRAG_INTERVAL as nat == DEFRAG_INTERVAL - 1
    }

    /// How many bytes are not in use; without an arena there is no limit.
    pub open spec fn free_size(self) -> nat {
        if self.capacity == 0 {
            usize::MAX as nat
        } else {
            (self.capacity - self.used) as nat
        }
    }
}

} // verus!
