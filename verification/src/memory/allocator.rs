//! The arena allocator: which memory to hand out, and what to do with memory that
//! is given back. It never touches the memory itself.
use vstd::prelude::*;

use crate::memory::arena;
use crate::memory::arena::{ArenaState, Slot, DEFRAG_INTERVAL, MIN_SLOT_SIZE, SLOT_ALIGN};
use crate::memory::laws;
use crate::tally;

verus! {

/// The size of the arena where the configuration gives none.
pub const ARENA_MAX: u64 = 8_589_934_592;

/// What an arena has to be larger than on Windows.
pub const ARENA_MIN_WINDOWS: u64 = 1_073_741_824;

/// What memory is asked for.
#[derive(Debug, Clone, Copy, PartialEq, Eq, Structural)]
pub struct Layout {
    pub size: usize,
    pub align: usize,
}

impl Layout {
    /// What holds of every request: some memory is asked for, the alignment is a
    /// power of two, and the size stays in range when it is rounded up to it.
    pub open spec fn wf(self) -> bool {
        &&& self.size > 0
        &&& arena::is_power_of_two(self.align as nat)
        &&& self.size + self.align - 1 <= isize::MAX
    }
}

/// What is written in front of the user's memory, so that its slot is found again.
#[derive(Debug, Clone, Copy, PartialEq, Eq, Structural)]
pub struct AllocHeader {
    /// The bytes from the start of the slot to the user's memory.
    pub slot_offset: usize,
    /// The size of the slot.
    pub slot_size: usize,
}

impl AllocHeader {
    /// The slot that is meant by this header in front of `user`.
    pub open spec fn slot(self, user: nat) -> Slot {
        Slot { start: (user - self.slot_offset) as nat, size: self.slot_size as nat }
    }

    /// Whether this header in front of `user` describes a slot in the arena.
    pub open spec fn lies_in(self, arena: ArenaState, user: nat) -> bool {
        &&& self.slot_offset <= user
        &&& arena.base->0 <= user - self.slot_offset
        &&& user - self.slot_offset + self.slot_size <= arena.base->0 + arena.capacity
    }

    /// The header of a slot, for the user's memory at `user`.
    pub open spec fn of(slot: Slot, user: nat) -> Self {
        AllocHeader { slot_offset: (user - slot.start) as usize, slot_size: slot.size as usize }
    }
}

/// The header that is written in front of memory is enough to find its slot again.
pub proof fn header_finds_the_slot(arena: ArenaState, user: nat)
    requires
        arena.wf(),
        arena.live.contains_key(user),
    ensures
        arena.owns(user),
        AllocHeader::of(arena.live[user], user).slot(user) == arena.live[user],
        AllocHeader::of(arena.live[user], user).lies_in(arena, user),
{
    assert(arena.carved(arena.live[user]));
}

/// Memory that is handed out: its address, and the header to write right in front
/// of it.
#[derive(Debug, Clone, Copy, PartialEq, Eq, Structural)]
pub struct Placement {
    pub user: usize,
    pub header: AllocHeader,
}

/// What came of asking for memory.
#[derive(Debug, Clone, Copy, PartialEq, Eq, Structural)]
pub enum AllocOutcome {
    /// There is no arena yet: the system allocator is in charge.
    System,
    /// There is no room.
    Refused,
    /// Here it is.
    Placed(Placement),
}

/// What came of giving memory back.
#[derive(Debug, Clone, Copy, PartialEq, Eq, Structural)]
pub enum DeallocOutcome {
    /// The memory is not the arena's: the system allocator is in charge.
    System,
    /// The header does not describe a slot of the arena.
    Rejected,
    /// The memory is free again, and the free list is due to be tidied or not.
    Freed { defrag: bool },
}

/// The systems whose rules on the size of an arena differ.
#[derive(Debug, Clone, Copy, PartialEq, Eq, Structural)]
pub enum Platform {
    Unix,
    Windows,
}

/// Why an arena cannot be set up.
#[derive(Debug, Clone, Copy, PartialEq, Eq, Structural)]
pub enum InitError {
    TooSmall,
    CalledTwice,
}

impl Platform {
    /// Whether an arena may have this size.
    pub open spec fn accepts(self, arena_size: nat) -> bool {
        match self {
            Platform::Unix => arena_size >= ARENA_MAX,
            Platform::Windows => arena_size > ARENA_MIN_WINDOWS,
        }
    }
}

/// A slot on the free list.
#[derive(Debug, Clone, Copy, PartialEq, Eq, Structural)]
struct FreeNode {
    addr: usize,
    size: usize,
}

impl View for FreeNode {
    type V = Slot;

    closed spec fn view(&self) -> Slot {
        Slot { start: self.addr as nat, size: self.size as nat }
    }
}

/// The slots of a free list.
spec fn slots_of(nodes: Seq<FreeNode>) -> Seq<Slot> {
    nodes.map_values(|node: FreeNode| node@)
}

/// The allocator's books.
pub struct MemAllocator {
    base: Option<usize>,
    allocated: usize,
    used: usize,
    offset: usize,
    locked_size: usize,
    dealloc_count: usize,
    free_list: Vec<FreeNode>,
    live: Ghost<Map<nat, Slot>>,
}

impl View for MemAllocator {
    type V = ArenaState;

    closed spec fn view(&self) -> ArenaState {
        ArenaState {
            base: match self.base {
                Some(base) => Some(base as nat),
                None => None,
            },
            capacity: self.allocated as nat,
            used: self.used as nat,
            offset: self.offset as nat,
            locked: self.locked_size as nat,
            deallocations: self.dealloc_count as nat,
            free: slots_of(self.free_list@),
            live: self.live@,
        }
    }
}

/// The smallest multiple of `align` that is not below `value`.
pub fn align_up(value: usize, align: usize) -> (rounded: usize)
    requires
        arena::is_power_of_two(align as nat),
        value + align - 1 <= usize::MAX,
    ensures
        rounded == arena::round_up(value as nat, align as nat),
{
    let sum: usize = value + (align - 1);
    proof {
        laws::rounding_up(value as nat, align as nat);
        vstd::arithmetic::div_mod::lemma_fundamental_div_mod(sum as int, align as int);
        vstd::arithmetic::mul::lemma_mul_is_commutative(
            sum as int / align as int,
            align as int,
        );
    }
    sum - sum % align
}

/// The size of the slot that a request takes.
pub fn required_slot_size(layout: Layout) -> (needed: Option<usize>)
    requires
        layout.wf(),
    ensures
        needed == Some(arena::slot_size(layout.size as nat, layout.align as nat) as usize),
        needed->0 as nat == arena::slot_size(layout.size as nat, layout.align as nat),
{
    let worst: usize = match MIN_SLOT_SIZE.checked_add(layout.align - 1) {
        Some(padded) => match padded.checked_add(layout.size) {
            Some(worst) => worst,
            None => {
                return None;
            },
        },
        None => {
            return None;
        },
    };
    proof {
        laws::slot_align_is_a_power_of_two();
    }
    Some(align_up(worst, SLOT_ALIGN))
}

/// Where the user's memory begins in a slot, and the header to write in front of it.
pub fn place_header(slot: usize, slot_size: usize, layout: Layout) -> (placement: Placement)
    requires
        arena::is_power_of_two(layout.align as nat),
        slot + MIN_SLOT_SIZE + layout.align - 1 <= usize::MAX,
    ensures
        placement.user == arena::user_address(slot as nat, layout.align as nat),
        placement.header.slot_offset == placement.user - slot,
        placement.header.slot_size == slot_size,
{
    let user: usize = align_up(slot + MIN_SLOT_SIZE, layout.align);
    proof {
        laws::rounding_up((slot + MIN_SLOT_SIZE) as nat, layout.align as nat);
    }
    Placement { user, header: AllocHeader { slot_offset: user - slot, slot_size } }
}

impl MemAllocator {
    /// An allocator without an arena.
    pub fn new() -> (allocator: Self)
        ensures
            allocator@ == ArenaState::empty(),
            allocator@.wf(),
    {
        let allocator = MemAllocator {
            base: None,
            allocated: 0,
            used: 0,
            offset: 0,
            locked_size: 0,
            dealloc_count: 0,
            free_list: Vec::new(),
            live: Ghost(Map::empty()),
        };
        proof {
            assert(allocator@ =~= ArenaState::empty());
            laws::initializing_gives_wf(8, 0);
        }
        allocator
    }

    /// Counts `needed` bytes as used, if that leaves the reserve alone.
    fn reserve_used(&mut self, needed: usize) -> (reserved: bool)
        requires
            old(self)@.wf(),
        ensures
            reserved == old(self)@.admits(needed as nat),
            final(self)@ == (ArenaState {
                used: if reserved {
                    old(self)@.used + needed as nat
                } else {
                    old(self)@.used
                },
                ..old(self)@
            }),
    {
        let ceiling: usize = match self.allocated.checked_sub(self.locked_size) {
            Some(ceiling) => ceiling,
            None => {
                return false;
            },
        };
        match self.used.checked_add(needed) {
            Some(used) => {
                if used <= ceiling {
                    self.used = used;
                    true
                } else {
                    false
                }
            },
            None => false,
        }
    }

    /// Hands out memory. What is handed out is aligned as asked for, lies in the
    /// arena, and has nothing in common with any other memory in use.
    pub fn allocate(&mut self, layout: Layout) -> (outcome: AllocOutcome)
        requires
            old(self)@.wf(),
            layout.wf(),
        ensures
            final(self)@.wf(),
            ({
                let size = layout.size as nat;
                let align = layout.align as nat;
                if old(self)@.base is None {
                    outcome is System && final(self)@ == old(self)@
                } else if old(self)@.can_place(arena::slot_size(size, align)) {
                    &&& outcome matches AllocOutcome::Placed(placement)
                    &&& placement.user == old(self)@.placement(size, align)
                    &&& placement.header == AllocHeader::of(
                        final(self)@.live[placement.user as nat],
                        placement.user as nat,
                    )
                    &&& final(self)@ == old(self)@.allocated(size, align)
                } else {
                    outcome is Refused && final(self)@ == old(self)@
                }
            }),
    {
        if self.base.is_none() {
            return AllocOutcome::System;
        }
        let ghost size = layout.size as nat;
        let ghost align = layout.align as nat;
        let needed: usize = match required_slot_size(layout) {
            Some(needed) => needed,
            None => {
                return AllocOutcome::Refused;
            },
        };
        if !self.reserve_used(needed) {
            assert(self@ =~= old(self)@);
            return AllocOutcome::Refused;
        }
        proof {
            laws::memory_fits_its_slot(0, size, align);
            laws::first_fit_fits(old(self)@.free, needed as nat);
            if old(self)@.can_place(needed as nat) {
                laws::allocating_keeps_wf(old(self)@, size, align);
            }
        }
        let slot: FreeNode = match self.alloc_from_free_list(needed) {
            Some(slot) => slot,
            None => match self.alloc_from_bump(needed) {
                Some(slot) => slot,
                None => {
                    self.used = self.used - needed;
                    assert(self@ =~= old(self)@);
                    return AllocOutcome::Refused;
                },
            },
        };
        proof {
            laws::rounding_up((slot.addr + MIN_SLOT_SIZE) as nat, align);
        }
        let placement = place_header(slot.addr, slot.size, layout);
        proof {
            self.live@ = self.live@.insert(placement.user as nat, slot@);
            assert(self@ =~= old(self)@.allocated(size, align));
        }
        AllocOutcome::Placed(placement)
    }

    /// Takes the first free slot that is large enough off the free list, cut to
    /// size if what is left of it can be a slot. `needed` bytes count as used
    /// already; what the slot has besides is counted here.
    fn alloc_from_free_list(&mut self, needed: usize) -> (slot: Option<FreeNode>)
        requires
            old(self)@.slots_wf(),
            old(self)@.base is Some,
            old(self)@.base->0 + old(self)@.offset <= usize::MAX,
            old(self)@.used + SLOT_ALIGN <= usize::MAX,
            needed % SLOT_ALIGN == 0,
        ensures
            match arena::first_fit(old(self)@.free, needed as nat) {
                Some(i) => {
                    &&& slot matches Some(slot)
                    &&& Some(slot@) == old(self)@.chosen(needed as nat)
                    &&& final(self)@ == (ArenaState {
                        used: (old(self)@.used + slot@.size - needed) as nat,
                        ..old(self)@.without_chosen(needed as nat)
                    })
                },
                None => slot is None && final(self)@ == old(self)@,
            },
    {
        let ghost free = self@.free;
        let mut i: usize = 0;
        proof {
            laws::first_fit_fits(free, needed as nat);
        }
        while i < self.free_list.len()
            invariant
                i <= self.free_list@.len(),
                self@ == old(self)@,
                free == old(self)@.free,
                free == slots_of(self.free_list@),
                self@.slots_wf(),
                self@.base is Some,
                self@.base->0 + self@.offset <= usize::MAX,
                self@.used + SLOT_ALIGN <= usize::MAX,
                needed % SLOT_ALIGN == 0,
                match arena::first_fit(free, needed as nat) {
                    Some(k) => {
                        &&& i <= k < free.len()
                        &&& free[k].size >= needed
                        &&& forall|j: int| 0 <= j < k ==> (#[trigger] free[j]).size < needed
                    },
                    None => forall|j: int|
                        0 <= j < free.len() ==> (#[trigger] free[j]).size < needed,
                },
            decreases self.free_list@.len() - i,
        {
            let node = self.free_list[i];
            assert(free[i as int] == node@);
            assert(self@.carved(free[i as int]));
            if node.size >= needed {
                assert(arena::first_fit(free, needed as nat) == Some(i as int));
                let leftover: usize = node.size - needed;
                if leftover >= MIN_SLOT_SIZE {
                    self.free_list.set(i, FreeNode { addr: node.addr + needed, size: leftover });
                    let slot = FreeNode { addr: node.addr, size: needed };
                    assert(self@ =~= old(self)@.without_chosen(needed as nat));
                    return Some(slot);
                }
                self.free_list.remove(i);
                self.used = self.used + leftover;
                assert(self@.free =~= free.remove(i as int));
                return Some(node);
            }
            i = i + 1;
        }
        None
    }

    /// Takes a slot from the bytes that were never handed out.
    fn alloc_from_bump(&mut self, needed: usize) -> (slot: Option<FreeNode>)
        requires
            old(self)@.base matches Some(base) && base >= SLOT_ALIGN,
            old(self)@.base->0 + old(self)@.capacity <= usize::MAX,
            old(self)@.offset <= old(self)@.capacity,
            old(self)@.offset % SLOT_ALIGN as nat == 0,
            arena::first_fit(old(self)@.free, needed as nat) is None,
        ensures
            match old(self)@.chosen(needed as nat) {
                Some(chosen) => {
                    &&& slot matches Some(slot)
                    &&& slot@ == chosen
                    &&& final(self)@ == old(self)@.without_chosen(needed as nat)
                },
                None => slot is None && final(self)@ == old(self)@,
            },
    {
        let base: usize = match self.base {
            Some(base) => base,
            None => {
                return None;
            },
        };
        proof {
            laws::rounding_up_a_multiple(self.offset as nat, SLOT_ALIGN as nat);
            laws::slot_align_is_a_power_of_two();
        }
        let slot_start: usize = align_up(self.offset, SLOT_ALIGN);
        match slot_start.checked_add(needed) {
            Some(next) => {
                if next > self.allocated {
                    return None;
                }
                self.offset = next;
                assert(self@ =~= old(self)@.without_chosen(needed as nat));
                Some(FreeNode { addr: base + slot_start, size: needed })
            },
            None => None,
        }
    }

    /// Takes memory back whose header was read from right in front of it. An
    /// address that the arena does not own is left to the system allocator,
    /// whatever was read; see `owns`.
    pub fn deallocate(&mut self, user: usize, header: AllocHeader) -> (outcome: DeallocOutcome)
        requires
            old(self)@.wf(),
            old(self)@.owns(user as nat) && header.lies_in(old(self)@, user as nat) ==> {
                &&& old(self)@.live.contains_key(user as nat)
                &&& old(self)@.live[user as nat] == header.slot(user as nat)
            },
        ensures
            final(self)@.wf(),
            if !old(self)@.owns(user as nat) {
                outcome is System && final(self)@ == old(self)@
            } else if !header.lies_in(old(self)@, user as nat) {
                outcome is Rejected && final(self)@ == old(self)@
            } else {
                &&& outcome == (DeallocOutcome::Freed { defrag: old(self)@.defrag_due() })
                &&& final(self)@ == old(self)@.deallocated(user as nat)
            },
    {
        if !self.owns(user) {
            return DeallocOutcome::System;
        }
        let base: usize = match self.base {
            Some(base) => base,
            None => {
                return DeallocOutcome::System;
            },
        };
        if header.slot_offset > user {
            return DeallocOutcome::Rejected;
        }
        let slot_start: usize = user - header.slot_offset;
        match slot_start.checked_add(header.slot_size) {
            Some(slot_end) => {
                if slot_start < base || slot_end > base + self.allocated {
                    return DeallocOutcome::Rejected;
                }
            },
            None => {
                return DeallocOutcome::Rejected;
            },
        }
        proof {
            laws::deallocating_keeps_wf(old(self)@, user as nat);
        }
        let defrag: bool = self.dealloc_count % DEFRAG_INTERVAL == DEFRAG_INTERVAL - 1;
        self.free_list.insert(0, FreeNode { addr: slot_start, size: header.slot_size });
        self.used = self.used - header.slot_size;
        self.dealloc_count = tally::sum_words(self.dealloc_count, 1);
        proof {
            self.live@ = self.live@.remove(user as nat);
            assert(self@ =~= old(self)@.deallocated(user as nat));
        }
        DeallocOutcome::Freed { defrag }
    }

    /// Whether an address belongs to the arena.
    pub fn owns(&self, address: usize) -> (owned: bool)
        requires
            self@.wf(),
        ensures
            owned == self@.owns(address as nat),
    {
        match self.base {
            Some(base) => base <= address && address < base + self.allocated,
            None => false,
        }
    }

    /// Puts the free list in the order of addresses.
    fn sort_free_list(&mut self)
        requires
            old(self)@.wf(),
        ensures
            final(self)@.wf(),
            final(self)@ == old(self)@.with_free(final(self)@.free),
            arena::addresses(final(self)@.free) == arena::addresses(old(self)@.free),
            arena::ascending(final(self)@.free),
    {
        let mut i: usize = 0;
        assert(self@ =~= old(self)@.with_free(self@.free));
        while i < self.free_list.len()
            invariant
                i <= self.free_list@.len(),
                self@.wf(),
                self@ == old(self)@.with_free(self@.free),
                arena::addresses(self@.free) == arena::addresses(old(self)@.free),
                forall|a: int, b: int|
                    0 <= a < b < i ==> self@.free[a].start < self@.free[b].start,
            decreases self.free_list@.len() - i,
        {
            let ghost before = self@;
            let node = self.free_list[i];
            let mut place: usize = 0;
            while place < i && self.free_list[place].addr < node.addr
                invariant
                    place <= i < self.free_list@.len(),
                    self@ == before,
                    node@ == before.free[i as int],
                    forall|a: int| 0 <= a < place ==> (#[trigger] before.free[a]).start < node.addr,
                decreases i - place,
            {
                assert(before.free[place as int] == self.free_list@[place as int]@);
                place = place + 1;
            }
            proof {
                assert(place < i ==> before.free[place as int]
                    == self.free_list@[place as int]@);
                laws::moving_keeps_wf(before, i as int, place as int);
                assert(before.carved(before.free[i as int]));
                assert forall|a: int| place <= a < i implies node.addr < (
                #[trigger] before.free[a]).start by {
                    assert(before.free[a].apart(before.free[i as int]));
                    assert(before.carved(before.free[a]));
                    assert(a > place ==> before.free[place as int].start < before.free[a].start);
                }
            }
            self.free_list.remove(i);
            self.free_list.insert(place, node);
            proof {
                assert(self@ =~= before.moved(i as int, place as int));
                assert forall|a: int, b: int| 0 <= a < b < i + 1 implies self@.free[a].start
                    < self@.free[b].start by {
                    let j = if a < place { a } else { a - 1 };
                    let k = if b < place { b } else { b - 1 };
                    if a != place && b != place {
                        assert(self@.free[a] == before.free[j]);
                        assert(self@.free[b] == before.free[k]);
                    } else if a == place {
                        assert(self@.free[b] == before.free[k]);
                    } else {
                        assert(self@.free[a] == before.free[a]);
                    }
                }
            }
            i = i + 1;
        }
    }
}

/// Tidies the free list: puts it in the order of addresses and merges slots that
/// touch. The same bytes are free as before.
pub fn defragment(allocator: &mut MemAllocator)
    requires
        old(allocator)@.wf(),
    ensures
        final(allocator)@.wf(),
        final(allocator)@ == old(allocator)@.with_free(final(allocator)@.free),
        arena::addresses(final(allocator)@.free) == arena::addresses(old(allocator)@.free),
        arena::tidy(final(allocator)@.free),
{
    allocator.sort_free_list();
    let mut i: usize = 0;
    while i < allocator.free_list.len() && i + 1 < allocator.free_list.len()
        invariant
            i <= allocator.free_list@.len(),
            allocator@.wf(),
            allocator@ == old(allocator)@.with_free(allocator@.free),
            arena::addresses(allocator@.free) == arena::addresses(old(allocator)@.free),
            arena::ascending(allocator@.free),
            forall|a: int, b: int|
                0 <= a < b <= i && b < allocator@.free.len() ==> allocator@.free[a].end()
                    < allocator@.free[b].start,
            i == 0 || i < allocator.free_list@.len(),
        decreases allocator.free_list@.len() - i,
    {
        let ghost before = allocator@;
        let node = allocator.free_list[i];
        let next = allocator.free_list[i + 1];
        proof {
            assert(before.free[i as int] == node@);
            assert(before.free[i + 1] == next@);
            assert(before.carved(before.free[i as int]));
            assert(before.carved(before.free[i + 1]));
            assert(before.free[i as int].apart(before.free[i + 1]));
        }
        if node.addr + node.size == next.addr {
            proof {
                laws::merging_keeps_wf(before, i as int);
            }
            allocator.free_list.remove(i + 1);
            allocator.free_list.set(i, FreeNode { addr: node.addr, size: node.size + next.size });
            proof {
                let after = allocator@;
                assert(after =~= before.merged(i as int));
                assert forall|a: int, b: int| 0 <= a < b < after.free.len() implies
                    after.free[a].start < after.free[b].start by {
                    let k = if b <= i { b } else { b + 1 };
                    let j = if a <= i { a } else { a + 1 };
                    assert(before.free[j].start < before.free[k].start);
                }
                assert forall|a: int, b: int|
                    0 <= a < b <= i && b < after.free.len() implies after.free[a].end()
                    < after.free[b].start by {
                    assert(after.free[a] == before.free[a]);
                    assert(after.free[b].start == before.free[b].start);
                }
            }
        } else {
            i = i + 1;
            proof {
                assert forall|a: int, b: int|
                    0 <= a < b <= i && b < before.free.len() implies before.free[a].end()
                    < before.free[b].start by {
                    if b == i {
                        if a < i - 1 {
                            assert(before.free[a].end() < before.free[i - 1].start);
                        }
                    }
                }
            }
        }
    }
}

/// Why an arena of this size cannot be set up, if it cannot.
pub fn init_error(allocator: &MemAllocator, platform: Platform, arena_size: usize) -> (error: Option<
    InitError,
>)
    ensures
        error == if !platform.accepts(arena_size as nat) {
            Some(InitError::TooSmall)
        } else if allocator@.base is Some {
            Some(InitError::CalledTwice)
        } else {
            None
        },
{
    let accepted: bool = match platform {
        Platform::Unix => arena_size as u64 >= ARENA_MAX,
        Platform::Windows => arena_size as u64 > ARENA_MIN_WINDOWS,
    };
    if !accepted {
        Some(InitError::TooSmall)
    } else if allocator.base.is_some() {
        Some(InitError::CalledTwice)
    } else {
        None
    }
}

/// Gives the allocator its arena: `arena_size` bytes of memory at `base`.
pub fn init(allocator: &mut MemAllocator, platform: Platform, base: usize, arena_size: usize)
    requires
        old(allocator)@.wf(),
        old(allocator)@.base is None,
        platform.accepts(arena_size as nat),
        base > 0,
        base % SLOT_ALIGN == 0,
        base + arena_size <= usize::MAX,
    ensures
        final(allocator)@.wf(),
        final(allocator)@ == old(allocator)@.initialized(base as nat, arena_size as nat),
{
    proof {
        laws::initializing_gives_wf(base as nat, arena_size as nat);
    }
    allocator.base = Some(base);
    allocator.allocated = arena_size;
    assert(allocator@ =~= old(allocator)@.initialized(base as nat, arena_size as nat));
}

/// How many bytes of the arena are not in use; without an arena there is no limit.
pub fn get_free_mem_size(allocator: &MemAllocator) -> (size: usize)
    requires
        allocator@.wf(),
    ensures
        size == allocator@.free_size(),
{
    if allocator.allocated == 0 {
        return usize::MAX;
    }
    allocator.allocated - allocator.used
}

/// Reserves `size` bytes that allocations leave alone, if that many are not in use.
pub fn set_locked_size(allocator: &mut MemAllocator, size: usize) -> (reserved: bool)
    requires
        old(allocator)@.wf(),
    ensures
        final(allocator)@.wf(),
        reserved == (old(allocator)@.used + size <= old(allocator)@.capacity),
        final(allocator)@ == (ArenaState {
            locked: if reserved {
                size as nat
            } else {
                old(allocator)@.locked
            },
            ..old(allocator)@
        }),
{
    match allocator.used.checked_add(size) {
        Some(total) => {
            if total > allocator.allocated {
                return false;
            }
        },
        None => {
            return false;
        },
    }
    allocator.locked_size = size;
    proof {
        laws::reserving_keeps_wf(old(allocator)@, size as nat);
    }
    true
}

} // verus!
