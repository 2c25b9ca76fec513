//! The abstract state of a queue and what each operation makes of it.
use vstd::prelude::*;

use crate::errors::ErrorCode;
use crate::net::queue_config::ConfigUpdate;
use crate::tally;
use crate::wire;

verus! {

/// How long a row of leading tombstones may get before it is drained.
pub const MAGIC_DRAIN_VEC: usize = 10;

/// A stored message.
#[verifier::ext_equal]
pub struct MessageState {
    pub payload: Seq<u8>,
    pub publisher_id: u128,
    pub timestamp: u64,
    pub locked_by: Option<u128>,
}

/// A queue. `order` holds the ids of the stored messages in delivery order, with `0`
/// where a message was taken out (a tombstone); `next_id` is the message to deliver
/// next; `locks` lists, for each client that ever locked one, the messages it holds;
/// `last_id` is the id given out last, and `wrapped` tells whether ids have started
/// over since the first.
#[verifier::ext_equal]
pub struct QueueState {
    pub order: Seq<u128>,
    pub messages: Map<u128, MessageState>,
    pub locks: Map<u128, Seq<u128>>,
    pub next_id: Option<u128>,
    pub last_id: u128,
    pub wrapped: bool,
    pub auto_fail: bool,
    pub fail_timeout: u64,
    pub biggest_payloads: Seq<usize>,
}

/// The number of tombstones before the first live id.
pub open spec fn leading_zeroes(order: Seq<u128>) -> nat
    decreases order.len(),
{
    if order.len() == 0 || order[0] != 0 {
        0
    } else {
        1 + leading_zeroes(order.drop_first())
    }
}

/// Whether `id` names a message that is stored and that nobody holds a lock on.
pub open spec fn is_free(messages: Map<u128, MessageState>, id: u128) -> bool {
    messages.contains_key(id) && messages[id].locked_by is None
}

/// The ids in `order` that name messages to deliver, in order.
pub open spec fn free_ids(order: Seq<u128>, messages: Map<u128, MessageState>) -> Seq<u128>
    decreases order.len(),
{
    if order.len() == 0 {
        Seq::empty()
    } else if is_free(messages, order.last()) {
        free_ids(order.drop_last(), messages).push(order.last())
    } else {
        free_ids(order.drop_last(), messages)
    }
}

/// The first of some ids.
pub open spec fn first_of(ids: Seq<u128>) -> Option<u128> {
    if ids.len() > 0 {
        Some(ids[0])
    } else {
        None
    }
}

/// `order` without its leading tombstones, once there are enough of them.
pub open spec fn trimmed(order: Seq<u128>) -> Seq<u128> {
    let zeroes = leading_zeroes(order);
    if order.len() >= MAGIC_DRAIN_VEC && (zeroes == order.len() || zeroes >= MAGIC_DRAIN_VEC - 1) {
        order.skip(zeroes as int)
    } else {
        order
    }
}

/// `order` with a tombstone in place of the first occurrence of `id`.
pub open spec fn buried(order: Seq<u128>, id: u128) -> Seq<u128> {
    match order.index_of_first(id) {
        Some(i) => order.update(i, 0),
        None => order,
    }
}

/// `ids` without the first occurrence of `id`.
pub open spec fn without_first(ids: Seq<u128>, id: u128) -> Seq<u128> {
    match ids.index_of_first(id) {
        Some(i) => ids.remove(i),
        None => ids,
    }
}

/// The id that is given out after `last`: one more, or 1 again where there is none.
pub open spec fn id_after(last: u128) -> u128 {
    if last == u128::MAX {
        1
    } else {
        (last + 1) as u128
    }
}

/// The 56 bytes that describe a message: id, publisher, timestamp and lock
/// holder, with all ones for no holder.
pub open spec fn meta_bytes(id: u128, message: MessageState) -> Seq<u8> {
    wire::be_bytes(id as nat, 16) + wire::be_bytes(message.publisher_id as nat, 16) + wire::be_bytes(
        message.timestamp as nat,
        8,
    ) + wire::be_bytes(
        match message.locked_by {
            Some(client) => client as nat,
            None => u128::MAX as nat,
        },
        16,
    )
}

impl MessageState {
    /// This message with another lock holder.
    pub open spec fn held_by(self, holder: Option<u128>) -> Self {
        MessageState { locked_by: holder, ..self }
    }
}

impl QueueState {
    /// A queue without messages and with the default configuration.
    pub open spec fn empty() -> Self {
        QueueState {
            order: Seq::empty(),
            messages: Map::empty(),
            locks: Map::empty(),
            next_id: None,
            last_id: 0,
            wrapped: false,
            auto_fail: false,
            fail_timeout: 0,
            biggest_payloads: seq![0usize, 0usize, 0usize, 0usize, 0usize],
        }
    }

    /// What holds of every queue: the order lists the stored messages, each once; the
    /// locks are those that the messages tell of; the next message is the first that
    /// is free; as long as ids have not started over, they ascend; and the biggest
    /// payloads are in ascending order.
    pub open spec fn wf(self) -> bool {
        &&& self.messages.dom().finite()
        &&& self.locks.dom().finite()
        &&& self.order_wf()
        &&& self.locks_wf()
        &&& self.ids_wf()
        &&& self.next_id == first_of(self.waiting())
        &&& self.biggest_payloads.len() == 5
        &&& ascending(self.biggest_payloads)
    }

    /// Whether the order lists the stored messages, each once, and no others.
    pub open spec fn order_wf(self) -> bool {
        &&& forall|id: u128| #[trigger]
            self.messages.contains_key(id) ==> id != 0 && self.order.contains(id)
        &&& forall|i: int|
            #![trigger self.order[i]]
            0 <= i < self.order.len() && self.order[i] != 0 ==> self.messages.contains_key(
                self.order[i],
            )
        &&& forall|i: int, j: int|
            #![trigger self.order[i], self.order[j]]
            0 <= i < j < self.order.len() && self.order[i] != 0 ==> self.order[i] != self.order[j]
    }

    /// Whether each client's list holds the messages that are locked by it, each once,
    /// and no others.
    pub open spec fn locks_wf(self) -> bool {
        &&& forall|client: u128, id: u128| #[trigger]
            self.held(client).contains(id) <==> self.holds(client, id)
        &&& forall|client: u128| (#[trigger] self.held(client)).no_duplicates()
    }

    /// Whether ids ascend and none is above the last one given out, unless they have
    /// started over.
    pub open spec fn ids_wf(self) -> bool {
        !self.wrapped ==> {
            &&& forall|i: int|
                #![trigger self.order[i]]
                0 <= i < self.order.len() ==> self.order[i] <= self.last_id
            &&& forall|i: int, j: int|
                #![trigger self.order[i], self.order[j]]
                0 <= i < j < self.order.len() && self.order[j] != 0 ==> self.order[i]
                    < self.order[j]
        }
    }

    /// The messages to deliver, in order.
    pub open spec fn waiting(self) -> Seq<u128> {
        free_ids(self.order, self.messages)
    }

    /// The payloads of the messages to deliver, in order.
    pub open spec fn pending(self) -> Seq<Seq<u8>> {
        self.waiting().map_values(|id: u128| self.messages[id].payload)
    }

    /// Whether a stored message is locked by a client.
    pub open spec fn holds(self, client: u128, id: u128) -> bool {
        self.messages.contains_key(id) && self.messages[id].locked_by == Some(client)
    }

    /// The messages that a client holds locks on, oldest lock first.
    pub open spec fn held(self, client: u128) -> Seq<u128> {
        if self.locks.contains_key(client) {
            self.locks[client]
        } else {
            Seq::empty()
        }
    }

    /// The queue after the stored message `id` was taken out, with the lock on it.
    pub open spec fn without(self, id: u128) -> Self {
        let order = buried(self.order, id);
        let messages = self.messages.remove(id);
        QueueState {
            order,
            messages,
            locks: match self.messages[id].locked_by {
                Some(holder) => self.locks.insert(holder, without_first(self.held(holder), id)),
                None => self.locks,
            },
            next_id: first_of(free_ids(order, messages)),
            ..self
        }
    }

    /// The queue after a message was added at the end, under the id that is due. Where
    /// ids have started over, a message that still has this id is taken out first.
    pub open spec fn enqueued(self, payload: Seq<u8>, publisher_id: u128, timestamp: u64) -> Self {
        let id = id_after(self.last_id);
        let base = if self.messages.contains_key(id) {
            self.without(id)
        } else {
            self
        };
        QueueState {
            order: base.order.push(id),
            messages: base.messages.insert(
                id,
                MessageState { payload, publisher_id, timestamp, locked_by: None },
            ),
            next_id: if base.next_id is None {
                Some(id)
            } else {
                base.next_id
            },
            last_id: id,
            wrapped: self.wrapped || self.last_id == u128::MAX,
            ..base
        }
    }

    /// Why no message can be locked, if none can.
    pub open spec fn lock_error(self) -> Option<ErrorCode> {
        if self.next_id is None {
            Some(ErrorCode::QueueIsEmpty)
        } else {
            None
        }
    }

    /// The queue after `client` locked the next message.
    pub open spec fn locked_next(self, client: u128) -> Self {
        let id = self.next_id->0;
        let messages = self.messages.insert(id, self.messages[id].held_by(Some(client)));
        let next = first_of(free_ids(self.order, messages));
        QueueState {
            order: if next is None {
                trimmed(self.order)
            } else {
                self.order
            },
            messages,
            locks: self.locks.insert(client, self.held(client).push(id)),
            next_id: next,
            ..self
        }
    }

    /// What `client` is sent when it locks the next message.
    pub open spec fn delivery(self, client: u128) -> Seq<u8> {
        let id = self.next_id->0;
        let message = self.messages[id].held_by(Some(client));
        meta_bytes(id, message) + message.payload
    }

    /// Why nothing can be dequeued for `client`, if nothing can.
    pub open spec fn dequeue_error(self, client: u128, message_id: Option<u128>) -> Option<
        ErrorCode,
    > {
        if self.order.len() == 0 {
            Some(ErrorCode::QueueIsEmpty)
        } else {
            match message_id {
                Some(id) => if self.messages.contains_key(id) {
                    None
                } else {
                    Some(ErrorCode::NoSuchMessageId)
                },
                None => if !self.locks.contains_key(client) {
                    Some(ErrorCode::MessageNotLockedByClient)
                } else if self.locks[client].len() == 0 {
                    Some(ErrorCode::NoSuchMessageIdLocked)
                } else {
                    None
                },
            }
        }
    }

    /// The message that dequeuing for `client` takes out: the one named, or, where none
    /// is named, the one that the client has held longest.
    pub open spec fn dequeue_target(self, client: u128, message_id: Option<u128>) -> u128 {
        match message_id {
            Some(id) => id,
            None => self.locks[client][0],
        }
    }

    /// The queue after the stored message `id` was taken out for `client`. Leading
    /// tombstones are drained where the client held it.
    pub open spec fn deleted(self, client: u128, id: u128) -> Self {
        let after = self.without(id);
        QueueState {
            order: if self.held(client).contains(id) {
                trimmed(after.order)
            } else {
                after.order
            },
            ..after
        }
    }

    /// The queue after a message was dequeued for `client`.
    pub open spec fn dequeued(self, client: u128, message_id: Option<u128>) -> Self {
        self.deleted(client, self.dequeue_target(client, message_id))
    }

    /// Why nothing can be unlocked for `client`, if nothing can.
    pub open spec fn unlock_error(self, client: u128, message_id: Option<u128>) -> Option<
        ErrorCode,
    > {
        if self.order.len() == 0 {
            Some(ErrorCode::QueueIsEmpty)
        } else if !self.locks.contains_key(client) {
            Some(ErrorCode::MessageNotLockedByClient)
        } else if message_id matches Some(id) && !self.locks[client].contains(id) {
            Some(ErrorCode::MessageNotLockedByClient)
        } else {
            None
        }
    }

    /// The queue after `client` gave the lock on `id` back.
    pub open spec fn released(self, client: u128, id: u128) -> Self {
        let messages = self.messages.insert(id, self.messages[id].held_by(None));
        QueueState {
            messages,
            locks: self.locks.insert(client, without_first(self.locks[client], id)),
            next_id: first_of(free_ids(self.order, messages)),
            ..self
        }
    }

    /// The queue after an unlock for `client`: of the message named, else of the
    /// one it has held longest; unchanged where it holds none.
    pub open spec fn unlocked(self, client: u128, message_id: Option<u128>) -> Self {
        match message_id {
            Some(id) => self.released(client, id),
            None => if self.locks[client].len() == 0 {
                self
            } else {
                self.released(client, self.locks[client][0])
            },
        }
    }

    /// Why a stored message cannot be requeued or updated, if it cannot.
    pub open spec fn edit_error(self, id: u128) -> Option<ErrorCode> {
        if self.order.len() == 0 {
            Some(ErrorCode::QueueIsEmpty)
        } else if !self.messages.contains_key(id) {
            Some(ErrorCode::MessageNotInQueue)
        } else {
            None
        }
    }

    /// The queue after the stored message `id` was taken out from its place and
    /// enqueued again.
    pub open spec fn requeued(self, client: u128, id: u128, timestamp: u64) -> Self {
        let message = self.messages[id];
        self.deleted(client, id).enqueued(message.payload, message.publisher_id, timestamp)
    }

    /// The queue after the payload of the stored message `id` was replaced.
    pub open spec fn updated(self, id: u128, payload: Seq<u8>) -> Self {
        QueueState {
            messages: self.messages.insert(id, MessageState { payload, ..self.messages[id] }),
            ..self
        }
    }
}

/// The larger of two sizes.
pub open spec fn larger(a: usize, b: usize) -> usize {
    if a < b {
        b
    } else {
        a
    }
}

/// The smaller of two sizes.
pub open spec fn smaller(a: usize, b: usize) -> usize {
    if a < b {
        a
    } else {
        b
    }
}

/// The largest sizes among `biggest`, in ascending order, and `size`: each place
/// moves up as far as `size` and the place above it allow.
pub open spec fn with_size(biggest: Seq<usize>, size: usize) -> Seq<usize> {
    Seq::new(
        biggest.len(),
        |i: int|
            larger(
                biggest[i],
                if i + 1 < biggest.len() {
                    smaller(size, biggest[i + 1])
                } else {
                    size
                },
            ),
    )
}

/// The largest sizes among `biggest` and all of `sizes`.
pub open spec fn with_sizes(biggest: Seq<usize>, sizes: Map<u128, usize>) -> Seq<usize>
    decreases sizes.dom().len(),
{
    if sizes.dom().finite() && sizes.dom().len() > 0 {
        let id = sizes.dom().choose();
        with_size(with_sizes(biggest, sizes.remove(id)), sizes[id])
    } else {
        biggest
    }
}

/// The payload sizes of messages.
pub open spec fn payload_sizes(messages: Map<u128, MessageState>) -> Map<u128, usize> {
    messages.map_values(|message: MessageState| message.payload.len() as usize)
}

/// The bytes that a message counts for besides the room of its payload: 16 for
/// the publisher, 8 for the timestamp and 32 for the optional lock holder.
pub const MESSAGE_OVERHEAD: usize = 56;

/// The room that the allocator gave the parts of a queue, counted in entries
/// (in bytes for `payloads`).
pub struct Room {
    pub order: nat,
    pub messages: nat,
    pub locks: nat,
    pub payloads: Map<u128, nat>,
    pub lists: Map<u128, nat>,
}

impl Room {
    /// Whether there is room for all that the queue holds.
    pub open spec fn covers(self, queue: QueueState) -> bool {
        &&& self.order >= queue.order.len()
        &&& self.messages >= queue.messages.dom().len()
        &&& self.locks >= queue.locks.dom().len()
        &&& self.payloads.dom() == queue.messages.dom()
        &&& forall|id: u128| #[trigger]
            queue.messages.contains_key(id) ==> self.payloads[id]
                >= queue.messages[id].payload.len()
        &&& self.lists.dom() == queue.locks.dom()
        &&& forall|client: u128| #[trigger]
            queue.locks.contains_key(client) ==> self.lists[client] >= queue.locks[client].len()
    }

    /// The bytes of the messages `ids`.
    pub open spec fn message_bytes(self, ids: Set<u128>) -> nat {
        tally::map_sum(
            Map::new(|id: u128| ids.contains(id), |id: u128| self.payloads[id] + MESSAGE_OVERHEAD as nat),
        )
    }

    /// The bytes of the lock table: a key (with a quarter on top for the table
    /// itself) and a handle for each entry, and the ids in each list.
    pub open spec fn lock_bytes(self) -> nat {
        self.locks * 20 + self.locks * tally::word_size() + tally::map_sum(
            self.lists.map_values(|slots: nat| slots * 16),
        )
    }
}

impl QueueState {
    /// The queue after its configuration was updated.
    pub open spec fn configured(self, update: ConfigUpdate) -> Self {
        QueueState {
            auto_fail: match update.auto_fail {
                Some(value) => value,
                None => self.auto_fail,
            },
            fail_timeout: match update.fail_timeout {
                Some(value) => value,
                None => self.fail_timeout,
            },
            ..self
        }
    }

    /// The queue after the sizes of its messages were noted.
    pub open spec fn sized(self) -> Self {
        QueueState {
            biggest_payloads: with_sizes(self.biggest_payloads, payload_sizes(self.messages)),
            ..self
        }
    }

    /// The least room for what the queue holds.
    pub open spec fn least_room(self) -> Room {
        Room {
            order: self.order.len(),
            messages: self.messages.dom().len(),
            locks: self.locks.dom().len(),
            payloads: self.messages.map_values(|message: MessageState| message.payload.len()),
            lists: self.locks.map_values(|ids: Seq<u128>| ids.len()),
        }
    }

    /// The bytes of the whole queue.
    pub open spec fn total_bytes(self, room: Room) -> nat {
        room.order * 16 + room.messages * 20 + room.message_bytes(self.messages.dom())
            + room.lock_bytes()
    }

    /// The messages that some client holds a lock on.
    pub open spec fn locked_ids(self) -> Set<u128> {
        self.messages.dom().filter(|id: u128| self.messages[id].locked_by is Some)
    }

    /// The bytes of the locked messages and of the lock table.
    pub open spec fn locked_bytes(self, room: Room) -> nat {
        self.locked_ids().len() * 20 + room.message_bytes(self.locked_ids()) + room.lock_bytes()
    }

    /// The number of locks held, over all clients.
    pub open spec fn total_locks(self) -> nat {
        tally::map_sum(self.locks.map_values(|ids: Seq<u128>| ids.len()))
    }
}

/// Whether a sequence never descends.
pub open spec fn ascending(s: Seq<usize>) -> bool {
    forall|i: int, j: int| 0 <= i <= j < s.len() ==> s[i] <= s[j]
}

} // verus!
