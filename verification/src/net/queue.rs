//! Queues of messages that clients lock, acknowledge and give back.
use vstd::prelude::*;

use bytes::BytesMut;
use std::collections::HashMap;

use crate::errors::ErrorCode;
use crate::net::laws;
use crate::net::model;
use crate::net::model::{MessageState, QueueState, Room, MAGIC_DRAIN_VEC, MESSAGE_OVERHEAD};
use crate::net::queue_config::QueueConfig;
use crate::outside;
use crate::outside::{buffer_slice, clock_millis, list_capacity, map_capacity};
use crate::tally;
use crate::wire::{push_all, push_be};

verus! {

broadcast use vstd::std_specs::hash::group_hash_axioms;

/// A stored message.
#[derive(Debug, Clone, PartialEq)]
pub struct QueueMessage {
    payload: BytesMut,
    publisher_id: u128,
    timestamp: u64,
    locked_by: Option<u128>,
}

/// What there is to know of a message besides its payload.
#[derive(Debug, Clone)]
pub struct MessageMeta {
    pub id: u128,
    pub publisher_id: u128,
    pub timestamp: u64,
    pub locked_by: Option<u128>,
}

/// A queue of messages.
#[derive(Debug, Clone)]
pub struct Queue {
    order: Vec<u128>,
    queue: HashMap<u128, QueueMessage>,
    locked: HashMap<u128, Vec<u128>>,
    next_id: Option<u128>,
    last_id: u128,
    wrapped: bool,
    config: QueueConfig,
    biggest_payloads: [usize; 5],
}

impl View for QueueMessage {
    type V = MessageState;

    closed spec fn view(&self) -> MessageState {
        MessageState {
            payload: outside::buffer_bytes(self.payload),
            publisher_id: self.publisher_id,
            timestamp: self.timestamp,
            locked_by: self.locked_by,
        }
    }
}

impl View for Queue {
    type V = QueueState;

    closed spec fn view(&self) -> QueueState {
        QueueState {
            order: self.order@,
            messages: self.queue@.map_values(|message: QueueMessage| message@),
            locks: self.locked@.map_values(|ids: Vec<u128>| ids@),
            next_id: self.next_id,
            last_id: self.last_id,
            wrapped: self.wrapped,
            auto_fail: self.config.auto_fail,
            fail_timeout: self.config.fail_timeout,
            biggest_payloads: self.biggest_payloads@,
        }
    }
}

impl QueueMessage {
    /// An unlocked message with the given timestamp.
    pub fn with_timestamp(payload: BytesMut, publisher_id: u128, timestamp: u64) -> (message: Self)
        ensures
            message@ == (MessageState {
                payload: outside::buffer_bytes(payload),
                publisher_id,
                timestamp,
                locked_by: None,
            }),
    {
        QueueMessage { payload, publisher_id, timestamp, locked_by: None }
    }

    /// An unlocked message with the time of the clock.
    pub fn new(payload: BytesMut, publisher_id: u128) -> (message: Self)
        ensures
            message@ == (MessageState {
                payload: outside::buffer_bytes(payload),
                publisher_id,
                timestamp: message@.timestamp,
                locked_by: None,
            }),
    {
        QueueMessage::with_timestamp(payload, publisher_id, now_millis())
    }

    /// Whether some client holds a lock on the message.
    pub fn is_locked(&self) -> (locked: bool)
        ensures
            locked == (self@.locked_by is Some),
    {
        self.locked_by.is_some()
    }

    /// The bytes that the message counts for: the room that its payload was given,
    /// and a fixed overhead.
    pub fn deep_size_of(&self) -> (size: usize)
        ensures
            size >= self@.payload.len() + MESSAGE_OVERHEAD || size == usize::MAX,
            exists|room: nat|
                room >= self@.payload.len() && size == #[trigger] tally::capped(
                    room + MESSAGE_OVERHEAD as nat,
                ),
    {
        let room: usize = self.payload.capacity();
        assert(room as nat >= self@.payload.len());
        message_bytes_for(room)
    }

    /// Hands the lock to the client `id`.
    pub fn lock(&mut self, id: u128)
        ensures
            final(self)@ == old(self)@.held_by(Some(id)),
    {
        self.locked_by = Some(id);
    }

    /// Takes the lock away.
    pub fn unlock(&mut self)
        ensures
            final(self)@ == old(self)@.held_by(None),
    {
        self.locked_by = None;
    }
}

impl PartialEq<u128> for QueueMessage {
    /// A message equals the client that holds its lock.
    fn eq(&self, client_id: &u128) -> (held: bool) {
        match self.locked_by {
            Some(id) => id == *client_id,
            None => false,
        }
    }
}

impl vstd::std_specs::cmp::PartialEqSpecImpl<u128> for QueueMessage {
    open spec fn obeys_eq_spec() -> bool {
        true
    }

    open spec fn eq_spec(&self, client_id: &u128) -> bool {
        self@.locked_by == Some(*client_id)
    }
}

impl MessageMeta {
    /// The state of a message that this describes, with the given payload.
    pub open spec fn with_payload(self, payload: Seq<u8>) -> MessageState {
        MessageState {
            payload,
            publisher_id: self.publisher_id,
            timestamp: self.timestamp,
            locked_by: self.locked_by,
        }
    }

    /// A description made of its parts.
    pub fn new(id: u128, publisher_id: u128, timestamp: u64, locked_by: Option<u128>) -> (meta: Self)
        ensures
            meta == (MessageMeta { id, publisher_id, timestamp, locked_by }),
    {
        MessageMeta { id, publisher_id, timestamp, locked_by }
    }

    /// The 56 bytes that stand for this description on the wire.
    pub fn to_be_bytes(&self) -> (bytes: Vec<u8>)
        ensures
            bytes@ == model::meta_bytes(self.id, self.with_payload(Seq::empty())),
    {
        let mut bytes: Vec<u8> = Vec::with_capacity(56);
        push_be(&mut bytes, self.id, 16);
        push_be(&mut bytes, self.publisher_id, 16);
        push_be(&mut bytes, self.timestamp as u128, 8);
        let holder: u128 = match self.locked_by {
            Some(id) => id,
            None => u128::MAX,
        };
        push_be(&mut bytes, holder, 16);
        assert(bytes@ =~= model::meta_bytes(self.id, self.with_payload(Seq::empty())));
        bytes
    }
}

/// Whether `list` describes each of `messages` exactly once.
pub open spec fn describes(list: Seq<MessageMeta>, messages: Map<u128, MessageState>) -> bool {
    &&& list.len() == messages.dom().len()
    &&& forall|i: int, j: int| 0 <= i < j < list.len() ==> list[i].id != list[j].id
    &&& forall|i: int|
        #![trigger list[i]]
        0 <= i < list.len() ==> {
            &&& messages.contains_key(list[i].id)
            &&& list[i].with_payload(messages[list[i].id].payload) == messages[list[i].id]
        }
}

/// The description of a stored message, as bytes.
fn get_meta_as_vec(message_id: u128, message: &QueueMessage) -> (bytes: Vec<u8>)
    ensures
        bytes@ == model::meta_bytes(message_id, message@),
{
    MessageMeta::new(message_id, message.publisher_id, message.timestamp, message.locked_by)
        .to_be_bytes()
}

/// The milliseconds since the epoch, 0 where the clock stands before it.
pub(crate) fn now_millis() -> u64 {
    timestamp_of(clock_millis())
}

/// The timestamp for what the clock shows: the milliseconds since the epoch, 0 where
/// it stands before the epoch.
pub fn timestamp_of(reading: Option<u64>) -> (timestamp: u64)
    ensures
        timestamp == match reading {
            Some(millis) => millis,
            None => 0,
        },
{
    match reading {
        Some(millis) => millis,
        None => 0,
    }
}

/// The index of the first occurrence of `id`.
fn position(ids: &Vec<u128>, id: u128) -> (index: Option<usize>)
    ensures
        match index {
            Some(i) => ids@.index_of_first(id) == Some(i as int) && i < ids.len() && ids@[i as int]
                == id,
            None => ids@.index_of_first(id) is None && !ids@.contains(id),
        },
{
    let mut i: usize = 0;
    while i < ids.len()
        invariant
            i <= ids@.len(),
            forall|j: int| 0 <= j < i ==> ids@[j] != id,
        decreases ids@.len() - i,
    {
        if ids[i] == id {
            proof {
                ids@.index_of_first_ensures(id);
            }
            return Some(i);
        }
        i = i + 1;
    }
    proof {
        ids@.index_of_first_ensures(id);
    }
    None
}

/// The keys of a map, in no particular order.
fn key_list<V>(map: &HashMap<u128, V>) -> (keys: Vec<u128>)
    ensures
        keys@.no_duplicates(),
        keys@.to_set() == map@.dom(),
        keys@.len() == map@.dom().len(),
{
    let mut keys: Vec<u128> = Vec::with_capacity(map.len());
    for key in iter: map.keys()
        invariant
            iter.seq() == vstd::std_specs::iter::IteratorSpec::remaining(&map.keys()),
            keys@ =~= iter.seq().unref().take(iter.index()),
    {
        keys.push(*key);
    }
    proof {
        let walked = vstd::std_specs::iter::IteratorSpec::remaining(&map.keys());
        assert(keys@ =~= walked.unref());
        assert forall|i: int, j: int|
            0 <= i < keys@.len() && 0 <= j < keys@.len() && i != j implies keys@[i] != keys@[j] by {
            assert(walked[i] != walked[j]);
        }
    }
    keys
}

/// Puts `size` in its place among the biggest ones, and drops the smallest.
fn note_size(biggest: &mut [usize; 5], size: usize)
    requires
        model::ascending(old(biggest)@),
    ensures
        final(biggest)@ == model::with_size(old(biggest)@, size),
{
    let mut place: usize = 5;
    while place > 0
        invariant
            place <= 5,
            biggest@ == old(biggest)@,
            biggest@.len() == 5,
            model::ascending(old(biggest)@),
            forall|i: int| place <= i < 5 ==> size <= biggest@[i],
        decreases place,
    {
        if size > biggest[place - 1] {
            let mut i: usize = 0;
            while i + 1 < place
                invariant
                    i < place <= 5,
                    biggest@.len() == 5,
                    forall|k: int| 0 <= k < i ==> biggest@[k] == old(biggest)@[k + 1],
                    forall|k: int| i <= k < 5 ==> biggest@[k] == old(biggest)@[k],
                decreases place - i,
            {
                biggest[i] = biggest[i + 1];
                i = i + 1;
            }
            biggest[place - 1] = size;
            assert forall|k: int| 0 <= k < 5 implies biggest@[k] == model::with_size(
                old(biggest)@,
                size,
            )[k] by {
                if k < place - 1 {
                    assert(old(biggest)@[k] <= old(biggest)@[k + 1] <= old(biggest)@[place - 1]);
                }
            }
            assert(biggest@ =~= model::with_size(old(biggest)@, size));
            return;
        }
        place = place - 1;
    }
    assert(biggest@ =~= model::with_size(old(biggest)@, size));
}

/// The number of tombstones before the first live id.
fn count_leading_zeroes(ids: &Vec<u128>) -> (count: usize)
    ensures
        count == model::leading_zeroes(ids@),
        count <= ids@.len(),
{
    let mut i: usize = 0;
    assert(ids@.skip(0) =~= ids@);
    while i < ids.len() && ids[i] == 0
        invariant
            i <= ids@.len(),
            model::leading_zeroes(ids@) == i + model::leading_zeroes(ids@.skip(i as int)),
        decreases ids@.len() - i,
    {
        assert(ids@.skip(i as int).drop_first() =~= ids@.skip(i + 1));
        i = i + 1;
    }
    i
}

/// Removes the first occurrence of `id`.
fn remove_first(ids: &mut Vec<u128>, id: u128)
    ensures
        final(ids)@ == model::without_first(old(ids)@, id),
{
    if let Some(i) = position(ids, id) {
        ids.remove(i);
    }
}

/// The bytes that a message counts for whose payload was given `room` bytes.
pub fn message_bytes_for(room: usize) -> (size: usize)
    ensures
        size == tally::capped(room as nat + MESSAGE_OVERHEAD as nat),
{
    tally::add_capped(room, MESSAGE_OVERHEAD)
}

/// The bytes of the entries of a lock table: 16 for a key, a quarter of that for
/// the table itself, and a machine word for the handle of a list.
pub fn table_bytes(capacity: usize) -> (bytes: usize)
    ensures
        bytes == tally::capped(capacity as nat * 20 + capacity as nat * tally::word_size()),
{
    let keys: usize = tally::scale_capped(capacity, 20);
    let handles: usize = tally::scale_capped(capacity, tally::word_bytes());
    tally::add_capped(keys, handles)
}

/// The bytes of a queue: 16 for each place in its order, 20 for each entry of its
/// message table (a key and a quarter on top), its messages and its locks.
pub fn queue_bytes(order: usize, messages: usize, payloads: usize, locked: usize) -> (bytes: usize)
    ensures
        bytes == tally::capped(
            order as nat * 16 + messages as nat * 20 + payloads as nat + locked as nat,
        ),
{
    let places: usize = tally::scale_capped(order, 16);
    let entries: usize = tally::scale_capped(messages, 20);
    let table: usize = tally::add_capped(places, entries);
    let stored: usize = tally::add_capped(table, payloads);
    tally::add_capped(stored, locked)
}

/// The bytes of `count` locked messages: 20 for each entry, the messages
/// themselves and the locks.
pub fn held_bytes(count: usize, payloads: usize, locked: usize) -> (bytes: usize)
    ensures
        bytes == tally::capped(count as nat * 20 + payloads as nat + locked as nat),
{
    let entries: usize = tally::scale_capped(count, 20);
    let stored: usize = tally::add_capped(entries, payloads);
    tally::add_capped(stored, locked)
}

impl Queue {
    /// An empty queue.
    pub fn new() -> (queue: Self)
        ensures
            queue@ == QueueState::empty(),
            queue@.wf(),
    {
        let queue = Queue {
            order: Vec::new(),
            queue: HashMap::new(),
            locked: HashMap::new(),
            next_id: None,
            last_id: 0,
            wrapped: false,
            config: QueueConfig::new(),
            biggest_payloads: [0, 0, 0, 0, 0],
        };
        assert(queue@ =~= QueueState::empty());
        queue
    }

    /// Whether unacknowledged messages are given back by themselves.
    pub fn get_config_auto_fail(&self) -> (value: bool)
        ensures
            value == self@.auto_fail,
    {
        self.config.auto_fail
    }

    /// After how many milliseconds they are.
    pub fn get_config_fail_timeout(&self) -> (value: u64)
        ensures
            value == self@.fail_timeout,
    {
        self.config.fail_timeout
    }

    /// Sets whether unacknowledged messages are given back by themselves.
    pub fn update_config_auto_fail(&mut self, value: bool)
        ensures
            final(self)@ == (QueueState { auto_fail: value, ..old(self)@ }),
            old(self)@.wf() ==> final(self)@.wf(),
    {
        self.config.auto_fail = value;
        proof {
            laws::configuring_keeps_wf(old(self)@, value, old(self)@.fail_timeout);
        }
    }

    /// Sets after how many milliseconds they are.
    pub fn update_config_fail_timeout(&mut self, value: u64)
        ensures
            final(self)@ == (QueueState { fail_timeout: value, ..old(self)@ }),
            old(self)@.wf() ==> final(self)@.wf(),
    {
        self.config.fail_timeout = value;
        proof {
            laws::configuring_keeps_wf(old(self)@, old(self)@.auto_fail, value);
        }
    }

    /// The first message in the order that is stored and that nobody holds.
    fn find_next(&self) -> (id: Option<u128>)
        ensures
            id == model::first_of(self@.waiting()),
    {
        let mut i: usize = 0;
        while i < self.order.len()
            invariant
                i <= self.order@.len(),
                forall|k: int|
                    0 <= k < i ==> !model::is_free(self@.messages, #[trigger] self@.order[k]),
            decreases self.order@.len() - i,
        {
            let id: u128 = self.order[i];
            assert(self@.order[i as int] == id);
            if let Some(message) = self.queue.get(&id) {
                if !message.is_locked() {
                    proof {
                        laws::first_free_is_first(self@.order, self@.messages, i as int);
                    }
                    return Some(id);
                }
            }
            i = i + 1;
        }
        proof {
            laws::nothing_free(self@.order, self@.messages);
        }
        None
    }

    /// Takes the stored message `id` out, with the lock on it.
    fn take_out(&mut self, id: u128) -> (message: QueueMessage)
        requires
            old(self)@.wf(),
            old(self)@.messages.contains_key(id),
        ensures
            final(self)@ == old(self)@.without(id),
            final(self)@.wf(),
            message@ == old(self)@.messages[id],
    {
        proof {
            laws::removing_keeps_wf(old(self)@, id);
        }
        let message = self.queue.remove(&id).unwrap();
        if let Some(i) = position(&self.order, id) {
            self.order.set(i, 0);
        }
        if let Some(holder) = message.locked_by {
            let mut ids: Vec<u128> = match self.locked.remove(&holder) {
                Some(ids) => ids,
                None => Vec::new(),
            };
            assert(ids@ =~= old(self)@.held(holder));
            remove_first(&mut ids, id);
            self.locked.insert(holder, ids);
        }
        assert(self@.order =~= old(self)@.without(id).order);
        assert(self@.messages =~= old(self)@.without(id).messages);
        self.next_id = self.find_next();
        assert(self@ =~= old(self)@.without(id));
        message
    }

    /// Adds a message with the given timestamp at the end of the queue.
    pub fn enqueue_at(&mut self, payload: BytesMut, publisher_id: u128, timestamp: u64) -> (result:
        Result<(), ErrorCode>)
        requires
            old(self)@.wf(),
        ensures
            result is Ok,
            final(self)@ == old(self)@.enqueued(
                outside::buffer_bytes(payload),
                publisher_id,
                timestamp,
            ),
            final(self)@.wf(),
    {
        proof {
            laws::enqueuing_keeps_wf(
                old(self)@,
                outside::buffer_bytes(payload),
                publisher_id,
                timestamp,
            );
        }
        let id: u128 = if self.last_id == u128::MAX {
            self.wrapped = true;
            1
        } else {
            self.last_id + 1
        };
        let ghost marked = self@;
        if self.queue.contains_key(&id) {
            proof {
                laws::marking_keeps_wf(old(self)@, marked.wrapped);
            }
            self.take_out(id);
        }
        self.last_id = id;
        if self.next_id.is_none() {
            self.next_id = Some(id);
        }
        self.order.push(id);
        let message = QueueMessage::with_timestamp(payload, publisher_id, timestamp);
        self.queue.insert(id, message);
        assert(self@ =~= old(self)@.enqueued(
            outside::buffer_bytes(payload),
            publisher_id,
            timestamp,
        ));
        Ok(())
    }

    /// Adds a message at the end of the queue, with the time of the clock.
    pub fn enqueue(&mut self, payload: BytesMut, publisher_id: u128) -> (result: Result<
        (),
        ErrorCode,
    >)
        requires
            old(self)@.wf(),
        ensures
            result is Ok,
            exists|timestamp: u64|
                final(self)@ == #[trigger] old(self)@.enqueued(
                    outside::buffer_bytes(payload),
                    publisher_id,
                    timestamp,
                ),
            final(self)@.wf(),
    {
        self.enqueue_at(payload, publisher_id, now_millis())
    }

    /// Locks the next message for `client_id` and gives out its description and
    /// payload, along with its id.
    pub fn lock_to_read(&mut self, client_id: u128) -> (result: Result<
        (Vec<u8>, Option<u128>),
        ErrorCode,
    >)
        requires
            old(self)@.wf(),
        ensures
            final(self)@.wf(),
            match old(self)@.lock_error() {
                Some(error) => result == Err::<(Vec<u8>, Option<u128>), ErrorCode>(error)
                    && final(self)@ == old(self)@,
                None => {
                    &&& result matches Ok((bytes, id))
                    &&& bytes@ == old(self)@.delivery(client_id)
                    &&& id == old(self)@.next_id
                    &&& final(self)@ == old(self)@.locked_next(client_id)
                },
            },
    {
        let id: u128 = match self.next_id {
            Some(id) => id,
            None => {
                return Err(ErrorCode::QueueIsEmpty);
            },
        };
        proof {
            laws::next_is_free(old(self)@);
            laws::locking_keeps_wf(old(self)@, client_id);
        }
        let mut message = self.queue.remove(&id).unwrap();
        message.lock(client_id);
        let mut bytes: Vec<u8> = get_meta_as_vec(id, &message);
        push_all(&mut bytes, buffer_slice(&message.payload));
        self.queue.insert(id, message);
        let mut ids: Vec<u128> = match self.locked.remove(&client_id) {
            Some(ids) => ids,
            None => Vec::new(),
        };
        ids.push(id);
        self.locked.insert(client_id, ids);
        assert(self@.messages =~= old(self)@.locked_next(client_id).messages);
        self.next_id = self.find_next();
        if self.next_id.is_none() {
            self.remove_zeroes();
        }
        assert(self@ =~= old(self)@.locked_next(client_id));
        Ok((bytes, Some(id)))
    }

    /// Takes a message out for `client_id` and gives its payload's length: the
    /// message named, or, where none is named, the one that the client has held
    /// longest. Any client may name any message.
    pub fn dequeue(&mut self, client_id: u128, message_id: Option<u128>) -> (result: Result<
        usize,
        ErrorCode,
    >)
        requires
            old(self)@.wf(),
        ensures
            final(self)@.wf(),
            match old(self)@.dequeue_error(client_id, message_id) {
                Some(error) => result == Err::<usize, ErrorCode>(error) && final(self)@ == old(
                    self,
                )@,
                None => {
                    &&& result matches Ok(len)
                    &&& len == old(self)@.messages[old(self)@.dequeue_target(
                        client_id,
                        message_id,
                    )].payload.len()
                    &&& final(self)@ == old(self)@.dequeued(client_id, message_id)
                },
            },
    {
        if self.order.is_empty() {
            return Err(ErrorCode::QueueIsEmpty);
        }
        let id: u128 = match message_id {
            Some(id) => {
                if !self.queue.contains_key(&id) {
                    return Err(ErrorCode::NoSuchMessageId);
                }
                id
            },
            None => match self.locked.get(&client_id) {
                Some(ids) => {
                    if ids.is_empty() {
                        return Err(ErrorCode::NoSuchMessageIdLocked);
                    }
                    ids[0]
                },
                None => {
                    return Err(ErrorCode::MessageNotLockedByClient);
                },
            },
        };
        proof {
            if message_id is None {
                assert(self@.held(client_id).contains(self@.held(client_id)[0]));
                assert(self@.holds(client_id, id));
            }
            laws::deleting_keeps_wf(old(self)@, client_id, id);
        }
        let held: bool = self.is_locked(client_id, id);
        let message = self.take_out(id);
        if held {
            self.remove_zeroes();
        }
        assert(self@ =~= old(self)@.dequeued(client_id, message_id));
        Ok(message.payload.len())
    }

    /// Whether `client_id` holds a lock on `message_id`.
    pub fn is_locked(&self, client_id: u128, message_id: u128) -> (locked: bool)
        ensures
            locked == self@.held(client_id).contains(message_id),
    {
        match self.locked.get(&client_id) {
            Some(ids) => position(ids, message_id).is_some(),
            None => false,
        }
    }

    /// Gives a lock of `client_id` back, so that the message is delivered again:
    /// the lock on the message named, else the one held longest, if any.
    pub fn unlock(&mut self, client_id: u128, message_id: Option<u128>) -> (result: Result<
        (),
        ErrorCode,
    >)
        requires
            old(self)@.wf(),
        ensures
            final(self)@.wf(),
            match old(self)@.unlock_error(client_id, message_id) {
                Some(error) => result == Err::<(), ErrorCode>(error) && final(self)@ == old(self)@,
                None => result is Ok && final(self)@ == old(self)@.unlocked(client_id, message_id),
            },
    {
        if self.order.is_empty() {
            return Err(ErrorCode::QueueIsEmpty);
        }
        let id: u128 = match self.locked.get(&client_id) {
            None => {
                return Err(ErrorCode::MessageNotLockedByClient);
            },
            Some(ids) => match message_id {
                Some(id) => {
                    if position(ids, id).is_none() {
                        return Err(ErrorCode::MessageNotLockedByClient);
                    }
                    id
                },
                None => {
                    if ids.is_empty() {
                        return Ok(());
                    }
                    ids[0]
                },
            },
        };
        proof {
            laws::releasing_keeps_wf(old(self)@, client_id, id);
        }
        let mut ids: Vec<u128> = self.locked.remove(&client_id).unwrap();
        remove_first(&mut ids, id);
        self.locked.insert(client_id, ids);
        let mut message = self.queue.remove(&id).unwrap();
        message.unlock();
        self.queue.insert(id, message);
        assert(self@.messages =~= old(self)@.released(client_id, id).messages);
        self.next_id = self.find_next();
        assert(self@ =~= old(self)@.released(client_id, id));
        Ok(())
    }

    /// Moves the stored message `message_id` to the end of the queue, unlocked,
    /// under a new id and with the given timestamp.
    pub fn requeue_at(&mut self, client_id: u128, message_id: u128, timestamp: u64) -> (result:
        Result<(), ErrorCode>)
        requires
            old(self)@.wf(),
        ensures
            final(self)@.wf(),
            match old(self)@.edit_error(message_id) {
                Some(error) => result == Err::<(), ErrorCode>(error) && final(self)@ == old(self)@,
                None => result is Ok && final(self)@ == old(self)@.requeued(
                    client_id,
                    message_id,
                    timestamp,
                ),
            },
    {
        if self.order.is_empty() {
            return Err(ErrorCode::QueueIsEmpty);
        }
        let (payload, publisher_id) = match self.queue.get(&message_id) {
            Some(message) => (message.payload.clone(), message.publisher_id),
            None => {
                return Err(ErrorCode::MessageNotInQueue);
            },
        };
        match self.dequeue(client_id, Some(message_id)) {
            Ok(_) => self.enqueue_at(payload, publisher_id, timestamp),
            Err(error) => Err(error),
        }
    }

    /// Moves the stored message `message_id` to the end of the queue, unlocked,
    /// under a new id and with the time of the clock.
    pub fn requeue(&mut self, client_id: u128, message_id: u128) -> (result: Result<
        (),
        ErrorCode,
    >)
        requires
            old(self)@.wf(),
        ensures
            final(self)@.wf(),
            match old(self)@.edit_error(message_id) {
                Some(error) => result == Err::<(), ErrorCode>(error) && final(self)@ == old(self)@,
                None => result is Ok && exists|timestamp: u64|
                    final(self)@ == #[trigger] old(self)@.requeued(
                        client_id,
                        message_id,
                        timestamp,
                    ),
            },
    {
        self.requeue_at(client_id, message_id, now_millis())
    }

    /// Replaces the payload of the stored message `message_id`.
    pub fn update_message(&mut self, message_id: u128, payload: BytesMut) -> (result: Result<
        (),
        ErrorCode,
    >)
        requires
            old(self)@.wf(),
        ensures
            final(self)@.wf(),
            match old(self)@.edit_error(message_id) {
                Some(error) => result == Err::<(), ErrorCode>(error) && final(self)@ == old(self)@,
                None => result is Ok && final(self)@ == old(self)@.updated(
                    message_id,
                    outside::buffer_bytes(payload),
                ),
            },
    {
        if self.order.is_empty() {
            return Err(ErrorCode::QueueIsEmpty);
        }
        match self.queue.remove(&message_id) {
            Some(mut message) => {
                message.payload = payload;
                self.queue.insert(message_id, message);
            },
            None => {
                assert(self@ =~= old(self)@);
                return Err(ErrorCode::MessageNotInQueue);
            },
        }
        proof {
            laws::updating_keeps_wf(old(self)@, message_id, outside::buffer_bytes(payload));
            assert(self@ =~= old(self)@.updated(message_id, outside::buffer_bytes(payload)));
        }
        Ok(())
    }

    /// Describes every stored message, in no particular order.
    pub fn list_messages(&self) -> (result: Result<Vec<MessageMeta>, ErrorCode>)
        ensures
            result matches Ok(list) && describes(list@, self@.messages),
    {
        let keys: Vec<u128> = key_list(&self.queue);
        let mut list: Vec<MessageMeta> = Vec::with_capacity(keys.len());
        let mut i: usize = 0;
        while i < keys.len()
            invariant
                i <= keys@.len(),
                keys@.to_set() == self@.messages.dom(),
                list@.len() == i,
                forall|k: int|
                    #![trigger list@[k]]
                    0 <= k < i ==> {
                        &&& list@[k].id == keys@[k]
                        &&& self@.messages.contains_key(list@[k].id)
                        &&& list@[k].with_payload(self@.messages[list@[k].id].payload)
                            == self@.messages[list@[k].id]
                    },
            decreases keys@.len() - i,
        {
            let id: u128 = keys[i];
            assert(keys@.to_set().contains(id));
            let message = self.queue.get(&id).unwrap();
            list.push(
                MessageMeta::new(id, message.publisher_id, message.timestamp, message.locked_by),
            );
            i = i + 1;
        }
        assert(self.queue@.dom() =~= self@.messages.dom());
        Ok(list)
    }

    /// The biggest payload size noted so far; the sizes of the messages that are
    /// stored now are noted afterwards.
    pub fn get_next_biggest_payload(&mut self) -> (result: Result<usize, ErrorCode>)
        requires
            old(self)@.wf(),
        ensures
            result == Ok::<usize, ErrorCode>(old(self)@.biggest_payloads[4]),
            final(self)@ == old(self)@.sized(),
            final(self)@.wf(),
    {
        let result: usize = self.biggest_payloads[4];
        self.find_biggest_payloads();
        Ok(result)
    }

    /// Notes the payload sizes of all stored messages among the biggest ones.
    pub fn find_biggest_payloads(&mut self)
        requires
            old(self)@.wf(),
        ensures
            final(self)@ == old(self)@.sized(),
            final(self)@.wf(),
    {
        let keys: Vec<u128> = key_list(&self.queue);
        let ghost sizes = model::payload_sizes(self@.messages);
        let ghost mut seen: Map<u128, usize> = Map::empty();
        let mut i: usize = 0;
        while i < keys.len()
            invariant
                i <= keys@.len(),
                keys@.no_duplicates(),
                keys@.to_set() == sizes.dom(),
                old(self)@.wf(),
                sizes == model::payload_sizes(old(self)@.messages),
                self@ == (QueueState {
                    biggest_payloads: model::with_sizes(old(self)@.biggest_payloads, seen),
                    ..old(self)@
                }),
                seen.dom() =~= keys@.take(i as int).to_set(),
                forall|id: u128| #[trigger] seen.contains_key(id) ==> seen[id] == sizes[id],
            decreases keys@.len() - i,
        {
            let id: u128 = keys[i];
            assert(keys@.to_set().contains(id));
            let size: usize = self.queue.get(&id).unwrap().payload.len();
            proof {
                tally::walk_step(keys@, i as int);
                laws::with_sizes_ascends(old(self)@.biggest_payloads, seen);
                let more = seen.insert(id, size);
                laws::with_sizes_remove(old(self)@.biggest_payloads, more, id);
                assert(more.remove(id) =~= seen);
                seen = more;
            }
            note_size(&mut self.biggest_payloads, size);
            i = i + 1;
        }
        proof {
            assert(keys@.take(i as int) =~= keys@);
            assert(seen =~= sizes);
            laws::with_sizes_ascends(old(self)@.biggest_payloads, sizes);
            laws::sizing_keeps_wf(old(self)@);
        }
    }

    /// The number of stored messages.
    pub fn get_total_messages(&self) -> (result: Result<usize, ErrorCode>)
        ensures
            result matches Ok(count) && count == self@.messages.dom().len(),
    {
        assert(self.queue@.dom() =~= self@.messages.dom());
        Ok(self.queue.len())
    }

    /// The number of locks held, over all clients.
    pub fn get_total_messages_locked(&self) -> (result: Result<usize, ErrorCode>)
        ensures
            result matches Ok(count) && count == tally::capped(self@.total_locks()),
    {
        let keys: Vec<u128> = key_list(&self.locked);
        let mut total: usize = 0;
        let ghost mut counts: Map<u128, nat> = Map::empty();
        let mut i: usize = 0;
        while i < keys.len()
            invariant
                i <= keys@.len(),
                keys@.no_duplicates(),
                keys@.to_set() == self@.locks.dom(),
                counts.dom() =~= keys@.take(i as int).to_set(),
                forall|client: u128| #[trigger]
                    counts.contains_key(client) ==> counts[client] == self@.locks[client].len(),
                total == tally::capped(tally::map_sum(counts)),
            decreases keys@.len() - i,
        {
            let client: u128 = keys[i];
            assert(keys@.to_set().contains(client));
            let held: usize = self.locked.get(&client).unwrap().len();
            proof {
                tally::walk_step(keys@, i as int);
                tally::map_sum_insert(counts, client, held as nat);
                counts = counts.insert(client, held as nat);
            }
            total = tally::add_capped(total, held);
            i = i + 1;
        }
        proof {
            assert(keys@.take(i as int) =~= keys@);
            assert(counts =~= self@.locks.map_values(|ids: Seq<u128>| ids.len()));
        }
        Ok(total)
    }

    /// The bytes that the whole queue counts for.
    pub fn get_total_bytes(&self) -> (result: Result<usize, ErrorCode>)
        ensures
            result matches Ok(bytes) && bytes >= tally::capped(
                self@.total_bytes(self@.least_room()),
            ) && exists|room: Room| #[trigger]
                room.covers(self@) && bytes == tally::capped(self@.total_bytes(room)),
    {
        Ok(self.deep_size_of())
    }

    /// The bytes that the locked messages and the lock table count for.
    pub fn get_total_bytes_locked(&self) -> (result: Result<usize, ErrorCode>)
        ensures
            result matches Ok(bytes) && bytes >= tally::capped(
                self@.locked_bytes(self@.least_room()),
            ) && exists|room: Room| #[trigger]
                room.covers(self@) && bytes == tally::capped(self@.locked_bytes(room)),
    {
        Ok(self.deep_size_of_locked())
    }

    /// The bytes of the order, the messages and the lock table.
    fn deep_size_of(&self) -> (bytes: usize)
        ensures
            bytes >= tally::capped(self@.total_bytes(self@.least_room())),
            exists|room: Room| #[trigger]
                room.covers(self@) && bytes == tally::capped(self@.total_bytes(room)),
    {
        let order: usize = list_capacity(&self.order);
        let messages: usize = map_capacity(&self.queue);
        let keys: Vec<u128> = key_list(&self.queue);
        let (payloads, Ghost(rooms)) = self.message_bytes(&keys);
        let (locked, Ghost(locks), Ghost(lists)) = self.locked_capacity();
        let bytes: usize = queue_bytes(order, messages, payloads, locked);
        proof {
            let room = Room {
                order: order as nat,
                messages: messages as nat,
                locks,
                payloads: rooms,
                lists,
            };
            assert(self.queue@.dom() =~= self@.messages.dom());
            assert(room.covers(self@));
            assert(Map::new(
                |id: u128| self@.messages.dom().contains(id),
                |id: u128| room.payloads[id] + MESSAGE_OVERHEAD as nat,
            ) =~= rooms.map_values(|room: nat| room + MESSAGE_OVERHEAD as nat));
            laws::least_room_is_least(self@, room);
        }
        bytes
    }

    /// The bytes of the locked messages and the lock table.
    fn deep_size_of_locked(&self) -> (bytes: usize)
        ensures
            bytes >= tally::capped(self@.locked_bytes(self@.least_room())),
            exists|room: Room| #[trigger]
                room.covers(self@) && bytes == tally::capped(self@.locked_bytes(room)),
    {
        let keys: Vec<u128> = key_list(&self.queue);
        let mut locked_ids: Vec<u128> = Vec::new();
        let mut i: usize = 0;
        while i < keys.len()
            invariant
                i <= keys@.len(),
                keys@.no_duplicates(),
                keys@.to_set() == self@.messages.dom(),
                locked_ids@.no_duplicates(),
                locked_ids@.to_set() =~= self@.locked_ids().intersect(
                    keys@.take(i as int).to_set(),
                ),
            decreases keys@.len() - i,
        {
            let id: u128 = keys[i];
            assert(keys@.to_set().contains(id));
            proof {
                tally::walk_step(keys@, i as int);
                assert(locked_ids@.to_set().contains(id) <==> locked_ids@.contains(id));
            }
            if self.queue.get(&id).unwrap().is_locked() {
                let ghost before = locked_ids@;
                locked_ids.push(id);
                proof {
                    assert(locked_ids@.no_duplicates());
                    tally::walk_step(locked_ids@, before.len() as int);
                    assert(locked_ids@.take(before.len() as int) =~= before);
                    assert(locked_ids@.take(before.len() as int + 1) =~= locked_ids@);
                }
            }
            i = i + 1;
        }
        proof {
            assert(keys@.take(i as int) =~= keys@);
            assert(locked_ids@.to_set() =~= self@.locked_ids());
            locked_ids@.unique_seq_to_set();
        }
        let (payloads, Ghost(rooms)) = self.message_bytes(&locked_ids);
        let (locked, Ghost(locks), Ghost(lists)) = self.locked_capacity();
        let bytes: usize = held_bytes(locked_ids.len(), payloads, locked);
        proof {
            let room = Room {
                order: self@.order.len(),
                messages: self@.messages.dom().len(),
                locks,
                payloads: Map::new(
                    |id: u128| self@.messages.contains_key(id),
                    |id: u128|
                        if rooms.contains_key(id) {
                            rooms[id]
                        } else {
                            self@.messages[id].payload.len()
                        },
                ),
                lists,
            };
            assert(room.payloads.dom() =~= self@.messages.dom());
            assert(room.covers(self@));
            assert(Map::new(
                |id: u128| self@.locked_ids().contains(id),
                |id: u128| room.payloads[id] + MESSAGE_OVERHEAD as nat,
            ) =~= rooms.map_values(|room: nat| room + MESSAGE_OVERHEAD as nat));
            laws::least_room_is_least(self@, room);
        }
        bytes
    }

    /// The bytes of the messages `ids`, with the room of each payload.
    fn message_bytes(&self, ids: &Vec<u128>) -> (result: (usize, Ghost<Map<u128, nat>>))
        requires
            ids@.no_duplicates(),
            ids@.to_set().subset_of(self@.messages.dom()),
        ensures
            result.1@.dom() == ids@.to_set(),
            forall|id: u128| #[trigger]
                result.1@.contains_key(id) ==> result.1@[id] >= self@.messages[id].payload.len(),
            result.0 == tally::capped(
                tally::map_sum(result.1@.map_values(|room: nat| room + MESSAGE_OVERHEAD as nat)),
            ),
    {
        let mut total: usize = 0;
        let ghost mut rooms: Map<u128, nat> = Map::empty();
        let mut i: usize = 0;
        proof {
            assert(rooms.map_values(|room: nat| room + MESSAGE_OVERHEAD as nat) =~= Map::empty());
        }
        while i < ids.len()
            invariant
                i <= ids@.len(),
                ids@.no_duplicates(),
                ids@.to_set().subset_of(self@.messages.dom()),
                rooms.dom() =~= ids@.take(i as int).to_set(),
                forall|id: u128| #[trigger]
                    rooms.contains_key(id) ==> rooms[id] >= self@.messages[id].payload.len(),
                total == tally::capped(
                    tally::map_sum(rooms.map_values(|room: nat| room + MESSAGE_OVERHEAD as nat)),
                ),
            decreases ids@.len() - i,
        {
            let id: u128 = ids[i];
            assert(ids@.to_set().contains(id));
            let message = self.queue.get(&id).unwrap();
            let size: usize = message.deep_size_of();
            proof {
                tally::walk_step(ids@, i as int);
                let room = choose|room: nat|
                    room >= message@.payload.len() && size == #[trigger] tally::capped(
                        room + MESSAGE_OVERHEAD as nat,
                    );
                let f = |room: nat| room + MESSAGE_OVERHEAD as nat;
                let sizes = rooms.map_values(f);
                let more = rooms.insert(id, room);
                assert(more.map_values(f) =~= sizes.insert(id, f(room)));
                assert(sizes.dom() =~= rooms.dom());
                tally::map_sum_insert(sizes, id, f(room));
                rooms = more;
            }
            total = tally::add_capped(total, size);
            i = i + 1;
        }
        assert(ids@.take(i as int) =~= ids@);
        (total, Ghost(rooms))
    }

    /// The bytes of the lock table, with the room of the table and of each list.
    fn locked_capacity(&self) -> (result: (usize, Ghost<nat>, Ghost<Map<u128, nat>>))
        ensures
            result.1@ >= self@.locks.dom().len(),
            result.2@.dom() == self@.locks.dom(),
            forall|client: u128| #[trigger]
                self@.locks.contains_key(client) ==> result.2@[client]
                    >= self@.locks[client].len(),
            result.0 == tally::capped(
                result.1@ * 20 + result.1@ * tally::word_size() + tally::map_sum(
                    result.2@.map_values(|slots: nat| slots * 16),
                ),
            ),
    {
        let capacity: usize = map_capacity(&self.locked);
        let keys: Vec<u128> = key_list(&self.locked);
        let mut total: usize = table_bytes(capacity);
        let ghost mut lists: Map<u128, nat> = Map::empty();
        let ghost table = capacity as nat * 20 + capacity as nat * tally::word_size();
        let mut i: usize = 0;
        proof {
            assert(lists.map_values(|slots: nat| slots * 16) =~= Map::empty());
        }
        while i < keys.len()
            invariant
                i <= keys@.len(),
                keys@.no_duplicates(),
                keys@.to_set() == self@.locks.dom(),
                lists.dom() =~= keys@.take(i as int).to_set(),
                forall|client: u128| #[trigger]
                    lists.contains_key(client) ==> lists[client] >= self@.locks[client].len(),
                total == tally::capped(
                    table + tally::map_sum(lists.map_values(|slots: nat| slots * 16)),
                ),
            decreases keys@.len() - i,
        {
            let client: u128 = keys[i];
            assert(keys@.to_set().contains(client));
            let slots: usize = list_capacity(self.locked.get(&client).unwrap());
            let size: usize = tally::scale_capped(slots, 16);
            proof {
                tally::walk_step(keys@, i as int);
                let f = |slots: nat| slots * 16;
                let sizes = lists.map_values(f);
                let more = lists.insert(client, slots as nat);
                assert(more.map_values(f) =~= sizes.insert(client, f(slots as nat)));
                assert(sizes.dom() =~= lists.dom());
                tally::map_sum_insert(sizes, client, f(slots as nat));
                lists = more;
            }
            total = tally::add_capped(total, size);
            i = i + 1;
        }
        assert(keys@.take(i as int) =~= keys@);
        (total, Ghost(capacity as nat), Ghost(lists))
    }

    /// Drains the leading tombstones, once there are enough of them.
    fn remove_zeroes(&mut self)
        ensures
            final(self)@ == (QueueState { order: model::trimmed(old(self)@.order), ..old(self)@ }),
    {
        if self.order.len() >= MAGIC_DRAIN_VEC {
            let zeroes: usize = count_leading_zeroes(&self.order);
            if zeroes == self.order.len() || zeroes >= MAGIC_DRAIN_VEC - 1 {
                self.order = self.order.split_off(zeroes);
                assert(self.order@ =~= model::trimmed(old(self)@.order));
            }
        }
    }
}

/// A message equals the client that holds it and no other; one that nobody holds equals
/// none.
pub proof fn message_equals_its_holder(message: QueueMessage, client: u128, holder: u128)
    ensures
        message@.locked_by is None ==> !vstd::std_specs::cmp::PartialEqSpec::eq_spec(
            &message,
            &client,
        ),
        message@.locked_by == Some(holder) ==> (vstd::std_specs::cmp::PartialEqSpec::eq_spec(
            &message,
            &client,
        ) <==> client == holder),
{
}

/// A description holds all of a message but its payload.
pub proof fn description_leaves_out_the_payload(meta: MessageMeta, message: MessageState)
    ensures
        meta.with_payload(message.payload) == message <==> {
            &&& meta.publisher_id == message.publisher_id
            &&& meta.timestamp == message.timestamp
            &&& meta.locked_by == message.locked_by
        },
{
}

} // verus!
