//! The broker: named queues, and what each request does to them.
use vstd::prelude::*;

use bytes::BytesMut;
use std::collections::HashMap;

use crate::errors::ErrorCode;
use crate::net::model;
use crate::net::model::QueueState;
use crate::net::net_stats;
use crate::net::net_stats::{StatState, StatWatcher};
use crate::net::protocol;
use crate::net::protocol::{next_frames, Frame, FrameState, Request, Response, ResponseMessage};
use crate::net::queue;
use crate::net::queue::{now_millis, MessageMeta, Queue};
use crate::net::queue_config::{ConfigUpdate, NetQueueConfig};
use crate::outside;
use crate::outside::{buffer_from, random_uuid};
use crate::wire;
use crate::wire::{push_all, read_be};

verus! {

broadcast use vstd::std_specs::hash::group_hash_axioms;

/// The width of a message id at the start of a payload.
pub const MESSAGE_ID_SIZE: usize = 16;

/// How a request is answered.
pub enum Reply {
    /// With success and a payload.
    Succeeded(Seq<u8>),
    /// With an error code.
    Failed(ErrorCode),
}

/// The queues by hash, and the hash that each name stands for.
#[verifier::ext_equal]
pub struct ServerState {
    pub names: Map<Seq<char>, u128>,
    pub queues: Map<u128, QueueState>,
}

/// A message that is given back unless it is acknowledged in time.
#[derive(Debug, Clone, Copy, PartialEq, Eq, Structural)]
pub struct FailTimer {
    /// The queue that the message is in.
    pub hash: u128,
    /// The client that holds the lock.
    pub client_id: u128,
    /// The message.
    pub message_id: u128,
    /// How many milliseconds the client has.
    pub timeout: u64,
}

/// The message id that a payload starts with.
pub open spec fn leading_id(payload: Seq<u8>) -> u128 {
    wire::be_value(payload.take(16)) as u128
}

/// The bytes of a list of descriptions, one after the other.
pub open spec fn listing(list: Seq<MessageMeta>) -> Seq<u8>
    decreases list.len(),
{
    if list.len() == 0 {
        Seq::empty()
    } else {
        listing(list.drop_last()) + model::meta_bytes(
            list.last().id,
            list.last().with_payload(Seq::empty()),
        )
    }
}

impl ServerState {
    /// Whether all queues are well formed.
    pub open spec fn wf(self) -> bool {
        &&& self.queues.dom().finite()
        &&& forall|hash: u128| #[trigger] self.queues.contains_key(hash) ==> self.queues[hash].wf()
    }

    /// No queues.
    pub open spec fn empty() -> Self {
        ServerState { names: Map::empty(), queues: Map::empty() }
    }

    /// The hash of the queue that has this name.
    pub open spec fn located(self, name: Seq<char>) -> Result<u128, ErrorCode> {
        if !self.names.contains_key(name) {
            Err(ErrorCode::QueueHashNotFound)
        } else if !self.queues.contains_key(self.names[name]) {
            Err(ErrorCode::QueueNotFound)
        } else {
            Ok(self.names[name])
        }
    }

    /// The queues with one of them replaced.
    pub open spec fn with_queue(self, hash: u128, queue: QueueState) -> Self {
        ServerState { queues: self.queues.insert(hash, queue), ..self }
    }

    /// A new queue under a name, which no longer stands for another.
    pub open spec fn registered(self, name: Seq<char>, hash: u128) -> Self {
        ServerState {
            names: self.names.insert(name, hash),
            queues: self.queues.insert(hash, QueueState::empty()),
        }
    }

    /// New queues under several names.
    pub open spec fn registered_all(self, names: Seq<Seq<char>>, hashes: Seq<u128>) -> Self
        decreases names.len(),
    {
        if names.len() == 0 {
            self
        } else {
            self.registered_all(names.drop_last(), hashes.drop_last()).registered(
                names.last(),
                hashes.last(),
            )
        }
    }

    /// Adding a message.
    pub open spec fn enqueuing(
        self,
        name: Seq<char>,
        client: u128,
        payload: Seq<u8>,
        now: u64,
    ) -> (Self, Reply) {
        match self.located(name) {
            Err(error) => (self, Reply::Failed(error)),
            Ok(hash) => (
                self.with_queue(hash, self.queues[hash].enqueued(payload, client, now)),
                Reply::Succeeded(Seq::empty()),
            ),
        }
    }

    /// Locking the next message and handing it out.
    pub open spec fn delivering(self, name: Seq<char>, client: u128) -> (Self, Reply) {
        match self.located(name) {
            Err(error) => (self, Reply::Failed(error)),
            Ok(hash) => match self.queues[hash].lock_error() {
                Some(error) => (self, Reply::Failed(error)),
                None => (
                    self.with_queue(hash, self.queues[hash].locked_next(client)),
                    Reply::Succeeded(self.queues[hash].delivery(client)),
                ),
            },
        }
    }

    /// The timer that starts when a message is handed out, if the queue is
    /// configured so.
    pub open spec fn delivery_timer(self, name: Seq<char>, client: u128) -> Option<FailTimer> {
        match self.located(name) {
            Err(_) => None,
            Ok(hash) => {
                let queue = self.queues[hash];
                if queue.lock_error() is None && queue.auto_fail && queue.fail_timeout != 0 {
                    Some(
                        FailTimer {
                            hash,
                            client_id: client,
                            message_id: queue.next_id->0,
                            timeout: queue.fail_timeout,
                        },
                    )
                } else {
                    None
                }
            },
        }
    }

    /// A timer running out: the message is given back if it is still locked.
    pub open spec fn expired(self, timer: FailTimer) -> Self {
        let queue = self.queues[timer.hash];
        let id = Some(timer.message_id);
        if self.queues.contains_key(timer.hash) && queue.held(timer.client_id).contains(
            timer.message_id,
        ) && queue.unlock_error(timer.client_id, id) is None {
            self.with_queue(timer.hash, queue.unlocked(timer.client_id, id))
        } else {
            self
        }
    }

    /// Creating a queue.
    pub open spec fn creating(self, name: Seq<char>, hash: u128) -> (Self, Reply) {
        if self.names.contains_key(name) {
            (self, Reply::Failed(ErrorCode::QueueAlreadyExists))
        } else {
            (self.registered(name, hash), Reply::Succeeded(Seq::empty()))
        }
    }

    /// Deleting a queue with its name.
    pub open spec fn deleting(self, name: Seq<char>) -> (Self, Reply) {
        if self.names.contains_key(name) {
            (
                ServerState {
                    names: self.names.remove(name),
                    queues: self.queues.remove(self.names[name]),
                },
                Reply::Succeeded(Seq::empty()),
            )
        } else {
            (self, Reply::Failed(ErrorCode::QueueDoesNotExist))
        }
    }

    /// Whether `reply` lists the messages of a queue, in whatever order.
    pub open spec fn lists(self, name: Seq<char>, reply: Reply) -> bool {
        match self.located(name) {
            Err(error) => reply == Reply::Failed(error),
            Ok(hash) => exists|list: Seq<MessageMeta>| #[trigger]
                queue::describes(list, self.queues[hash].messages) && reply == Reply::Succeeded(
                    listing(list),
                ),
        }
    }

    /// Whether `stats` are the figures of each queue that has a name, once each.
    pub open spec fn counts(self, stats: Seq<StatState>) -> bool {
        &&& forall|i: int, j: int|
            0 <= i < j < stats.len() ==> stats[i].queue_name != stats[j].queue_name
        &&& forall|i: int| 0 <= i < stats.len() ==> self.counts_one(#[trigger] stats[i])
        &&& forall|name: Seq<char>| #[trigger]
            self.located(name) is Ok ==> exists|i: int|
                0 <= i < stats.len() && #[trigger] stats[i].queue_name == name
    }

    /// Whether `stat` are the figures of the queue whose name they give.
    pub open spec fn counts_one(self, stat: StatState) -> bool {
        self.located(stat.queue_name) matches Ok(hash) && stat.tells(self.queues[hash])
    }

    /// Taking a message out of a queue.
    pub open spec fn dequeuing(
        self,
        hash: u128,
        client: u128,
        message_id: Option<u128>,
    ) -> (Self, Reply) {
        let queue = self.queues[hash];
        match queue.dequeue_error(client, message_id) {
            Some(error) => (self, Reply::Failed(error)),
            None => (
                self.with_queue(hash, queue.dequeued(client, message_id)),
                Reply::Succeeded(Seq::empty()),
            ),
        }
    }

    /// Acknowledging the lock held longest.
    pub open spec fn acknowledging(self, name: Seq<char>, client: u128) -> (Self, Reply) {
        match self.located(name) {
            Err(error) => (self, Reply::Failed(error)),
            Ok(hash) => self.dequeuing(hash, client, None),
        }
    }

    /// Deleting the message whose id the payload starts with.
    pub open spec fn deleting_message(
        self,
        name: Seq<char>,
        client: u128,
        payload: Seq<u8>,
    ) -> (Self, Reply) {
        match self.located(name) {
            Err(error) => (self, Reply::Failed(error)),
            Ok(hash) => if payload.len() < MESSAGE_ID_SIZE {
                (self, Reply::Failed(ErrorCode::PayloadMissingMessageId))
            } else {
                self.dequeuing(hash, client, Some(leading_id(payload)))
            },
        }
    }

    /// Giving the lock held longest back.
    pub open spec fn unlocking(self, name: Seq<char>, client: u128) -> (Self, Reply) {
        match self.located(name) {
            Err(error) => (self, Reply::Failed(error)),
            Ok(hash) => match self.queues[hash].unlock_error(client, None) {
                Some(error) => (self, Reply::Failed(error)),
                None => (
                    self.with_queue(hash, self.queues[hash].unlocked(client, None)),
                    Reply::Succeeded(Seq::empty()),
                ),
            },
        }
    }

    /// Moving the message whose id the payload starts with to the end.
    pub open spec fn requeuing(
        self,
        name: Seq<char>,
        client: u128,
        payload: Seq<u8>,
        now: u64,
    ) -> (Self, Reply) {
        match self.located(name) {
            Err(error) => (self, Reply::Failed(error)),
            Ok(hash) => if payload.len() < MESSAGE_ID_SIZE {
                (self, Reply::Failed(ErrorCode::PayloadMissingMessageId))
            } else {
                let queue = self.queues[hash];
                let id = leading_id(payload);
                match queue.edit_error(id) {
                    Some(error) => (self, Reply::Failed(error)),
                    None => (
                        self.with_queue(hash, queue.requeued(client, id, now)),
                        Reply::Succeeded(Seq::empty()),
                    ),
                }
            },
        }
    }

    /// Replacing the payload of the message whose id the payload starts with by
    /// what follows the id.
    pub open spec fn updating_message(self, name: Seq<char>, payload: Seq<u8>) -> (Self, Reply) {
        if payload.len() < MESSAGE_ID_SIZE {
            (self, Reply::Failed(ErrorCode::PayloadMissingMessageId))
        } else {
            match self.located(name) {
                Err(error) => (self, Reply::Failed(error)),
                Ok(hash) => {
                    let queue = self.queues[hash];
                    let id = leading_id(payload);
                    match queue.edit_error(id) {
                        Some(error) => (self, Reply::Failed(error)),
                        None => (
                            self.with_queue(hash, queue.updated(id, payload.skip(16))),
                            Reply::Succeeded(Seq::empty()),
                        ),
                    }
                },
            }
        }
    }

    /// Changing the configuration of a queue as the payload says.
    pub open spec fn updating_queue(self, name: Seq<char>, payload: Seq<u8>) -> (Self, Reply) {
        if payload.len() < 1 {
            (self, Reply::Failed(ErrorCode::InvalidConfigPayloadSize))
        } else {
            match ConfigUpdate::decode_error(payload) {
                Some(error) => (self, Reply::Failed(error)),
                None => match self.located(name) {
                    Err(error) => (self, Reply::Failed(error)),
                    Ok(hash) => (
                        self.with_queue(
                            hash,
                            self.queues[hash].configured(ConfigUpdate::decoded(payload)),
                        ),
                        Reply::Succeeded(Seq::empty()),
                    ),
                },
            }
        }
    }

    /// Whether handling `frame` leads to the state `after`, the answer `reply`
    /// and the timer `timer`. `hash` is what a new queue is filed under, `now`
    /// the time that new messages get.
    pub open spec fn handling(
        self,
        frame: FrameState,
        hash: u128,
        now: u64,
        after: Self,
        reply: Reply,
        timer: Option<FailTimer>,
    ) -> bool {
        let name = frame.queue_name;
        let client = frame.client_id;
        let payload = frame.payload;
        &&& timer == if frame.command is Dequeue {
            self.delivery_timer(name, client)
        } else {
            None
        }
        &&& match frame.command {
            Request::Enqueue => (after, reply) == self.enqueuing(name, client, payload, now),
            Request::Dequeue => (after, reply) == self.delivering(name, client),
            Request::CreateQ => (after, reply) == self.creating(name, hash),
            Request::DeleteQ => (after, reply) == self.deleting(name),
            Request::ListM => after == self && self.lists(name, reply),
            Request::DeleteM => (after, reply) == self.deleting_message(name, client, payload),
            Request::Succeeded => (after, reply) == self.acknowledging(name, client),
            Request::Failed => (after, reply) == self.unlocking(name, client),
            Request::Requeue => (after, reply) == self.requeuing(name, client, payload, now),
            Request::UpdateM => (after, reply) == self.updating_message(name, payload),
            Request::UpdateQ => (after, reply) == self.updating_queue(name, payload),
        }
    }
}

impl ServerState {
    /// Whether handling `frame` leads to `outcome` and the state `after`, whatever hash
    /// a new queue got and whatever the time was.
    pub open spec fn steps(self, frame: FrameState, outcome: Outcome, after: Self) -> bool {
        exists|hash: u128, now: u64, reply: Reply| #[trigger]
            self.handling(frame, hash, now, after, reply, outcome.timer)
                && outside::is_random_uuid(hash) && says(outcome.response, reply)
    }

    /// Whether handling `frames` one after the other leads to `outcomes` and the state
    /// `after`.
    pub open spec fn serves(
        self,
        frames: Seq<FrameState>,
        outcomes: Seq<Outcome>,
        after: Self,
    ) -> bool
        decreases frames.len(),
    {
        if frames.len() == 0 {
            outcomes.len() == 0 && after == self
        } else {
            &&& outcomes.len() == frames.len()
            &&& exists|before: Self|
                {
                    &&& self.serves(frames.drop_last(), outcomes.drop_last(), before)
                    &&& #[trigger] before.steps(frames.last(), outcomes.last(), after)
                }
        }
    }
}

/// Whether `response` is the message that says `reply`.
pub open spec fn says(response: ResponseMessage, reply: Reply) -> bool {
    &&& response.wf()
    &&& match reply {
        Reply::Succeeded(payload) => {
            &&& response.spec_status() == Response::Succeeded
            &&& response.spec_payload() == payload
        },
        Reply::Failed(error) => {
            &&& response.spec_status() == Response::Failed
            &&& response.spec_payload() == wire::be_bytes(error.code() as nat, 2)
        },
    }
}

/// A name and the hash that it stands for.
#[derive(Debug, Clone)]
struct NameEntry {
    name: String,
    hash: u128,
}

/// Whether the entry at `i` has this name.
spec fn named(entries: Seq<NameEntry>, i: int, name: Seq<char>) -> bool {
    0 <= i < entries.len() && entries[i].name@ == name
}

/// Whether one of the first `count` entries has this name.
spec fn named_before(entries: Seq<NameEntry>, count: int, name: Seq<char>) -> bool {
    exists|i: int| 0 <= i < count && named(entries, i, name)
}

/// The hashes by name.
spec fn names_of(entries: Seq<NameEntry>) -> Map<Seq<char>, u128> {
    Map::new(
        |name: Seq<char>| exists|i: int| named(entries, i, name),
        |name: Seq<char>| entries[choose|i: int| named(entries, i, name)].hash,
    )
}

/// Whether no name is registered twice.
spec fn unique_names(entries: Seq<NameEntry>) -> bool {
    forall|i: int, j: int|
        0 <= i < entries.len() && 0 <= j < entries.len() && entries[i].name@ == entries[j].name@
            ==> i == j
}

/// The entry at `i` decides what its name stands for.
proof fn entry_decides(entries: Seq<NameEntry>, i: int)
    requires
        unique_names(entries),
        0 <= i < entries.len(),
    ensures
        names_of(entries).contains_key(entries[i].name@),
        names_of(entries)[entries[i].name@] == entries[i].hash,
{
    let name = entries[i].name@;
    assert(named(entries, i, name));
    let chosen = choose|k: int| named(entries, k, name);
    assert(named(entries, chosen, name));
}

/// Adding an entry adds its name.
proof fn pushing_adds_name(entries: Seq<NameEntry>, entry: NameEntry)
    requires
        unique_names(entries),
        !names_of(entries).contains_key(entry.name@),
    ensures
        unique_names(entries.push(entry)),
        names_of(entries.push(entry)) == names_of(entries).insert(entry.name@, entry.hash),
{
    let after = entries.push(entry);
    assert forall|i: int| 0 <= i < entries.len() implies entries[i].name@ != entry.name@ by {
        assert(named(entries, i, entries[i].name@));
    }
    assert(unique_names(after));
    assert forall|name: Seq<char>| #[trigger] names_of(after).contains_key(name) == names_of(
        entries,
    ).insert(entry.name@, entry.hash).contains_key(name) by {
        if names_of(after).contains_key(name) {
            let i = choose|i: int| named(after, i, name);
            if i < entries.len() {
                assert(named(entries, i, name));
            }
        }
        if names_of(entries).contains_key(name) {
            let i = choose|i: int| named(entries, i, name);
            assert(named(after, i, name));
        }
        assert(named(after, entries.len() as int, entry.name@));
    }
    assert forall|name: Seq<char>| names_of(after).contains_key(name) implies #[trigger] names_of(
        after,
    )[name] == names_of(entries).insert(entry.name@, entry.hash)[name] by {
        let i = choose|i: int| named(after, i, name);
        entry_decides(after, i);
        if i < entries.len() {
            entry_decides(entries, i);
        }
    }
    assert(names_of(after) =~= names_of(entries).insert(entry.name@, entry.hash));
}

/// Removing an entry removes its name.
proof fn removing_drops_name(entries: Seq<NameEntry>, at: int)
    requires
        unique_names(entries),
        0 <= at < entries.len(),
    ensures
        unique_names(entries.remove(at)),
        names_of(entries.remove(at)) == names_of(entries).remove(entries[at].name@),
{
    let after = entries.remove(at);
    let gone = entries[at].name@;
    assert forall|i: int, j: int|
        0 <= i < after.len() && 0 <= j < after.len() && after[i].name@ == after[j].name@ implies i
        == j by {
        let a = if i < at { i } else { i + 1 };
        let b = if j < at { j } else { j + 1 };
        assert(entries[a].name@ == entries[b].name@);
    }
    assert forall|name: Seq<char>| #[trigger] names_of(after).contains_key(name) == names_of(
        entries,
    ).remove(gone).contains_key(name) by {
        if names_of(after).contains_key(name) {
            let i = choose|i: int| named(after, i, name);
            let a = if i < at { i } else { i + 1 };
            assert(named(entries, a, name));
            assert(name != gone);
        }
        if names_of(entries).contains_key(name) && name != gone {
            let i = choose|i: int| named(entries, i, name);
            let a = if i < at { i } else { i - 1 };
            assert(named(after, a, name));
        }
    }
    assert forall|name: Seq<char>| names_of(after).contains_key(name) implies #[trigger] names_of(
        after,
    )[name] == names_of(entries)[name] by {
        let i = choose|i: int| named(after, i, name);
        entry_decides(after, i);
        let a = if i < at { i } else { i + 1 };
        entry_decides(entries, a);
    }
    assert(names_of(after) =~= names_of(entries).remove(gone));
}

/// What came of a request.
#[derive(Debug, Clone)]
pub struct Outcome {
    /// The answer.
    pub response: ResponseMessage,
    /// The timer to run, if there is one.
    pub timer: Option<FailTimer>,
}

/// The broker's queues.
#[derive(Debug, Clone)]
pub struct Server {
    queue: HashMap<u128, Queue>,
    queue_names: Vec<NameEntry>,
}

impl View for Server {
    type V = ServerState;

    closed spec fn view(&self) -> ServerState {
        ServerState {
            names: names_of(self.queue_names@),
            queues: self.queue@.map_values(|queue: Queue| queue@),
        }
    }
}

/// The answer to a request that gives nothing back.
fn plain_answer(result: Result<(), ErrorCode>) -> (response: ResponseMessage)
    ensures
        match result {
            Ok(_) => says(response, Reply::Succeeded(Seq::empty())),
            Err(error) => says(response, Reply::Failed(error)),
        },
{
    match result {
        Ok(_) => ResponseMessage::new(Response::Succeeded, Vec::new()),
        Err(error) => ResponseMessage::failure(error),
    }
}

/// The message id that a payload starts with.
fn read_leading_id(payload: &Vec<u8>) -> (id: u128)
    requires
        payload@.len() >= MESSAGE_ID_SIZE,
    ensures
        id == leading_id(payload@),
{
    let field = vstd::slice::slice_subrange(payload.as_slice(), 0, MESSAGE_ID_SIZE);
    assert(field@ =~= payload@.take(16));
    proof {
        wire::be_value_bound(field@);
        wire::be_limit_values();
    }
    read_be(field)
}

impl Server {
    /// Whether no name is registered twice and all queues are well formed.
    pub closed spec fn wf(&self) -> bool {
        &&& unique_names(self.queue_names@)
        &&& self@.wf()
    }

    /// A broker without queues.
    pub fn new() -> (server: Self)
        ensures
            server.wf(),
            server@ == ServerState::empty(),
    {
        let server = Server { queue: HashMap::new(), queue_names: Vec::new() };
        assert(server@ =~= ServerState::empty());
        server
    }

    /// The place of a name among the registered ones.
    fn find(&self, name: &String) -> (index: Option<usize>)
        requires
            self.wf(),
        ensures
            match index {
                Some(i) => {
                    &&& i < self.queue_names.len()
                    &&& self.queue_names@[i as int].name@ == name@
                    &&& self@.names.contains_key(name@)
                    &&& self@.names[name@] == self.queue_names@[i as int].hash
                },
                None => !self@.names.contains_key(name@),
            },
    {
        let mut i: usize = 0;
        while i < self.queue_names.len()
            invariant
                self.wf(),
                i <= self.queue_names@.len(),
                forall|k: int| 0 <= k < i ==> self.queue_names@[k].name@ != name@,
            decreases self.queue_names@.len() - i,
        {
            if self.queue_names[i].name.eq(name) {
                proof {
                    entry_decides(self.queue_names@, i as int);
                }
                return Some(i);
            }
            i = i + 1;
        }
        proof {
            if self@.names.contains_key(name@) {
                let k = choose|k: int| named(self.queue_names@, k, name@);
                assert(named(self.queue_names@, k, name@));
            }
        }
        None
    }

    /// The hash of the queue that has this name.
    fn locate(&self, name: &String) -> (result: Result<u128, ErrorCode>)
        requires
            self.wf(),
        ensures
            result == self@.located(name@),
    {
        match self.find(name) {
            Some(i) => {
                let hash: u128 = self.queue_names[i].hash;
                if self.queue.contains_key(&hash) {
                    Ok(hash)
                } else {
                    Err(ErrorCode::QueueNotFound)
                }
            },
            None => Err(ErrorCode::QueueHashNotFound),
        }
    }

    /// The queue that has this name.
    pub fn get_queue(&self, name: &String) -> (result: Result<&Queue, ErrorCode>)
        requires
            self.wf(),
        ensures
            match self@.located(name@) {
                Ok(hash) => {
                    &&& result matches Ok(queue)
                    &&& queue@ == self@.queues[hash]
                    &&& queue@.wf()
                },
                Err(error) => result == Err::<&Queue, ErrorCode>(error),
            },
    {
        match self.locate(name) {
            Ok(hash) => {
                let queue = self.queue.get(&hash).unwrap();
                assert(self@.queues.contains_key(hash));
                Ok(queue)
            },
            Err(error) => Err(error),
        }
    }

    /// Takes a queue out of the table.
    fn take_queue(&mut self, hash: u128) -> (queue: Queue)
        requires
            old(self).wf(),
            old(self)@.queues.contains_key(hash),
        ensures
            queue@ == old(self)@.queues[hash],
            queue@.wf(),
            final(self).wf(),
            final(self)@ == (ServerState { queues: old(self)@.queues.remove(hash), ..old(self)@ }),
    {
        let queue = self.queue.remove(&hash).unwrap();
        assert(self@ =~= (ServerState { queues: old(self)@.queues.remove(hash), ..old(self)@ }));
        assert(self@.wf()) by {
            assert forall|h: u128| #[trigger] self@.queues.contains_key(h) implies
                self@.queues[h].wf() by {
                assert(old(self)@.queues.contains_key(h));
            }
        }
        queue
    }

    /// Puts a queue into the table.
    fn put_queue(&mut self, hash: u128, queue: Queue)
        requires
            old(self).wf(),
            queue@.wf(),
        ensures
            final(self).wf(),
            final(self)@ == old(self)@.with_queue(hash, queue@),
    {
        self.queue.insert(hash, queue);
        assert(self@ =~= old(self)@.with_queue(hash, queue@));
        assert(self@.wf()) by {
            assert forall|h: u128| #[trigger] self@.queues.contains_key(h) implies
                self@.queues[h].wf() by {
                if h != hash {
                    assert(old(self)@.queues.contains_key(h));
                }
            }
        }
    }

    /// Files an empty queue under `hash` and lets `name` stand for it.
    pub fn register_queue(&mut self, name: String, hash: u128)
        requires
            old(self).wf(),
        ensures
            final(self).wf(),
            final(self)@ == old(self)@.registered(name@, hash),
    {
        if let Some(i) = self.find(&name) {
            proof {
                removing_drops_name(self.queue_names@, i as int);
            }
            self.queue_names.remove(i);
        }
        let ghost names = names_of(self.queue_names@);
        assert(names == old(self)@.names.remove(name@));
        let entry = NameEntry { name, hash };
        proof {
            pushing_adds_name(self.queue_names@, entry);
        }
        self.queue_names.push(entry);
        assert(names.insert(name@, hash) =~= old(self)@.names.insert(name@, hash));
        assert(self@.queues =~= old(self)@.queues);
        self.put_queue(hash, Queue::new());
    }

    /// Sets up a queue for each of several names, all of them empty.
    pub fn register_queues(&mut self, names: &Vec<String>)
        requires
            old(self).wf(),
        ensures
            final(self).wf(),
            exists|hashes: Seq<u128>|
                {
                    &&& hashes.len() == names@.len()
                    &&& forall|i: int|
                        0 <= i < hashes.len() ==> outside::is_random_uuid(#[trigger] hashes[i])
                    &&& final(self)@ == #[trigger] old(self)@.registered_all(
                        outside::texts(names@),
                        hashes,
                    )
                },
    {
        let ghost all = outside::texts(names@);
        let ghost mut hashes: Seq<u128> = Seq::empty();
        let mut i: usize = 0;
        assert(all.take(0) =~= Seq::empty());
        while i < names.len()
            invariant
                i <= names@.len(),
                all == outside::texts(names@),
                self.wf(),
                hashes.len() == i,
                forall|k: int| 0 <= k < i ==> outside::is_random_uuid(#[trigger] hashes[k]),
                self@ == old(self)@.registered_all(all.take(i as int), hashes),
            decreases names@.len() - i,
        {
            let hash: u128 = random_uuid();
            self.register_queue(names[i].clone(), hash);
            proof {
                let more = hashes.push(hash);
                assert(more.drop_last() =~= hashes);
                assert(all.take(i + 1).drop_last() =~= all.take(i as int));
                hashes = more;
            }
            i = i + 1;
        }
        assert(all.take(i as int) =~= all);
    }

    /// Adds a message with the given timestamp to a queue.
    pub fn enqueue_message(
        &mut self,
        name: &String,
        client_id: u128,
        payload: &Vec<u8>,
        timestamp: u64,
    ) -> (response: ResponseMessage)
        requires
            old(self).wf(),
        ensures
            final(self).wf(),
            ({
                let (after, reply) = old(self)@.enqueuing(name@, client_id, payload@, timestamp);
                final(self)@ == after && says(response, reply)
            }),
    {
        let hash: u128 = match self.locate(name) {
            Ok(hash) => hash,
            Err(error) => {
                return plain_answer(Err(error));
            },
        };
        let mut queue = self.take_queue(hash);
        let result = queue.enqueue_at(buffer_from(payload.as_slice()), client_id, timestamp);
        self.put_queue(hash, queue);
        assert(self@ =~= old(self)@.with_queue(hash, queue@));
        plain_answer(result)
    }

    /// Locks the next message of a queue for a client and hands it out; gives
    /// the timer along that the queue's configuration asks for.
    pub fn lock_and_dequeue_message(&mut self, name: &String, client_id: u128) -> (outcome: Outcome)
        requires
            old(self).wf(),
        ensures
            final(self).wf(),
            ({
                let (after, reply) = old(self)@.delivering(name@, client_id);
                final(self)@ == after && says(outcome.response, reply)
            }),
            outcome.timer == old(self)@.delivery_timer(name@, client_id),
    {
        let hash: u128 = match self.locate(name) {
            Ok(hash) => hash,
            Err(error) => {
                return Outcome { response: plain_answer(Err(error)), timer: None };
            },
        };
        let mut queue = self.take_queue(hash);
        let result = queue.lock_to_read(client_id);
        let auto_fail: bool = queue.get_config_auto_fail();
        let timeout: u64 = queue.get_config_fail_timeout();
        self.put_queue(hash, queue);
        assert(self@ =~= old(self)@.with_queue(hash, queue@));
        match result {
            Ok((bytes, message_id)) => {
                let timer = if auto_fail && timeout != 0 {
                    match message_id {
                        Some(message_id) => Some(FailTimer { hash, client_id, message_id, timeout }),
                        None => None,
                    }
                } else {
                    None
                };
                let response = ResponseMessage::new(Response::Succeeded, bytes);
                Outcome { response, timer }
            },
            Err(error) => {
                assert(self@ =~= old(self)@);
                Outcome { response: plain_answer(Err(error)), timer: None }
            },
        }
    }

    /// Lets a timer run out: gives the message back if it is still locked.
    pub fn expire(&mut self, timer: &FailTimer)
        requires
            old(self).wf(),
        ensures
            final(self).wf(),
            final(self)@ == old(self)@.expired(*timer),
    {
        if self.queue.contains_key(&timer.hash) {
            let mut queue = self.take_queue(timer.hash);
            if queue.is_locked(timer.client_id, timer.message_id) {
                let _ = queue.unlock(timer.client_id, Some(timer.message_id));
            }
            self.put_queue(timer.hash, queue);
            assert(self@ =~= old(self)@.with_queue(timer.hash, queue@));
        }
        assert(self@ =~= old(self)@.expired(*timer));
    }

    /// Creates a queue that is filed under `hash`.
    pub fn create_queue(&mut self, name: &String, hash: u128) -> (response: ResponseMessage)
        requires
            old(self).wf(),
        ensures
            final(self).wf(),
            ({
                let (after, reply) = old(self)@.creating(name@, hash);
                final(self)@ == after && says(response, reply)
            }),
    {
        if self.find(name).is_some() {
            return plain_answer(Err(ErrorCode::QueueAlreadyExists));
        }
        self.register_queue(name.clone(), hash);
        plain_answer(Ok(()))
    }

    /// Deletes a queue with its name.
    pub fn delete_queue(&mut self, name: &String) -> (response: ResponseMessage)
        requires
            old(self).wf(),
        ensures
            final(self).wf(),
            ({
                let (after, reply) = old(self)@.deleting(name@);
                final(self)@ == after && says(response, reply)
            }),
    {
        match self.find(name) {
            Some(i) => {
                proof {
                    removing_drops_name(self.queue_names@, i as int);
                }
                let entry = self.queue_names.remove(i);
                self.queue.remove(&entry.hash);
                assert(self@ =~= old(self)@.deleting(name@).0);
                assert forall|h: u128| #[trigger] self@.queues.contains_key(h) implies
                    self@.queues[h].wf() by {
                    assert(old(self)@.queues.contains_key(h));
                }
                plain_answer(Ok(()))
            },
            None => plain_answer(Err(ErrorCode::QueueDoesNotExist)),
        }
    }

    /// Describes the messages of a queue, in no particular order.
    pub fn list_messages(&self, name: &String) -> (response: ResponseMessage)
        requires
            self.wf(),
        ensures
            exists|reply: Reply| #[trigger] self@.lists(name@, reply) && says(response, reply),
    {
        let queue = match self.get_queue(name) {
            Ok(queue) => queue,
            Err(error) => {
                assert(self@.lists(name@, Reply::Failed(error)));
                return plain_answer(Err(error));
            },
        };
        let list = match queue.list_messages() {
            Ok(list) => list,
            Err(_) => Vec::new(),
        };
        let mut bytes: Vec<u8> = Vec::new();
        let mut i: usize = 0;
        assert(list@.take(0) =~= Seq::empty());
        while i < list.len()
            invariant
                i <= list@.len(),
                bytes@ == listing(list@.take(i as int)),
            decreases list@.len() - i,
        {
            let description = list[i].to_be_bytes();
            push_all(&mut bytes, description.as_slice());
            assert(list@.take(i + 1).drop_last() =~= list@.take(i as int));
            i = i + 1;
        }
        assert(list@.take(i as int) =~= list@);
        assert(self@.lists(name@, Reply::Succeeded(bytes@)));
        ResponseMessage::new(Response::Succeeded, bytes)
    }

    /// Takes a message out of the queue filed under `hash`.
    fn dequeue_from(&mut self, hash: u128, client_id: u128, message_id: Option<u128>) -> (response:
        ResponseMessage)
        requires
            old(self).wf(),
            old(self)@.queues.contains_key(hash),
        ensures
            final(self).wf(),
            ({
                let (after, reply) = old(self)@.dequeuing(hash, client_id, message_id);
                final(self)@ == after && says(response, reply)
            }),
    {
        let mut queue = self.take_queue(hash);
        let result = queue.dequeue(client_id, message_id);
        self.put_queue(hash, queue);
        assert(self@ =~= old(self)@.with_queue(hash, queue@));
        match result {
            Ok(_) => plain_answer(Ok(())),
            Err(error) => {
                assert(self@ =~= old(self)@);
                plain_answer(Err(error))
            },
        }
    }

    /// Acknowledges the message that a client has held longest.
    pub fn dequeue_message_sent(&mut self, name: &String, client_id: u128) -> (response: ResponseMessage)
        requires
            old(self).wf(),
        ensures
            final(self).wf(),
            ({
                let (after, reply) = old(self)@.acknowledging(name@, client_id);
                final(self)@ == after && says(response, reply)
            }),
    {
        match self.locate(name) {
            Ok(hash) => self.dequeue_from(hash, client_id, None),
            Err(error) => plain_answer(Err(error)),
        }
    }

    /// Deletes the message whose id the payload starts with.
    pub fn delete_message(&mut self, name: &String, client_id: u128, payload: &Vec<u8>) -> (response:
        ResponseMessage)
        requires
            old(self).wf(),
        ensures
            final(self).wf(),
            ({
                let (after, reply) = old(self)@.deleting_message(name@, client_id, payload@);
                final(self)@ == after && says(response, reply)
            }),
    {
        match self.locate(name) {
            Ok(hash) => {
                if payload.len() < MESSAGE_ID_SIZE {
                    return plain_answer(Err(ErrorCode::PayloadMissingMessageId));
                }
                self.dequeue_from(hash, client_id, Some(read_leading_id(payload)))
            },
            Err(error) => plain_answer(Err(error)),
        }
    }

    /// Gives the lock that a client has held longest back, so that the message
    /// is delivered again.
    pub fn unlock_message(&mut self, name: &String, client_id: u128) -> (response: ResponseMessage)
        requires
            old(self).wf(),
        ensures
            final(self).wf(),
            ({
                let (after, reply) = old(self)@.unlocking(name@, client_id);
                final(self)@ == after && says(response, reply)
            }),
    {
        let hash: u128 = match self.locate(name) {
            Ok(hash) => hash,
            Err(error) => {
                return plain_answer(Err(error));
            },
        };
        let mut queue = self.take_queue(hash);
        let result = queue.unlock(client_id, None);
        self.put_queue(hash, queue);
        assert(self@ =~= old(self)@.with_queue(hash, queue@));
        if result.is_err() {
            assert(self@ =~= old(self)@);
        }
        plain_answer(result)
    }

    /// Moves the message whose id the payload starts with to the end of a queue,
    /// with the given timestamp.
    pub fn requeue_message(
        &mut self,
        name: &String,
        client_id: u128,
        payload: &Vec<u8>,
        timestamp: u64,
    ) -> (response: ResponseMessage)
        requires
            old(self).wf(),
        ensures
            final(self).wf(),
            ({
                let (after, reply) = old(self)@.requeuing(name@, client_id, payload@, timestamp);
                final(self)@ == after && says(response, reply)
            }),
    {
        let hash: u128 = match self.locate(name) {
            Ok(hash) => hash,
            Err(error) => {
                return plain_answer(Err(error));
            },
        };
        if payload.len() < MESSAGE_ID_SIZE {
            return plain_answer(Err(ErrorCode::PayloadMissingMessageId));
        }
        let mut queue = self.take_queue(hash);
        let result = queue.requeue_at(client_id, read_leading_id(payload), timestamp);
        self.put_queue(hash, queue);
        assert(self@ =~= old(self)@.with_queue(hash, queue@));
        if result.is_err() {
            assert(self@ =~= old(self)@);
        }
        plain_answer(result)
    }

    /// Replaces the payload of the message whose id `payload` starts with by
    /// what follows the id.
    pub fn update_message(&mut self, name: &String, payload: &Vec<u8>) -> (response: ResponseMessage)
        requires
            old(self).wf(),
        ensures
            final(self).wf(),
            ({
                let (after, reply) = old(self)@.updating_message(name@, payload@);
                final(self)@ == after && says(response, reply)
            }),
    {
        if payload.len() < MESSAGE_ID_SIZE {
            return plain_answer(Err(ErrorCode::PayloadMissingMessageId));
        }
        let hash: u128 = match self.locate(name) {
            Ok(hash) => hash,
            Err(error) => {
                return plain_answer(Err(error));
            },
        };
        let id: u128 = read_leading_id(payload);
        let rest = vstd::slice::slice_subrange(
            payload.as_slice(),
            MESSAGE_ID_SIZE,
            payload.len(),
        );
        assert(rest@ =~= payload@.skip(16));
        let mut queue = self.take_queue(hash);
        let result = queue.update_message(id, buffer_from(rest));
        self.put_queue(hash, queue);
        assert(self@ =~= old(self)@.with_queue(hash, queue@));
        if result.is_err() {
            assert(self@ =~= old(self)@);
        }
        plain_answer(result)
    }

    /// Changes the configuration of a queue as the payload says.
    pub fn update_queue(&mut self, name: &String, payload: &Vec<u8>) -> (response: ResponseMessage)
        requires
            old(self).wf(),
        ensures
            final(self).wf(),
            ({
                let (after, reply) = old(self)@.updating_queue(name@, payload@);
                final(self)@ == after && says(response, reply)
            }),
    {
        if payload.len() < 1 {
            return plain_answer(Err(ErrorCode::InvalidConfigPayloadSize));
        }
        let mut bytes: Vec<u8> = Vec::with_capacity(payload.len());
        push_all(&mut bytes, payload.as_slice());
        assert(bytes@ =~= payload@);
        let update = match NetQueueConfig::from_be_bytes(bytes) {
            Ok((update, _)) => update,
            Err(error) => {
                return plain_answer(Err(error));
            },
        };
        let hash: u128 = match self.locate(name) {
            Ok(hash) => hash,
            Err(error) => {
                return plain_answer(Err(error));
            },
        };
        let mut queue = self.take_queue(hash);
        if let Some(value) = update.auto_fail() {
            queue.update_config_auto_fail(value);
        }
        if let Some(value) = update.fail_timeout() {
            queue.update_config_fail_timeout(value);
        }
        self.put_queue(hash, queue);
        assert(self@ =~= old(self)@.with_queue(hash, queue@));
        plain_answer(Ok(()))
    }

    /// The figures of all queues.
    pub fn net_stats(&self) -> (response: ResponseMessage)
        requires
            self.wf(),
        ensures
            exists|stats: Seq<StatState>| #[trigger]
                self@.counts(stats) && says(
                    response,
                    Reply::Succeeded(net_stats::stats_bytes(stats)),
                ),
    {
        let mut watcher = StatWatcher::new();
        let mut i: usize = 0;
        while i < self.queue_names.len()
            invariant
                self.wf(),
                i <= self.queue_names@.len(),
                forall|a: int, b: int|
                    0 <= a < b < watcher@.len() ==> watcher@[a].queue_name
                        != watcher@[b].queue_name,
                forall|a: int| 0 <= a < watcher@.len() ==> self@.counts_one(#[trigger] watcher@[a]),
                forall|a: int|
                    #![trigger watcher@[a]]
                    0 <= a < watcher@.len() ==> named_before(
                        self.queue_names@,
                        i as int,
                        watcher@[a].queue_name,
                    ),
                forall|k: int|
                    #![trigger self.queue_names@[k]]
                    0 <= k < i && self@.located(self.queue_names@[k].name@) is Ok ==> exists|a: int|
                        0 <= a < watcher@.len() && #[trigger] watcher@[a].queue_name
                            == self.queue_names@[k].name@,
            decreases self.queue_names@.len() - i,
        {
            let entry = &self.queue_names[i];
            let ghost before = watcher@;
            proof {
                entry_decides(self.queue_names@, i as int);
            }
            if let Some(queue) = self.queue.get(&entry.hash) {
                let _ = watcher.new_stat(entry.name.clone(), queue);
                proof {
                    let stat = watcher@.last();
                    assert(watcher@ == before.push(stat));
                    assert(self@.counts_one(stat));
                    assert(named(self.queue_names@, i as int, stat.queue_name));
                    assert forall|a: int| 0 <= a < before.len() implies before[a].queue_name
                        != stat.queue_name by {
                        let k = choose|k: int|
                            0 <= k < i && named(self.queue_names@, k, before[a].queue_name);
                        assert(self.queue_names@[k].name@ == before[a].queue_name);
                    }
                    assert forall|a: int| 0 <= a < watcher@.len() implies self@.counts_one(
                        #[trigger] watcher@[a],
                    ) by {
                        if a < before.len() {
                            assert(watcher@[a] == before[a]);
                        }
                    }
                    assert forall|a: int|
                        #![trigger watcher@[a]]
                        0 <= a < watcher@.len() implies named_before(
                        self.queue_names@,
                        i + 1,
                        watcher@[a].queue_name,
                    ) by {
                        if a < before.len() {
                            assert(watcher@[a] == before[a]);
                            assert(named_before(
                                self.queue_names@,
                                i as int,
                                before[a].queue_name,
                            ));
                        }
                    }
                    assert forall|k: int|
                        #![trigger self.queue_names@[k]]
                        0 <= k < i + 1 && self@.located(self.queue_names@[k].name@) is Ok implies exists|
                        a: int,
                    |
                        0 <= a < watcher@.len() && #[trigger] watcher@[a].queue_name
                            == self.queue_names@[k].name@ by {
                        if k < i {
                            let a = choose|a: int|
                                0 <= a < before.len() && #[trigger] before[a].queue_name
                                    == self.queue_names@[k].name@;
                            assert(watcher@[a] == before[a]);
                        } else {
                            assert(watcher@[before.len() as int] == stat);
                        }
                    }
                }
            }
            i = i + 1;
        }
        let bytes = watcher.to_bytes();
        proof {
            assert forall|name: Seq<char>| #[trigger] self@.located(name) is Ok implies exists|i: int|
                0 <= i < watcher@.len() && #[trigger] watcher@[i].queue_name == name by {
                let k = choose|k: int| named(self.queue_names@, k, name);
                assert(named(self.queue_names@, k, name));
                assert(self.queue_names@[k].name@ == name);
            }
            assert(self@.counts(watcher@));
        }
        ResponseMessage::new(Response::Succeeded, bytes)
    }

    /// Does what a request asks for, with `hash` for a queue that it creates and
    /// `now` for a message that it adds.
    pub fn handle_at(&mut self, frame: &Frame, hash: u128, now: u64) -> (outcome: Outcome)
        requires
            old(self).wf(),
        ensures
            final(self).wf(),
            exists|reply: Reply| #[trigger]
                old(self)@.handling(frame@, hash, now, final(self)@, reply, outcome.timer) && says(
                    outcome.response,
                    reply,
                ),
    {
        let name = &frame.queue_name;
        let client_id: u128 = frame.client_id;
        let payload = frame.message.payload();
        let response = match frame.message.command() {
            Request::Enqueue => self.enqueue_message(name, client_id, payload, now),
            Request::Dequeue => {
                let outcome = self.lock_and_dequeue_message(name, client_id);
                proof {
                    let reply = old(self)@.delivering(name@, client_id).1;
                    assert(old(self)@.handling(frame@, hash, now, self@, reply, outcome.timer));
                }
                return outcome;
            },
            Request::CreateQ => self.create_queue(name, hash),
            Request::DeleteQ => self.delete_queue(name),
            Request::ListM => self.list_messages(name),
            Request::DeleteM => self.delete_message(name, client_id, payload),
            Request::Succeeded => self.dequeue_message_sent(name, client_id),
            Request::Failed => self.unlock_message(name, client_id),
            Request::Requeue => self.requeue_message(name, client_id, payload, now),
            Request::UpdateM => self.update_message(name, payload),
            Request::UpdateQ => self.update_queue(name, payload),
        };
        proof {
            let before = old(self)@;
            let reply = match frame@.command {
                Request::Enqueue => before.enqueuing(name@, client_id, payload@, now).1,
                Request::Dequeue => before.delivering(name@, client_id).1,
                Request::CreateQ => before.creating(name@, hash).1,
                Request::DeleteQ => before.deleting(name@).1,
                Request::ListM => choose|reply: Reply| #[trigger]
                    before.lists(name@, reply) && says(response, reply),
                Request::DeleteM => before.deleting_message(name@, client_id, payload@).1,
                Request::Succeeded => before.acknowledging(name@, client_id).1,
                Request::Failed => before.unlocking(name@, client_id).1,
                Request::Requeue => before.requeuing(name@, client_id, payload@, now).1,
                Request::UpdateM => before.updating_message(name@, payload@).1,
                Request::UpdateQ => before.updating_queue(name@, payload@).1,
            };
            assert(before.handling(frame@, hash, now, self@, reply, None));
        }
        Outcome { response, timer: None }
    }

    /// Does what a request asks for.
    pub fn handle(&mut self, frame: &Frame) -> (outcome: Outcome)
        requires
            old(self).wf(),
        ensures
            final(self).wf(),
            old(self)@.steps(frame@, outcome, final(self)@),
    {
        self.handle_at(frame, random_uuid(), now_millis())
    }

    /// Does what all requests ask for that have arrived in full, and gives what came
    /// of them in order. A command that does not exist is refused; then the
    /// connection has to end.
    pub fn serve(&mut self, buffer: &mut BytesMut) -> (result: (Vec<Outcome>, bool))
        requires
            old(self).wf(),
        ensures
            final(self).wf(),
            outside::buffer_bytes(*final(buffer)) == protocol::leftover(
                outside::buffer_bytes(*old(buffer)),
            ),
            result.1 == (protocol::arrival(outside::buffer_bytes(*final(buffer))) is Unknown),
            ({
                let frames = protocol::frames(outside::buffer_bytes(*old(buffer)));
                let count = frames.len() as int;
                &&& old(self)@.serves(frames, result.0@.take(count), final(self)@)
                &&& !result.1 ==> result.0@.len() == count
                &&& result.1 ==> {
                    &&& result.0@.len() == count + 1
                    &&& says(result.0@[count].response, Reply::Failed(ErrorCode::UnknownRequestType))
                    &&& result.0@[count].timer is None
                }
            }),
    {
        let (frames, unknown) = next_frames(buffer);
        let ghost all = protocol::contents(frames@);
        let mut outcomes: Vec<Outcome> = Vec::with_capacity(frames.len());
        let mut i: usize = 0;
        assert(self@.serves(all.take(0), outcomes@, self@));
        while i < frames.len()
            invariant
                i <= frames@.len(),
                all == protocol::contents(frames@),
                self.wf(),
                outcomes@.len() == i,
                old(self)@.serves(all.take(i as int), outcomes@, self@),
            decreases frames@.len() - i,
        {
            let ghost before = self@;
            let ghost done = outcomes@;
            let outcome = self.handle(&frames[i]);
            outcomes.push(outcome);
            proof {
                assert(all.take(i + 1).drop_last() =~= all.take(i as int));
                assert(outcomes@.drop_last() =~= done);
                assert(all.take(i + 1).last() == frames@[i as int]@);
                assert(before.steps(all.take(i + 1).last(), outcomes@.last(), self@));
            }
            i = i + 1;
        }
        assert(all.take(i as int) =~= all);
        let ghost served = outcomes@;
        if unknown {
            let response = plain_answer(Err(ErrorCode::UnknownRequestType));
            outcomes.push(Outcome { response, timer: None });
        }
        assert(outcomes@.take(all.len() as int) =~= served);
        (outcomes, unknown)
    }
}

} // verus!
