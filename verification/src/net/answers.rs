//! What each request does to the queue that it names, and how it is answered.
use vstd::prelude::*;

use crate::errors::ErrorCode;
use crate::net::effects;
use crate::net::laws;
use crate::net::model;
use crate::net::model::MessageState;
use crate::net::net_stats::StatState;
use crate::net::protocol::{FrameState, Request, Response, ResponseMessage};
use crate::net::queue;
use crate::net::queue::MessageMeta;
use crate::net::queue_config;
use crate::net::queue_config::ConfigUpdate;
use crate::net::server;
use crate::net::server::{FailTimer, Outcome, Reply, ServerState};
use crate::net::totals;
use crate::wire;

verus! {

/// A message id is read back from the start of a payload, whatever its value and
/// whatever follows it.
pub proof fn leading_id_is_read_back(id: u128, rest: Seq<u8>)
    ensures
        server::leading_id(wire::be_bytes(id as nat, 16) + rest) == id,
        (wire::be_bytes(id as nat, 16) + rest).len() == 16 + rest.len(),
        (wire::be_bytes(id as nat, 16) + rest).skip(16) == rest,
{
    broadcast use wire::be_bytes_len;

    let payload = wire::be_bytes(id as nat, 16) + rest;
    assert(payload.take(16) =~= wire::be_bytes(id as nat, 16));
    assert(payload.skip(16) =~= rest);
    wire::be_limit_values();
    wire::be_value_of_be_bytes(id as nat, 16);
}

/// A payload that is long enough starts with the bytes of the id that is read from it.
pub proof fn leading_id_is_what_a_payload_starts_with(payload: Seq<u8>)
    requires
        payload.len() >= 16,
    ensures
        payload == wire::be_bytes(server::leading_id(payload) as nat, 16) + payload.skip(16),
{
    let field = payload.take(16);
    wire::be_value_bound(field);
    wire::be_limit_values();
    wire::be_bytes_of_be_value(field);
    assert(payload =~= field + payload.skip(16));
}

/// A name stands for a queue where it is registered and the queue is there; which error
/// there is otherwise depends on which of the two is missing.
pub proof fn queues_are_found_by_name(server: ServerState, name: Seq<char>)
    ensures
        match server.located(name) {
            Ok(hash) => {
                &&& server.names.contains_key(name)
                &&& server.names[name] == hash
                &&& server.queues.contains_key(hash)
            },
            Err(error) => {
                &&& !(server.names.contains_key(name) && server.queues.contains_key(
                    server.names[name],
                ))
                &&& error == ErrorCode::QueueHashNotFound <==> !server.names.contains_key(name)
                &&& error == ErrorCode::QueueNotFound <==> server.names.contains_key(name)
            },
        },
{
}

/// A request for a queue whose name is registered but that is not there is refused,
/// unless it is to create or delete it or cannot be read.
pub proof fn lost_queue_is_told(
    server: ServerState,
    frame: FrameState,
    hash: u128,
    now: u64,
    after: ServerState,
    reply: Reply,
    timer: Option<FailTimer>,
)
    requires
        server.names.contains_key(frame.queue_name),
        !server.queues.contains_key(server.names[frame.queue_name]),
        !(frame.command is CreateQ),
        !(frame.command is DeleteQ),
        frame.command is UpdateM ==> frame.payload.len() >= 16,
        frame.command is UpdateQ ==> frame.payload.len() > 0 && ConfigUpdate::decode_error(
            frame.payload,
        ) is None,
        server.handling(frame, hash, now, after, reply, timer),
    ensures
        reply == Reply::Failed(ErrorCode::QueueNotFound),
        after == server,
        timer is None,
{
}

/// No request but those that create and delete queues touches a queue that it does not
/// name, or a name.
pub proof fn only_the_named_queue_changes(
    server: ServerState,
    frame: FrameState,
    hash: u128,
    now: u64,
    after: ServerState,
    reply: Reply,
    timer: Option<FailTimer>,
)
    requires
        server.handling(frame, hash, now, after, reply, timer),
        !(frame.command is CreateQ),
        !(frame.command is DeleteQ),
    ensures
        after.names == server.names,
        after.queues.dom() == server.queues.dom(),
        forall|other: u128|
            !(server.names.contains_key(frame.queue_name) && other
                == server.names[frame.queue_name]) ==> #[trigger] after.queues[other]
                == server.queues[other],
{
    assert(after.queues.dom() =~= server.queues.dom());
}

/// Handling a request keeps every queue well formed.
pub proof fn requests_keep_queues_well_formed(
    server: ServerState,
    frame: FrameState,
    hash: u128,
    now: u64,
    after: ServerState,
    reply: Reply,
    timer: Option<FailTimer>,
)
    requires
        server.wf(),
        server.handling(frame, hash, now, after, reply, timer),
    ensures
        after.wf(),
{
    let at = server.names[frame.queue_name];
    let queue = server.queues[at];
    let client = frame.client_id;
    let id = server::leading_id(frame.payload);
    if server.located(frame.queue_name) is Ok {
        match frame.command {
            Request::Enqueue => laws::enqueuing_keeps_wf(queue, frame.payload, client, now),
            Request::Dequeue => if queue.lock_error() is None {
                laws::locking_keeps_wf(queue, client);
            },
            Request::DeleteM => if queue.messages.contains_key(id) {
                laws::deleting_keeps_wf(queue, client, id);
            },
            Request::Succeeded => if queue.held(client).len() > 0 {
                effects::acknowledging_removes_the_oldest_lock(queue, client);
                laws::deleting_keeps_wf(queue, client, queue.held(client)[0]);
            },
            Request::Failed => if queue.held(client).len() > 0 {
                assert(queue.held(client).contains(queue.held(client)[0]));
                laws::releasing_keeps_wf(queue, client, queue.held(client)[0]);
            },
            Request::Requeue => if queue.messages.contains_key(id) {
                let message = queue.messages[id];
                laws::deleting_keeps_wf(queue, client, id);
                laws::enqueuing_keeps_wf(
                    queue.deleted(client, id),
                    message.payload,
                    message.publisher_id,
                    now,
                );
            },
            Request::UpdateM => if queue.messages.contains_key(id) {
                laws::updating_keeps_wf(queue, id, frame.payload.skip(16));
            },
            Request::UpdateQ => {
                let update = ConfigUpdate::decoded(frame.payload);
                let configured = queue.configured(update);
                laws::configuring_keeps_wf(queue, configured.auto_fail, configured.fail_timeout);
            },
            _ => {},
        }
    }
    if frame.command is CreateQ {
        effects::new_queue_holds_nothing(client);
    }
    assert(after.queues.dom().finite());
}

/// To enqueue adds one message at the end of the queue, from this client and with this
/// payload and time, and nothing is given back.
pub proof fn enqueue_adds_one_message(
    server: ServerState,
    frame: FrameState,
    hash: u128,
    now: u64,
    after: ServerState,
    reply: Reply,
    timer: Option<FailTimer>,
)
    requires
        server.wf(),
        frame.command is Enqueue,
        server.names.contains_key(frame.queue_name),
        server.queues.contains_key(server.names[frame.queue_name]),
        server.handling(frame, hash, now, after, reply, timer),
    ensures
        ({
            let at = server.names[frame.queue_name];
            let before = server.queues[at];
            let queue = after.queues[at];
            let id: u128 = if before.last_id == u128::MAX {
                1
            } else {
                (before.last_id + 1) as u128
            };
            &&& reply == Reply::Succeeded(Seq::empty())
            &&& queue.messages.dom() == before.messages.dom().insert(id)
            &&& queue.messages[id].payload == frame.payload
            &&& queue.messages[id].publisher_id == frame.client_id
            &&& queue.messages[id].timestamp == now
            &&& queue.messages[id].locked_by is None
            &&& forall|other: u128|
                other != id ==> #[trigger] queue.messages[other] == before.messages[other]
            &&& effects::live(queue.order) == effects::others(
                effects::live(before.order),
                id,
            ).push(id)
            &&& forall|client: u128| #[trigger]
                queue.held(client) == effects::others(before.held(client), id)
            &&& queue.last_id == id
            &&& !before.wrapped && before.last_id < u128::MAX ==> {
                &&& !before.messages.contains_key(id)
                &&& queue.locks == before.locks
                &&& queue.order == before.order.push(id)
            }
            &&& queue.auto_fail == before.auto_fail
            &&& queue.fail_timeout == before.fail_timeout
        }),
{
    let before = server.queues[server.names[frame.queue_name]];
    effects::enqueuing_replaces_where_ids_start_over(before, frame.payload, frame.client_id, now);
    if !before.wrapped && before.last_id < u128::MAX {
        effects::enqueuing_adds_one_message(before, frame.payload, frame.client_id, now);
    }
}

/// To dequeue hands the client the first message that nobody holds: only that message
/// changes hands, and the answer tells its id, publisher, time, holder and payload.
pub proof fn dequeue_hands_out_the_first_free_message(
    server: ServerState,
    frame: FrameState,
    hash: u128,
    now: u64,
    after: ServerState,
    reply: Reply,
    timer: Option<FailTimer>,
    at: int,
)
    requires
        server.wf(),
        frame.command is Dequeue,
        server.names.contains_key(frame.queue_name),
        server.queues.contains_key(server.names[frame.queue_name]),
        server.handling(frame, hash, now, after, reply, timer),
        ({
            let before = server.queues[server.names[frame.queue_name]];
            &&& 0 <= at < before.order.len()
            &&& before.messages.contains_key(before.order[at])
            &&& before.messages[before.order[at]].locked_by is None
            &&& forall|i: int|
                0 <= i < at && before.messages.contains_key(#[trigger] before.order[i])
                    ==> before.messages[before.order[i]].locked_by is Some
        }),
    ensures
        ({
            let before = server.queues[server.names[frame.queue_name]];
            let queue = after.queues[server.names[frame.queue_name]];
            let id = before.order[at];
            &&& queue.messages.dom() == before.messages.dom()
            &&& queue.messages[id].locked_by == Some(frame.client_id)
            &&& queue.messages[id].payload == before.messages[id].payload
            &&& queue.messages[id].publisher_id == before.messages[id].publisher_id
            &&& queue.messages[id].timestamp == before.messages[id].timestamp
            &&& forall|other: u128|
                other != id ==> #[trigger] queue.messages[other] == before.messages[other]
            &&& queue.held(frame.client_id) == before.held(frame.client_id).push(id)
            &&& forall|client: u128|
                client != frame.client_id ==> #[trigger] queue.held(client) == before.held(client)
            &&& effects::live(queue.order) == effects::live(before.order)
            &&& reply matches Reply::Succeeded(bytes)
            &&& bytes.len() == 56 + before.messages[id].payload.len()
            &&& wire::be_value(bytes.subrange(0, 16)) == id
            &&& wire::be_value(bytes.subrange(16, 32)) == before.messages[id].publisher_id
            &&& wire::be_value(bytes.subrange(32, 40)) == before.messages[id].timestamp
            &&& wire::be_value(bytes.subrange(40, 56)) == frame.client_id
            &&& bytes.skip(56) == before.messages[id].payload
        }),
{
    let before = server.queues[server.names[frame.queue_name]];
    assert forall|i: int| 0 <= i < at implies !model::is_free(
        before.messages,
        #[trigger] before.order[i],
    ) by {}
    laws::first_free_is_first(before.order, before.messages, at);
    effects::locking_hands_out_one_message(before, frame.client_id);
    effects::delivery_tells_the_next_message(before, frame.client_id);
}

/// To dequeue where every message is held is refused: the queue is empty.
pub proof fn dequeue_from_an_empty_queue_is_refused(
    server: ServerState,
    frame: FrameState,
    hash: u128,
    now: u64,
    after: ServerState,
    reply: Reply,
    timer: Option<FailTimer>,
)
    requires
        server.wf(),
        frame.command is Dequeue,
        server.names.contains_key(frame.queue_name),
        server.queues.contains_key(server.names[frame.queue_name]),
        server.handling(frame, hash, now, after, reply, timer),
    ensures
        reply is Failed <==> forall|id: u128| #[trigger]
            server.queues[server.names[frame.queue_name]].messages.contains_key(id)
                ==> server.queues[server.names[frame.queue_name]].messages[id].locked_by is Some,
        reply is Failed ==> reply == Reply::Failed(ErrorCode::QueueIsEmpty) && after == server
            && timer is None,
{
    effects::locking_fails_on_an_empty_queue(server.queues[server.names[frame.queue_name]]);
}

/// A delivery from a queue that fails messages by itself starts a timer: for this queue,
/// this client and the message that was handed out, and for as long as the queue is
/// configured to wait. Nothing else starts one.
pub proof fn delivery_starts_the_configured_timer(
    server: ServerState,
    frame: FrameState,
    hash: u128,
    now: u64,
    after: ServerState,
    reply: Reply,
    timer: Option<FailTimer>,
)
    requires
        server.wf(),
        server.handling(frame, hash, now, after, reply, timer),
    ensures
        timer is Some <==> {
            &&& frame.command is Dequeue
            &&& reply is Succeeded
            &&& server.queues[server.names[frame.queue_name]].auto_fail
            &&& server.queues[server.names[frame.queue_name]].fail_timeout > 0
        },
        timer matches Some(started) ==> {
            let at = server.names[frame.queue_name];
            let before = server.queues[at].messages;
            let messages = after.queues[at].messages;
            &&& started.timeout == server.queues[at].fail_timeout
            &&& started.client_id == frame.client_id
            &&& started.hash == at
            &&& before.contains_key(started.message_id)
            &&& before[started.message_id].locked_by is None
            &&& messages[started.message_id].locked_by == Some(frame.client_id)
            &&& reply matches Reply::Succeeded(bytes) && wire::be_value(bytes.subrange(0, 16))
                == started.message_id
        },
{
    let queue = server.queues[server.names[frame.queue_name]];
    if frame.command is Dequeue && server.located(frame.queue_name) is Ok
        && queue.lock_error() is None {
        effects::locking_hands_out_one_message(queue, frame.client_id);
        effects::delivery_tells_the_next_message(queue, frame.client_id);
    }
}

/// A queue whose messages are not all held, and that is configured to fail messages
/// after a while, starts a timer with each delivery.
pub proof fn every_delivery_is_timed(
    server: ServerState,
    frame: FrameState,
    hash: u128,
    now: u64,
    after: ServerState,
    reply: Reply,
    timer: Option<FailTimer>,
    free: u128,
)
    requires
        server.wf(),
        frame.command is Dequeue,
        server.names.contains_key(frame.queue_name),
        server.queues.contains_key(server.names[frame.queue_name]),
        server.queues[server.names[frame.queue_name]].auto_fail,
        server.queues[server.names[frame.queue_name]].fail_timeout != 0,
        server.queues[server.names[frame.queue_name]].messages.contains_key(free),
        server.queues[server.names[frame.queue_name]].messages[free].locked_by is None,
        server.handling(frame, hash, now, after, reply, timer),
    ensures
        timer matches Some(started) && started.timeout
            == server.queues[server.names[frame.queue_name]].fail_timeout && started.client_id
            == frame.client_id && started.hash == server.names[frame.queue_name]
            && after.queues[server.names[frame.queue_name]].held(frame.client_id).last()
            == started.message_id,
{
    let queue = server.queues[server.names[frame.queue_name]];
    effects::locking_fails_on_an_empty_queue(queue);
    effects::locking_hands_out_one_message(queue, frame.client_id);
}

/// An acknowledgement removes exactly one message, the one that the client has held
/// longest, however many it holds; the client keeps its other locks.
pub proof fn acknowledgement_removes_one_message(
    server: ServerState,
    frame: FrameState,
    hash: u128,
    now: u64,
    after: ServerState,
    reply: Reply,
    timer: Option<FailTimer>,
)
    requires
        server.wf(),
        frame.command is Succeeded,
        server.names.contains_key(frame.queue_name),
        server.queues.contains_key(server.names[frame.queue_name]),
        server.handling(frame, hash, now, after, reply, timer),
    ensures
        ({
            let before = server.queues[server.names[frame.queue_name]];
            let queue = after.queues[server.names[frame.queue_name]];
            let held = before.held(frame.client_id);
            &&& reply is Succeeded <==> held.len() > 0
            &&& held.len() > 0 ==> {
                &&& reply == Reply::Succeeded(Seq::empty())
                &&& before.messages.contains_key(held[0])
                &&& before.messages[held[0]].locked_by == Some(frame.client_id)
                &&& queue.messages == before.messages.remove(held[0])
                &&& queue.held(frame.client_id) == held.drop_first()
                &&& forall|client: u128|
                    client != frame.client_id ==> #[trigger] queue.held(client) == before.held(
                        client,
                    )
                &&& effects::live(queue.order) == effects::others(
                    effects::live(before.order),
                    held[0],
                )
            }
            &&& held.len() == 0 ==> after == server && reply == Reply::Failed(
                if before.order.len() == 0 {
                    ErrorCode::QueueIsEmpty
                } else if before.locks.contains_key(frame.client_id) {
                    ErrorCode::NoSuchMessageIdLocked
                } else {
                    ErrorCode::MessageNotLockedByClient
                },
            )
        }),
{
    let before = server.queues[server.names[frame.queue_name]];
    if before.held(frame.client_id).len() > 0 {
        effects::acknowledging_removes_the_oldest_lock(before, frame.client_id);
    }
}

/// A message that a client fails is the one that it has held longest, and no other:
/// only that one changes its holder, however many the client holds, and the client
/// keeps its other locks.
pub proof fn failure_gives_one_message_back(
    server: ServerState,
    frame: FrameState,
    hash: u128,
    now: u64,
    after: ServerState,
    reply: Reply,
    timer: Option<FailTimer>,
)
    requires
        server.wf(),
        frame.command is Failed,
        server.names.contains_key(frame.queue_name),
        server.queues.contains_key(server.names[frame.queue_name]),
        server.handling(frame, hash, now, after, reply, timer),
    ensures
        ({
            let before = server.queues[server.names[frame.queue_name]];
            let queue = after.queues[server.names[frame.queue_name]];
            let held = before.held(frame.client_id);
            &&& held.len() > 0 ==> {
                &&& reply == Reply::Succeeded(Seq::empty())
                &&& queue.messages.dom() == before.messages.dom()
                &&& before.messages.contains_key(held[0])
                &&& before.messages[held[0]].locked_by == Some(frame.client_id)
                &&& queue.messages[held[0]].locked_by is None
                &&& queue.messages[held[0]].payload == before.messages[held[0]].payload
                &&& queue.messages[held[0]].publisher_id == before.messages[held[0]].publisher_id
                &&& queue.messages[held[0]].timestamp == before.messages[held[0]].timestamp
                &&& forall|other: u128|
                    other != held[0] ==> #[trigger] queue.messages[other] == before.messages[other]
                &&& queue.held(frame.client_id) == held.drop_first()
                &&& forall|client: u128|
                    client != frame.client_id ==> #[trigger] queue.held(client) == before.held(
                        client,
                    )
                &&& queue.order == before.order
            }
            &&& held.len() == 0 ==> after == server && reply == if before.order.len() == 0 {
                Reply::Failed(ErrorCode::QueueIsEmpty)
            } else if before.locks.contains_key(frame.client_id) {
                Reply::Succeeded(Seq::empty())
            } else {
                Reply::Failed(ErrorCode::MessageNotLockedByClient)
            }
        }),
{
    let at = server.names[frame.queue_name];
    let before = server.queues[at];
    if before.held(frame.client_id).len() > 0 {
        effects::giving_back_frees_the_oldest_lock(before, frame.client_id);
    } else {
        assert(server.with_queue(at, before) =~= server);
    }
}

/// To delete a message removes the one whose id the payload starts with, whatever id
/// that is, and no other; whoever held it holds it no more.
pub proof fn deletion_removes_the_named_message(
    server: ServerState,
    frame: FrameState,
    hash: u128,
    now: u64,
    after: ServerState,
    reply: Reply,
    timer: Option<FailTimer>,
    id: u128,
    rest: Seq<u8>,
)
    requires
        server.wf(),
        frame.command is DeleteM,
        frame.payload == wire::be_bytes(id as nat, 16) + rest,
        server.names.contains_key(frame.queue_name),
        server.queues.contains_key(server.names[frame.queue_name]),
        server.handling(frame, hash, now, after, reply, timer),
    ensures
        ({
            let before = server.queues[server.names[frame.queue_name]];
            let queue = after.queues[server.names[frame.queue_name]];
            &&& before.messages.contains_key(id) ==> {
                &&& reply == Reply::Succeeded(Seq::empty())
                &&& queue.messages == before.messages.remove(id)
                &&& forall|client: u128| #[trigger]
                    queue.held(client) == effects::others(before.held(client), id)
                &&& effects::live(queue.order) == effects::others(effects::live(before.order), id)
            }
            &&& !before.messages.contains_key(id) ==> after == server && reply == Reply::Failed(
                if before.order.len() == 0 {
                    ErrorCode::QueueIsEmpty
                } else {
                    ErrorCode::NoSuchMessageId
                },
            )
        }),
{
    leading_id_is_read_back(id, rest);
    let before = server.queues[server.names[frame.queue_name]];
    if before.messages.contains_key(id) {
        effects::dequeuing_by_id_removes_that_message(before, frame.client_id, id);
    }
}

/// To requeue moves the message whose id the payload starts with, whatever id that is,
/// to the end under a new id, unlocked, and no other.
pub proof fn requeue_moves_the_named_message(
    server: ServerState,
    frame: FrameState,
    hash: u128,
    now: u64,
    after: ServerState,
    reply: Reply,
    timer: Option<FailTimer>,
    id: u128,
    rest: Seq<u8>,
)
    requires
        server.wf(),
        frame.command is Requeue,
        frame.payload == wire::be_bytes(id as nat, 16) + rest,
        server.names.contains_key(frame.queue_name),
        server.queues.contains_key(server.names[frame.queue_name]),
        server.handling(frame, hash, now, after, reply, timer),
    ensures
        ({
            let before = server.queues[server.names[frame.queue_name]];
            let queue = after.queues[server.names[frame.queue_name]];
            let new_id: u128 = if before.last_id == u128::MAX {
                1
            } else {
                (before.last_id + 1) as u128
            };
            &&& before.messages.contains_key(id) ==> {
                &&& reply == Reply::Succeeded(Seq::empty())
                &&& queue.messages.dom() == before.messages.dom().remove(id).insert(new_id)
                &&& queue.messages[new_id].payload == before.messages[id].payload
                &&& queue.messages[new_id].publisher_id == before.messages[id].publisher_id
                &&& queue.messages[new_id].timestamp == now
                &&& queue.messages[new_id].locked_by is None
                &&& forall|other: u128|
                    other != id && other != new_id ==> #[trigger] queue.messages[other]
                        == before.messages[other]
                &&& forall|client: u128| #[trigger]
                    queue.held(client) == effects::others(
                        effects::others(before.held(client), id),
                        new_id,
                    )
                &&& effects::live(queue.order) == effects::others(
                    effects::others(effects::live(before.order), id),
                    new_id,
                ).push(new_id)
                &&& !before.wrapped && before.last_id < u128::MAX ==> {
                    &&& new_id != id
                    &&& !before.messages.contains_key(new_id)
                    &&& forall|client: u128| #[trigger]
                        queue.held(client) == effects::others(before.held(client), id)
                    &&& effects::live(queue.order) == effects::others(
                        effects::live(before.order),
                        id,
                    ).push(new_id)
                }
            }
            &&& !before.messages.contains_key(id) ==> after == server && reply == Reply::Failed(
                if before.order.len() == 0 {
                    ErrorCode::QueueIsEmpty
                } else {
                    ErrorCode::MessageNotInQueue
                },
            )
        }),
{
    leading_id_is_read_back(id, rest);
    let before = server.queues[server.names[frame.queue_name]];
    if before.messages.contains_key(id) {
        effects::requeuing_replaces_where_ids_start_over(before, frame.client_id, id, now);
        if !before.wrapped && before.last_id < u128::MAX {
            effects::requeuing_moves_one_message(before, frame.client_id, id, now);
        }
    }
}

/// To update a message gives the one whose id the payload starts with, whatever id that
/// is, what follows the id as its payload, and changes nothing else.
pub proof fn update_replaces_the_named_payload(
    server: ServerState,
    frame: FrameState,
    hash: u128,
    now: u64,
    after: ServerState,
    reply: Reply,
    timer: Option<FailTimer>,
    id: u128,
    payload: Seq<u8>,
)
    requires
        server.wf(),
        frame.command is UpdateM,
        frame.payload == wire::be_bytes(id as nat, 16) + payload,
        server.names.contains_key(frame.queue_name),
        server.queues.contains_key(server.names[frame.queue_name]),
        server.handling(frame, hash, now, after, reply, timer),
    ensures
        ({
            let before = server.queues[server.names[frame.queue_name]];
            let queue = after.queues[server.names[frame.queue_name]];
            &&& before.messages.contains_key(id) ==> {
                &&& reply == Reply::Succeeded(Seq::empty())
                &&& queue.messages.dom() == before.messages.dom()
                &&& queue.messages[id].payload == payload
                &&& queue.messages[id].publisher_id == before.messages[id].publisher_id
                &&& queue.messages[id].timestamp == before.messages[id].timestamp
                &&& queue.messages[id].locked_by == before.messages[id].locked_by
                &&& forall|other: u128|
                    other != id ==> #[trigger] queue.messages[other] == before.messages[other]
                &&& queue.locks == before.locks
                &&& queue.order == before.order
                &&& queue.next_id == before.next_id
            }
            &&& !before.messages.contains_key(id) ==> after == server && reply == Reply::Failed(
                if before.order.len() == 0 {
                    ErrorCode::QueueIsEmpty
                } else {
                    ErrorCode::MessageNotInQueue
                },
            )
        }),
{
    leading_id_is_read_back(id, payload);
    let before = server.queues[server.names[frame.queue_name]];
    if before.messages.contains_key(id) {
        effects::updating_replaces_one_payload(before, id, payload);
    }
}

/// A request that has to name a message and is too short to do so is refused.
pub proof fn missing_message_id_is_refused(
    server: ServerState,
    frame: FrameState,
    hash: u128,
    now: u64,
    after: ServerState,
    reply: Reply,
    timer: Option<FailTimer>,
)
    requires
        frame.command is DeleteM || frame.command is Requeue || frame.command is UpdateM,
        frame.payload.len() < 16,
        server.names.contains_key(frame.queue_name),
        server.queues.contains_key(server.names[frame.queue_name]),
        server.handling(frame, hash, now, after, reply, timer),
    ensures
        reply == Reply::Failed(ErrorCode::PayloadMissingMessageId),
        after == server,
{
}

/// To update a queue sets the values that the payload starts with, whatever follows
/// them, and leaves the others and all messages as they are.
pub proof fn queue_update_sets_what_is_named(
    server: ServerState,
    frame: FrameState,
    hash: u128,
    now: u64,
    after: ServerState,
    reply: Reply,
    timer: Option<FailTimer>,
    update: ConfigUpdate,
    rest: Seq<u8>,
)
    requires
        frame.command is UpdateQ,
        frame.payload == update.encoded() + rest,
        server.names.contains_key(frame.queue_name),
        server.queues.contains_key(server.names[frame.queue_name]),
        server.handling(frame, hash, now, after, reply, timer),
    ensures
        ({
            let before = server.queues[server.names[frame.queue_name]];
            let queue = after.queues[server.names[frame.queue_name]];
            &&& reply == Reply::Succeeded(Seq::empty())
            &&& update.auto_fail matches Some(value) ==> queue.auto_fail == value
            &&& update.auto_fail is None ==> queue.auto_fail == before.auto_fail
            &&& update.fail_timeout matches Some(value) ==> queue.fail_timeout == value
            &&& update.fail_timeout is None ==> queue.fail_timeout == before.fail_timeout
            &&& queue.messages == before.messages
            &&& queue.locks == before.locks
            &&& queue.order == before.order
            &&& queue.next_id == before.next_id
            &&& queue.last_id == before.last_id
        }),
{
    queue_config::decoding_undoes_encoding(update, rest);
}

/// An update of a queue that does not say all that it announces is refused: it is
/// empty, or the value of a flag is missing.
pub proof fn broken_queue_update_is_refused(
    server: ServerState,
    frame: FrameState,
    hash: u128,
    now: u64,
    after: ServerState,
    reply: Reply,
    timer: Option<FailTimer>,
)
    requires
        frame.command is UpdateQ,
        server.handling(frame, hash, now, after, reply, timer),
        ({
            let flags = frame.payload[0];
            ||| frame.payload.len() == 0
            ||| frame.payload.len() < 1 + (if flags % 2 == 1 {
                1int
            } else {
                0
            }) + (if flags % 4 >= 2 {
                8int
            } else {
                0
            })
        }),
    ensures
        after == server,
        reply == Reply::Failed(
            if frame.payload.len() == 0 {
                ErrorCode::InvalidConfigPayloadSize
            } else if frame.payload[0] % 2 == 1 && frame.payload.len() == 1 {
                ErrorCode::ConfigInvalidAutoFail
            } else {
                ErrorCode::ConfigInvalidFailTimeout
            },
        ),
{
    let flags = frame.payload[0];
    assert((flags % 4 >= 2) == (flags / 2 % 2 == 1)) by (bit_vector);
}

/// To create a queue that does not exist adds an empty one under its name, and touches
/// no other; to create one that exists is refused.
pub proof fn creation_adds_an_empty_queue(
    server: ServerState,
    frame: FrameState,
    hash: u128,
    now: u64,
    after: ServerState,
    reply: Reply,
    timer: Option<FailTimer>,
    client: u128,
)
    requires
        frame.command is CreateQ,
        server.handling(frame, hash, now, after, reply, timer),
    ensures
        server.names.contains_key(frame.queue_name) ==> reply == Reply::Failed(
            ErrorCode::QueueAlreadyExists,
        ) && after == server,
        !server.names.contains_key(frame.queue_name) ==> {
            let queue = after.queues[hash];
            &&& reply == Reply::Succeeded(Seq::empty())
            &&& after.names == server.names.insert(frame.queue_name, hash)
            &&& after.queues.dom() == server.queues.dom().insert(hash)
            &&& forall|other: u128|
                other != hash ==> #[trigger] after.queues[other] == server.queues[other]
            &&& queue.messages.dom() == Set::<u128>::empty()
            &&& queue.order.len() == 0
            &&& queue.locks.dom() == Set::<u128>::empty()
            &&& queue.held(client).len() == 0
            &&& queue.last_id == 0
            &&& !queue.auto_fail
            &&& queue.fail_timeout == 0
        },
{
    effects::new_queue_holds_nothing(client);
    if !server.names.contains_key(frame.queue_name) {
        assert(after.queues.dom() =~= server.queues.dom().insert(hash));
    }
}

/// To delete a queue removes it with its name, and touches no other; to delete one that
/// does not exist is refused.
pub proof fn deletion_removes_the_queue(
    server: ServerState,
    frame: FrameState,
    hash: u128,
    now: u64,
    after: ServerState,
    reply: Reply,
    timer: Option<FailTimer>,
)
    requires
        frame.command is DeleteQ,
        server.handling(frame, hash, now, after, reply, timer),
    ensures
        !server.names.contains_key(frame.queue_name) ==> reply == Reply::Failed(
            ErrorCode::QueueDoesNotExist,
        ) && after == server,
        server.names.contains_key(frame.queue_name) ==> {
            &&& reply == Reply::Succeeded(Seq::empty())
            &&& after.names == server.names.remove(frame.queue_name)
            &&& after.queues == server.queues.remove(server.names[frame.queue_name])
        },
{
}

/// Where descriptions follow each other, each takes 56 bytes.
proof fn entry_of_a_listing(list: Seq<MessageMeta>, k: int)
    requires
        0 <= k < list.len(),
    ensures
        server::listing(list).len() == 56 * list.len(),
        server::listing(list).subrange(56 * k, 56 * k + 56) == model::meta_bytes(
            list[k].id,
            list[k].with_payload(Seq::empty()),
        ),
    decreases list.len(),
{
    let front = list.drop_last();
    let last = model::meta_bytes(list.last().id, list.last().with_payload(Seq::empty()));
    effects::description_tells_the_message(list.last().id, list.last().with_payload(Seq::empty()));
    length_of_a_listing(front);
    let bytes = server::listing(list);
    assert(bytes == server::listing(front) + last);
    if k < front.len() {
        entry_of_a_listing(front, k);
        assert(bytes.subrange(56 * k, 56 * k + 56) =~= server::listing(front).subrange(
            56 * k,
            56 * k + 56,
        ));
    } else {
        assert(bytes.subrange(56 * k, 56 * k + 56) =~= last);
    }
}

/// Descriptions take 56 bytes each.
proof fn length_of_a_listing(list: Seq<MessageMeta>)
    ensures
        server::listing(list).len() == 56 * list.len(),
    decreases list.len(),
{
    if list.len() > 0 {
        length_of_a_listing(list.drop_last());
        effects::description_tells_the_message(
            list.last().id,
            list.last().with_payload(Seq::empty()),
        );
    }
}

/// Whether the 56 bytes from `56 * k` on describe a message: its id, its publisher, its
/// time and its holder, each as a big-endian number, with the largest for no holder.
pub open spec fn describes_at(bytes: Seq<u8>, k: int, id: u128, message: MessageState) -> bool {
    &&& 0 <= 56 * k
    &&& 56 * k + 56 <= bytes.len()
    &&& wire::be_value(bytes.subrange(56 * k, 56 * k + 16)) == id
    &&& wire::be_value(bytes.subrange(56 * k + 16, 56 * k + 32)) == message.publisher_id
    &&& wire::be_value(bytes.subrange(56 * k + 32, 56 * k + 40)) == message.timestamp
    &&& wire::be_value(bytes.subrange(56 * k + 40, 56 * k + 56)) == match message.locked_by {
        Some(client) => client,
        None => u128::MAX,
    }
}

/// The id in the 56 bytes from `56 * k` on.
pub open spec fn id_at(bytes: Seq<u8>, k: int) -> u128 {
    wire::be_value(bytes.subrange(56 * k, 56 * k + 16)) as u128
}

/// An entry of a list that describes messages is found among the bytes.
proof fn listed_message_is_described(
    list: Seq<MessageMeta>,
    messages: Map<u128, MessageState>,
    k: int,
)
    requires
        queue::describes(list, messages),
        0 <= k < list.len(),
    ensures
        messages.contains_key(list[k].id),
        describes_at(server::listing(list), k, list[k].id, messages[list[k].id]),
{
    let bytes = server::listing(list);
    let meta = list[k];
    let message = messages[meta.id];
    entry_of_a_listing(list, k);
    effects::description_tells_the_message(meta.id, meta.with_payload(Seq::empty()));
    let entry = bytes.subrange(56 * k, 56 * k + 56);
    assert(meta.with_payload(message.payload) == message);
    assert(bytes.subrange(56 * k, 56 * k + 16) =~= entry.subrange(0, 16));
    assert(bytes.subrange(56 * k + 16, 56 * k + 32) =~= entry.subrange(16, 32));
    assert(bytes.subrange(56 * k + 32, 56 * k + 40) =~= entry.subrange(32, 40));
    assert(bytes.subrange(56 * k + 40, 56 * k + 56) =~= entry.subrange(40, 56));
}

/// A list that describes each message once has an entry for every one of them.
proof fn every_message_is_listed(
    list: Seq<MessageMeta>,
    messages: Map<u128, MessageState>,
    id: u128,
) -> (k: int)
    requires
        queue::describes(list, messages),
        messages.dom().finite(),
        messages.contains_key(id),
    ensures
        0 <= k < list.len(),
        list[k].id == id,
{
    let ids = list.map_values(|meta: MessageMeta| meta.id);
    assert forall|i: int, j: int|
        0 <= i < ids.len() && 0 <= j < ids.len() && i != j implies ids[i] != ids[j] by {
        if i < j {
            assert(list[i].id != list[j].id);
        } else {
            assert(list[j].id != list[i].id);
        }
    }
    ids.unique_seq_to_set();
    vstd::seq_lib::seq_to_set_is_finite(ids);
    assert(ids.to_set().subset_of(messages.dom())) by {
        assert forall|other: u128| ids.to_set().contains(other) implies messages.dom().contains(
            other,
        ) by {
            let i = ids.index_of(other);
            assert(messages.contains_key(list[i].id));
        }
    }
    vstd::set_lib::lemma_subset_equality(ids.to_set(), messages.dom());
    assert(ids.to_set().contains(id));
    ids.index_of(id)
}

/// A list of messages has 56 bytes for each message of the queue, held or not: every
/// entry describes a stored message, and every stored message has an entry.
pub proof fn listing_describes_every_message(
    server: ServerState,
    frame: FrameState,
    hash: u128,
    now: u64,
    after: ServerState,
    reply: Reply,
    timer: Option<FailTimer>,
)
    requires
        server.wf(),
        frame.command is ListM,
        server.names.contains_key(frame.queue_name),
        server.queues.contains_key(server.names[frame.queue_name]),
        server.handling(frame, hash, now, after, reply, timer),
    ensures
        after == server,
        reply matches Reply::Succeeded(bytes) && {
            let messages = server.queues[server.names[frame.queue_name]].messages;
            &&& bytes.len() == 56 * messages.dom().len()
            &&& forall|id: u128| #[trigger]
                messages.contains_key(id) ==> exists|k: int| #[trigger]
                    describes_at(bytes, k, id, messages[id])
            &&& forall|k: int|
                #![trigger id_at(bytes, k)]
                0 <= k < messages.dom().len() ==> messages.contains_key(id_at(bytes, k))
                    && describes_at(bytes, k, id_at(bytes, k), messages[id_at(bytes, k)])
        },
{
    let messages = server.queues[server.names[frame.queue_name]].messages;
    let list = choose|list: Seq<MessageMeta>| #[trigger]
        queue::describes(list, messages) && reply == Reply::Succeeded(server::listing(list));
    let bytes = server::listing(list);
    length_of_a_listing(list);
    assert forall|id: u128| #[trigger] messages.contains_key(id) implies exists|k: int| #[trigger]
        describes_at(bytes, k, id, messages[id]) by {
        let k = every_message_is_listed(list, messages, id);
        listed_message_is_described(list, messages, k);
    }
    assert forall|k: int|
        #![trigger id_at(bytes, k)]
        0 <= k < messages.dom().len() implies messages.contains_key(id_at(bytes, k))
        && describes_at(bytes, k, id_at(bytes, k), messages[id_at(bytes, k)]) by {
        listed_message_is_described(list, messages, k);
    }
}

/// A timer that runs out gives its message back where the client still holds it, and
/// touches no other message, lock or queue; where the client holds it no more, nothing
/// happens.
pub proof fn expired_timer_frees_its_message(server: ServerState, timer: FailTimer)
    requires
        server.wf(),
    ensures
        ({
            let before = server.queues[timer.hash];
            let after = server.expired(timer);
            let queue = after.queues[timer.hash];
            let id = timer.message_id;
            &&& !(server.queues.contains_key(timer.hash) && before.held(timer.client_id).contains(
                id,
            )) ==> after == server
            &&& server.queues.contains_key(timer.hash) && before.held(timer.client_id).contains(
                id,
            ) ==> {
                &&& after.names == server.names
                &&& after.queues.dom() == server.queues.dom()
                &&& forall|other: u128|
                    other != timer.hash ==> #[trigger] after.queues[other] == server.queues[other]
                &&& queue.messages.dom() == before.messages.dom()
                &&& before.messages[id].locked_by == Some(timer.client_id)
                &&& queue.messages[id].locked_by is None
                &&& queue.messages[id].payload == before.messages[id].payload
                &&& queue.messages[id].publisher_id == before.messages[id].publisher_id
                &&& queue.messages[id].timestamp == before.messages[id].timestamp
                &&& forall|other: u128|
                    other != id ==> #[trigger] queue.messages[other] == before.messages[other]
                &&& queue.held(timer.client_id) == effects::others(before.held(timer.client_id), id)
                &&& forall|client: u128|
                    client != timer.client_id ==> #[trigger] queue.held(client) == before.held(
                        client,
                    )
                &&& queue.order == before.order
            }
        }),
{
    let before = server.queues[timer.hash];
    if server.queues.contains_key(timer.hash) && before.held(timer.client_id).contains(
        timer.message_id,
    ) {
        effects::giving_back_frees_one_message(before, timer.client_id, timer.message_id);
        assert(server.expired(timer).queues.dom() =~= server.queues.dom());
    }
}

/// A server that was just made has no queues.
pub proof fn new_server_has_no_queues(name: Seq<char>)
    ensures
        ServerState::empty().wf(),
        !ServerState::empty().names.contains_key(name),
        ServerState::empty().queues.dom() == Set::<u128>::empty(),
{
}

/// A name that is registered stands for the hash that came with it, the last one where
/// it is registered again.
pub proof fn registered_name_stands_for_its_hash(
    server: ServerState,
    names: Seq<Seq<char>>,
    hashes: Seq<u128>,
    at: int,
)
    requires
        names.len() == hashes.len(),
        0 <= at < names.len(),
        forall|later: int| at < later < names.len() ==> names[later] != names[at],
    ensures
        server.registered_all(names, hashes).names.contains_key(names[at]),
        server.registered_all(names, hashes).names[names[at]] == hashes[at],
    decreases names.len(),
{
    let last = names.len() - 1;
    if at < last {
        let fewer = names.drop_last();
        assert(names[last] != names[at]);
        assert forall|later: int| at < later < fewer.len() implies fewer[later] != fewer[at] by {
            assert(names[later] != names[at]);
        }
        registered_name_stands_for_its_hash(server, fewer, hashes.drop_last(), at);
    }
}

/// Names that are not registered stand for what they stood for before.
pub proof fn other_names_are_left_alone(
    server: ServerState,
    names: Seq<Seq<char>>,
    hashes: Seq<u128>,
    name: Seq<char>,
)
    requires
        names.len() == hashes.len(),
        forall|i: int| 0 <= i < names.len() ==> names[i] != name,
    ensures
        server.registered_all(names, hashes).names.contains_key(name) == server.names.contains_key(
            name,
        ),
        server.registered_all(names, hashes).names[name] == server.names[name],
    decreases names.len(),
{
    if names.len() > 0 {
        let fewer = names.drop_last();
        assert(names[names.len() - 1] != name);
        assert forall|i: int| 0 <= i < fewer.len() implies fewer[i] != name by {
            assert(names[i] != name);
        }
        other_names_are_left_alone(server, fewer, hashes.drop_last(), name);
    }
}

/// Under every hash that a name was registered with there is an empty queue; queues
/// under other hashes stay as they are.
pub proof fn registered_queues_are_empty(
    server: ServerState,
    names: Seq<Seq<char>>,
    hashes: Seq<u128>,
    hash: u128,
    client: u128,
)
    requires
        names.len() == hashes.len(),
    ensures
        ({
            let after = server.registered_all(names, hashes);
            &&& hashes.contains(hash) ==> {
                &&& after.queues.contains_key(hash)
                &&& after.queues[hash].messages.dom() == Set::<u128>::empty()
                &&& after.queues[hash].order.len() == 0
                &&& after.queues[hash].held(client).len() == 0
                &&& after.queues[hash].last_id == 0
                &&& !after.queues[hash].auto_fail
                &&& after.queues[hash].fail_timeout == 0
            }
            &&& !hashes.contains(hash) ==> {
                &&& after.queues.contains_key(hash) == server.queues.contains_key(hash)
                &&& after.queues[hash] == server.queues[hash]
            }
        }),
    decreases names.len(),
{
    effects::new_queue_holds_nothing(client);
    if names.len() > 0 {
        let front = hashes.drop_last();
        let last = hashes[hashes.len() - 1];
        registered_queues_are_empty(server, names.drop_last(), front, hash, client);
        if front.contains(hash) {
            let k = front.index_of(hash);
            assert(hashes[k] == hash);
        }
        if hashes.contains(hash) && hash != last {
            let k = hashes.index_of(hash);
            assert(front[k] == hash);
        }
    }
}

/// An answer of success carries what the reply gives; one of failure carries two bytes,
/// the number of the error.
pub proof fn answer_carries_the_reply(response: ResponseMessage, reply: Reply)
    requires
        server::says(response, reply),
    ensures
        match reply {
            Reply::Succeeded(payload) => response.spec_status() == Response::Succeeded
                && response.spec_payload() == payload,
            Reply::Failed(error) => {
                &&& response.spec_status() == Response::Failed
                &&& response.spec_payload().len() == 2
                &&& wire::be_value(response.spec_payload()) == error.code()
            },
        },
{
    broadcast use wire::be_bytes_len;

    wire::be_limit_values();
    if let Reply::Failed(error) = reply {
        wire::be_value_of_be_bytes(error.code() as nat, 2);
    }
}

/// A request is handled once: with some hash for a new queue and some time, and its
/// answer says the reply.
pub proof fn request_is_handled_once(
    server: ServerState,
    frame: FrameState,
    outcome: Outcome,
    after: ServerState,
)
    ensures
        server.steps(frame, outcome, after) <==> exists|hash: u128, now: u64, reply: Reply|
            {
                &&& #[trigger] server.handling(frame, hash, now, after, reply, outcome.timer)
                &&& server::says(outcome.response, reply)
                &&& hash & 0x0000_0000_0000_F000_C000_0000_0000_0000
                    == 0x0000_0000_0000_4000_8000_0000_0000_0000
            },
{
}

/// Requests are handled one after the other, each with one outcome, and each on what the
/// ones before it left.
pub proof fn requests_are_handled_in_turn(
    server: ServerState,
    frames: Seq<FrameState>,
    outcomes: Seq<Outcome>,
    frame: FrameState,
    outcome: Outcome,
    after: ServerState,
)
    ensures
        server.serves(Seq::empty(), Seq::empty(), after) <==> after == server,
        server.serves(frames, outcomes, after) ==> outcomes.len() == frames.len(),
        server.serves(frames.push(frame), outcomes.push(outcome), after) <==> exists|
            between: ServerState,
        |
            server.serves(frames, outcomes, between) && #[trigger] between.steps(
                frame,
                outcome,
                after,
            ),
{
    let more = frames.push(frame);
    let results = outcomes.push(outcome);
    assert(more.drop_last() =~= frames);
    assert(results.drop_last() =~= outcomes);
    assert(more.last() == frame);
    assert(results.last() == outcome);
    if exists|between: ServerState|
        server.serves(frames, outcomes, between) && #[trigger] between.steps(
            frame,
            outcome,
            after,
        ) {
        let between = choose|between: ServerState|
            server.serves(frames, outcomes, between) && #[trigger] between.steps(
                frame,
                outcome,
                after,
            );
        assert(between.steps(more.last(), results.last(), after));
        assert(frames.len() == 0 ==> outcomes.len() == 0);
    }
}

/// The figures of a server have one entry for each name that stands for a queue, which
/// counts the messages of that queue and those that somebody holds.
pub proof fn figures_have_one_entry_for_each_queue(
    server: ServerState,
    stats: Seq<StatState>,
    name: Seq<char>,
)
    requires
        server.wf(),
        server.counts(stats),
    ensures
        (server.names.contains_key(name) && server.queues.contains_key(server.names[name]))
            <==> exists|i: int|
            0 <= i < stats.len() && (#[trigger] stats[i]).queue_name == name,
        forall|i: int, j: int|
            0 <= i < stats.len() && 0 <= j < stats.len() && (#[trigger] stats[i]).queue_name
                == name && (#[trigger] stats[j]).queue_name == name ==> i == j,
        forall|i: int|
            0 <= i < stats.len() && (#[trigger] stats[i]).queue_name == name ==> {
                let queue = server.queues[server.names[name]];
                &&& stats[i].total_messages == queue.messages.dom().len()
                &&& stats[i].total_messages_locked == queue.messages.dom().filter(
                    |id: u128| queue.messages[id].locked_by is Some,
                ).len()
            },
{
    if server.names.contains_key(name) && server.queues.contains_key(server.names[name]) {
        assert(server.located(name) is Ok);
    }
    assert forall|i: int|
        0 <= i < stats.len() && (#[trigger] stats[i]).queue_name == name implies {
        let queue = server.queues[server.names[name]];
        &&& server.located(name) is Ok
        &&& stats[i].total_messages == queue.messages.dom().len()
        &&& stats[i].total_messages_locked == queue.messages.dom().filter(
            |id: u128| queue.messages[id].locked_by is Some,
        ).len()
    } by {
        assert(server.counts_one(stats[i]));
        totals::figures_tell_what_is_stored(stats[i], server.queues[server.names[name]]);
    }
}

} // verus!
