//! What clients can rely on when they use queues one request after the other.
use vstd::prelude::*;

use crate::errors::ErrorCode;
use crate::net::laws;
use crate::net::model;
use crate::net::model::{MessageState, QueueState};
use crate::net::protocol::{FrameState, Request};
use crate::net::queue_config::ConfigUpdate;
use crate::net::server::{FailTimer, Reply, ServerState};
use crate::tally;

verus! {

/// A new queue has nothing to deliver.
pub proof fn new_queue_has_nothing_pending()
    ensures
        QueueState::empty().wf(),
        QueueState::empty().pending() == Seq::<Seq<u8>>::empty(),
{
    assert(QueueState::empty().pending() =~= Seq::<Seq<u8>>::empty());
}

/// A message can be locked exactly where one is stored that nobody holds.
pub proof fn free_message_can_be_locked(queue: QueueState)
    requires
        queue.wf(),
    ensures
        queue.lock_error() is None <==> exists|id: u128|
            queue.messages.contains_key(id) && (#[trigger] queue.messages[id]).locked_by is None,
{
    laws::free_ids_are_free(queue.order, queue.messages);
    let waiting = queue.waiting();
    if waiting.len() > 0 {
        assert(waiting.contains(waiting[0]));
        assert(queue.messages[waiting[0]].locked_by is None);
    }
    if exists|id: u128|
        queue.messages.contains_key(id) && (#[trigger] queue.messages[id]).locked_by is None {
        let id = choose|id: u128|
            queue.messages.contains_key(id) && (#[trigger] queue.messages[id]).locked_by is None;
        assert(model::is_free(queue.messages, id));
        assert(waiting.contains(id));
    }
}

/// What is enqueued is delivered after all that waits to be delivered, as long as ids
/// do not start over.
pub proof fn enqueuing_appends(
    queue: QueueState,
    payload: Seq<u8>,
    publisher_id: u128,
    timestamp: u64,
)
    requires
        queue.wf(),
        !queue.wrapped,
        queue.last_id < u128::MAX,
    ensures
        queue.enqueued(payload, publisher_id, timestamp).pending() == queue.pending().push(payload),
{
    let after = queue.enqueued(payload, publisher_id, timestamp);
    let id = model::id_after(queue.last_id);
    laws::new_ids_are_new(queue);
    laws::enqueuing_extends_waiting(queue, payload, publisher_id, timestamp);
    laws::free_ids_are_free(queue.order, queue.messages);
    assert forall|i: int| 0 <= i < queue.pending().len() implies after.pending()[i]
        == queue.pending()[i] by {
        assert(queue.waiting().contains(queue.waiting()[i]));
    }
    assert(after.pending() =~= queue.pending().push(payload));
}

/// Messages are delivered in the order in which they wait, each of them once, whoever
/// asks.
pub proof fn locking_delivers_in_order(queue: QueueState, client: u128)
    requires
        queue.wf(),
    ensures
        queue.pending().len() == 0 ==> queue.lock_error() == Some(ErrorCode::QueueIsEmpty),
        queue.pending().len() > 0 ==> {
            &&& queue.lock_error() is None
            &&& queue.delivery(client).skip(56) == queue.pending()[0]
            &&& queue.locked_next(client).pending() == queue.pending().drop_first()
        },
{
    broadcast use crate::wire::be_bytes_len;

    if queue.pending().len() > 0 {
        let after = queue.locked_next(client);
        assert(queue.delivery(client).skip(56) =~= queue.pending()[0]);
        laws::locking_shortens_waiting(queue, client);
        assert(after.pending() =~= queue.pending().drop_first());
    }
}

/// Taking out a message that somebody holds does not touch what is delivered: it goes
/// on with the same messages in the same order.
pub proof fn taking_out_a_held_message_keeps_the_order(queue: QueueState, client: u128, id: u128)
    requires
        queue.wf(),
        queue.messages.contains_key(id),
        queue.messages[id].locked_by is Some,
    ensures
        queue.deleted(client, id).pending() == queue.pending(),
{
    laws::deleting_shortens_waiting(queue, client, id);
    laws::free_ids_are_free(queue.order, queue.messages);
    let after = queue.deleted(client, id);
    assert forall|i: int| 0 <= i < queue.pending().len() implies after.pending()[i]
        == queue.pending()[i] by {
        assert(queue.waiting().contains(queue.waiting()[i]));
    }
    assert(after.pending() =~= queue.pending());
}

/// Taking out a message that waits to be delivered leaves the others in their order.
pub proof fn taking_out_a_waiting_message_skips_it(queue: QueueState, client: u128, id: u128)
    requires
        queue.wf(),
        queue.messages.contains_key(id),
        queue.messages[id].locked_by is None,
    ensures
        queue.waiting().contains(id),
        queue.deleted(client, id).waiting() == model::without_first(queue.waiting(), id),
{
    laws::deleting_shortens_waiting(queue, client, id);
    laws::free_ids_are_free(queue.order, queue.messages);
}

/// A message that is enqueued where nothing is left to deliver is delivered next:
/// with its payload, to whoever asks.
pub proof fn enqueued_message_is_delivered(
    queue: QueueState,
    payload: Seq<u8>,
    publisher_id: u128,
    timestamp: u64,
    client: u128,
)
    requires
        queue.wf(),
        queue.next_id is None,
    ensures
        ({
            let after = queue.enqueued(payload, publisher_id, timestamp);
            let id = model::id_after(queue.last_id);
            &&& after.lock_error() is None
            &&& after.delivery(client) == model::meta_bytes(
                id,
                MessageState { payload, publisher_id, timestamp, locked_by: Some(client) },
            ) + payload
        }),
{
    let id = model::id_after(queue.last_id);
    if queue.messages.contains_key(id) {
        laws::deleting_shortens_waiting(queue, client, id);
        queue.waiting().index_of_first_ensures(id);
    }
}

/// What is delivered next does not change when more is enqueued, as long as ids do not
/// start over.
pub proof fn enqueuing_keeps_the_next(
    queue: QueueState,
    payload: Seq<u8>,
    publisher_id: u128,
    timestamp: u64,
    client: u128,
)
    requires
        queue.wf(),
        queue.lock_error() is None,
        !queue.wrapped,
        queue.last_id < u128::MAX,
    ensures
        ({
            let after = queue.enqueued(payload, publisher_id, timestamp);
            &&& after.lock_error() is None
            &&& after.delivery(client) == queue.delivery(client)
        }),
{
    laws::new_ids_are_new(queue);
    laws::next_is_free(queue);
}

/// An id that was given out and whose message is gone names no message again, as long
/// as ids do not start over.
pub proof fn ids_are_not_used_again(
    queue: QueueState,
    payload: Seq<u8>,
    publisher_id: u128,
    timestamp: u64,
    id: u128,
)
    requires
        queue.wf(),
        !queue.wrapped,
        queue.last_id < u128::MAX,
        id <= queue.last_id,
        !queue.messages.contains_key(id),
    ensures
        ({
            let after = queue.enqueued(payload, publisher_id, timestamp);
            !after.messages.contains_key(id) && id <= after.last_id
        }),
{
    laws::new_ids_are_new(queue);
}

/// A message that was handed out is not the next one while it is locked.
pub proof fn locked_message_is_not_delivered(queue: QueueState, id: u128)
    requires
        queue.wf(),
        queue.messages.contains_key(id),
        queue.messages[id].locked_by is Some,
    ensures
        queue.next_id != Some(id),
        !queue.waiting().contains(id),
{
    laws::free_ids_are_free(queue.order, queue.messages);
    if queue.next_id == Some(id) {
        assert(queue.waiting().contains(queue.waiting()[0]));
    }
}

/// A client that acknowledges the only message it holds removes that message and no
/// other, and holds nothing any more.
pub proof fn acknowledging_removes_what_was_locked(queue: QueueState, client: u128)
    requires
        queue.wf(),
        queue.lock_error() is None,
        queue.held(client).len() == 0,
    ensures
        ({
            let locked = queue.locked_next(client);
            let id = queue.next_id->0;
            &&& locked.dequeue_error(client, None) is None
            &&& locked.dequeued(client, None).messages == queue.messages.remove(id)
            &&& locked.dequeued(client, None).held(client).len() == 0
        }),
{
    let locked = queue.locked_next(client);
    let id = queue.next_id->0;
    laws::next_is_free(queue);
    laws::trimming_keeps_live_ids(queue.order, id);
    assert(locked.order.contains(id));
    assert(locked.locks[client] =~= seq![id]);
    locked.locks[client].index_of_first_ensures(id);
    assert(locked.locks[client].contains(locked.locks[client][0]));
    assert(locked.dequeued(client, None).messages =~= queue.messages.remove(id));
}

/// A message that a client gives back waits to be delivered again; the others wait in
/// the same order as before.
pub proof fn released_message_waits_again(queue: QueueState, client: u128, id: u128)
    requires
        queue.wf(),
        queue.held(client).contains(id),
    ensures
        queue.released(client, id).waiting().contains(id),
        model::without_first(queue.released(client, id).waiting(), id) == queue.waiting(),
{
    let after = queue.released(client, id);
    laws::releasing_keeps_wf(queue, client, id);
    assert(queue.holds(client, id));
    laws::free_ids_are_free(after.order, after.messages);
    assert(model::is_free(after.messages, id));
    assert(!after.messages.contains_key(0));
    laws::free_ids_without(after.order, after.messages, queue.messages, id);
}

/// A message that a client locks and gives back is delivered next, with the same
/// payload, to whoever asks; the other locks of the client stay.
pub proof fn released_message_is_delivered_again(queue: QueueState, client: u128, other: u128)
    requires
        queue.wf(),
        queue.lock_error() is None,
    ensures
        ({
            let locked = queue.locked_next(client);
            let after = locked.unlocked(client, queue.next_id);
            &&& locked.held(client).contains(queue.next_id->0)
            &&& locked.unlock_error(client, queue.next_id) is None
            &&& after.lock_error() is None
            &&& after.next_id == queue.next_id
            &&& after.waiting() == queue.waiting()
            &&& after.delivery(other) == queue.delivery(other)
            &&& forall|id: u128|
                id != queue.next_id->0 ==> #[trigger] after.held(client).contains(id)
                    == queue.held(client).contains(id)
        }),
{
    let locked = queue.locked_next(client);
    let id = queue.next_id->0;
    let held = locked.locks[client];
    let after = locked.unlocked(client, queue.next_id);
    laws::next_is_free(queue);
    laws::locking_keeps_wf(queue, client);
    laws::trimming_keeps_live_ids(queue.order, id);
    assert(!queue.messages.contains_key(0));
    laws::trimming_keeps_free_ids(queue.order, queue.messages);
    assert(locked.order.contains(id));
    assert(after.messages =~= queue.messages);
    assert(held == queue.held(client).push(id));
    assert(held[held.len() - 1] == id);
    assert(locked.held(client).no_duplicates());
    laws::dropping_from_distinct(held, id);
    assert forall|k: u128| k != id implies #[trigger] after.held(client).contains(k)
        == queue.held(client).contains(k) by {
        if queue.held(client).contains(k) {
            let i = queue.held(client).index_of(k);
            assert(held[i] == k);
        }
        if held.contains(k) {
            let j = held.index_of(k);
            assert(queue.held(client)[j] == k);
        }
    }
}

/// A client that holds one message and does not say which one to give back gives that
/// one back.
pub proof fn only_lock_is_released(queue: QueueState, client: u128)
    requires
        queue.held(client).len() == 1,
    ensures
        queue.unlocked(client, None) == queue.unlocked(client, Some(queue.held(client)[0])),
        queue.unlocked(client, None).held(client).len() == 0,
{
    let held = queue.held(client);
    held.index_of_first_ensures(held[0]);
    assert(held.contains(held[0]));
}

/// Taking a message out removes that message alone: other messages stay as they are,
/// and so do all locks but those on it, which nobody holds any more.
pub proof fn deleting_affects_one_message(queue: QueueState, client: u128, id: u128, other: u128)
    requires
        queue.wf(),
        queue.messages.contains_key(id),
        other != id,
    ensures
        ({
            let after = queue.deleted(client, id);
            &&& !after.messages.contains_key(id)
            &&& after.messages.contains_key(other) == queue.messages.contains_key(other)
            &&& after.messages[other] == queue.messages[other]
            &&& forall|c: u128| #[trigger]
                after.held(c).contains(other) == queue.held(c).contains(other)
            &&& forall|c: u128| !(#[trigger] after.held(c)).contains(id)
        }),
{
    let after = queue.deleted(client, id);
    laws::deleting_keeps_wf(queue, client, id);
    assert forall|c: u128| #[trigger] after.held(c).contains(other) == queue.held(c).contains(
        other,
    ) by {
        assert(queue.held(c).contains(other) <==> queue.holds(c, other));
        assert(after.held(c).contains(other) <==> after.holds(c, other));
    }
    assert forall|c: u128| !(#[trigger] after.held(c)).contains(id) by {
        assert(after.held(c).contains(id) <==> after.holds(c, id));
    }
}

/// A client whose only locked message was taken out by another has nothing left to
/// acknowledge, and is told so.
pub proof fn lost_lock_is_told(queue: QueueState, client: u128, other: u128)
    requires
        queue.wf(),
        queue.held(client).len() == 1,
        client != other,
    ensures
        ({
            let after = queue.deleted(other, queue.held(client)[0]);
            &&& queue.messages.contains_key(queue.held(client)[0])
            &&& after.held(client).len() == 0
            &&& after.dequeue_error(client, None) == Some(ErrorCode::NoSuchMessageIdLocked)
        }),
{
    let held = queue.held(client);
    let id = held[0];
    assert(held.contains(id));
    assert(queue.holds(client, id));
    assert(!queue.held(other).contains(id)) by {
        assert(queue.held(other).contains(id) <==> queue.holds(other, id));
    }
    held.index_of_first_ensures(id);
    queue.order.index_of_first_ensures(id);
}

/// A message that is named but not stored is an error, whatever the client holds, and
/// nothing is taken out.
pub proof fn unknown_id_is_refused(queue: QueueState, client: u128, id: u128)
    requires
        queue.order.len() > 0,
        !queue.messages.contains_key(id),
    ensures
        queue.dequeue_error(client, Some(id)) == Some(ErrorCode::NoSuchMessageId),
{
}

/// A message that is requeued moves to the end under a new id, unlocked, with its
/// payload and publisher; every other message stays as it is. Ids must not start over.
pub proof fn requeued_message_moves_to_the_end(
    queue: QueueState,
    client: u128,
    id: u128,
    timestamp: u64,
)
    requires
        queue.wf(),
        queue.messages.contains_key(id),
        !queue.wrapped,
        queue.last_id < u128::MAX,
    ensures
        ({
            let after = queue.requeued(client, id, timestamp);
            let new_id = model::id_after(queue.last_id);
            &&& after.order.last() == new_id
            &&& after.messages == queue.messages.remove(id).insert(
                new_id,
                MessageState { timestamp, locked_by: None, ..queue.messages[id] },
            )
            &&& after.waiting() == model::without_first(queue.waiting(), id).push(new_id)
        }),
{
    let message = queue.messages[id];
    let fewer = queue.deleted(client, id);
    laws::deleting_keeps_wf(queue, client, id);
    laws::deleting_shortens_waiting(queue, client, id);
    laws::new_ids_are_new(fewer);
    laws::enqueuing_extends_waiting(fewer, message.payload, message.publisher_id, timestamp);
}

/// A requeued message is not lost even where ids start over: it waits to be delivered,
/// last of all.
pub proof fn requeued_message_is_not_lost(
    queue: QueueState,
    client: u128,
    id: u128,
    timestamp: u64,
)
    requires
        queue.wf(),
        queue.messages.contains_key(id),
    ensures
        ({
            let after = queue.requeued(client, id, timestamp);
            &&& after.wf()
            &&& after.waiting().len() > 0
            &&& after.pending().last() == queue.messages[id].payload
        }),
{
    let message = queue.messages[id];
    let fewer = queue.deleted(client, id);
    laws::deleting_keeps_wf(queue, client, id);
    laws::enqueuing_keeps_wf(fewer, message.payload, message.publisher_id, timestamp);
    laws::enqueuing_extends_waiting(fewer, message.payload, message.publisher_id, timestamp);
}

/// What is delivered of an updated message is its new payload; nothing else about
/// the queue changes.
pub proof fn updated_payload_is_delivered(queue: QueueState, payload: Seq<u8>, client: u128)
    requires
        queue.wf(),
        queue.lock_error() is None,
    ensures
        ({
            let id = queue.next_id->0;
            let after = queue.updated(id, payload);
            &&& queue.edit_error(id) is None
            &&& after.lock_error() is None
            &&& after.delivery(client) == model::meta_bytes(
                id,
                queue.messages[id].held_by(Some(client)),
            ) + payload
            &&& after.waiting() == queue.waiting()
            &&& after.order == queue.order
            &&& after.locks == queue.locks
        }),
{
    laws::next_is_free(queue);
    laws::updating_keeps_wf(queue, queue.next_id->0, payload);
}

/// Locking a message adds one lock to the total.
pub proof fn locking_adds_a_lock(queue: QueueState, client: u128)
    requires
        queue.locks.dom().finite(),
    ensures
        queue.locked_next(client).total_locks() == queue.total_locks() + 1,
{
    let id = queue.next_id->0;
    lock_count(queue.locks, client, queue.held(client).push(id));
    if !queue.locks.contains_key(client) {
        assert(queue.held(client) =~= Seq::empty());
    }
}

/// Taking a message out that somebody holds takes one lock off the total; taking out
/// one that nobody holds takes none.
pub proof fn deleting_removes_its_lock(queue: QueueState, client: u128, id: u128)
    requires
        queue.wf(),
        queue.messages.contains_key(id),
    ensures
        queue.deleted(client, id).total_locks() + if queue.messages[id].locked_by is Some {
            1nat
        } else {
            0
        } == queue.total_locks(),
{
    if let Some(holder) = queue.messages[id].locked_by {
        let held = queue.held(holder);
        assert(held.contains(id) <==> queue.holds(holder, id));
        held.index_of_first_ensures(id);
        lock_count(queue.locks, holder, model::without_first(held, id));
    }
}

/// Replacing one client's list of locks changes the total by the difference.
proof fn lock_count(locks: Map<u128, Seq<u128>>, client: u128, list: Seq<u128>)
    requires
        locks.dom().finite(),
    ensures
        tally::map_sum(locks.insert(client, list).map_values(|ids: Seq<u128>| ids.len())) + if locks.contains_key(
            client,
        ) {
            locks[client].len()
        } else {
            0
        } == tally::map_sum(locks.map_values(|ids: Seq<u128>| ids.len())) + list.len(),
{
    let f = |ids: Seq<u128>| ids.len();
    let counts = locks.map_values(f);
    let after = locks.insert(client, list).map_values(f);
    let rest = counts.remove(client);
    assert(counts.dom() =~= locks.dom());
    assert(after =~= rest.insert(client, list.len()));
    tally::map_sum_insert(rest, client, list.len());
    if locks.contains_key(client) {
        tally::map_sum_remove(counts, client);
    } else {
        assert(rest =~= counts);
    }
}

/// Once the sizes were noted, the biggest noted payload is at least as big as every
/// payload in the queue.
pub proof fn biggest_payload_is_noted(queue: QueueState, id: u128)
    requires
        queue.wf(),
        queue.messages.contains_key(id),
        queue.messages[id].payload.len() <= usize::MAX,
    ensures
        queue.sized().biggest_payloads[4] >= queue.messages[id].payload.len(),
        queue.sized().biggest_payloads[4] >= queue.biggest_payloads[4],
{
    let sizes = model::payload_sizes(queue.messages);
    assert(sizes.dom() =~= queue.messages.dom());
    laws::with_sizes_remove(queue.biggest_payloads, sizes, id);
    laws::with_sizes_ascends(queue.biggest_payloads, sizes.remove(id));
    biggest_only_grows(queue.biggest_payloads, sizes);
}

/// The last of the sizes that are smaller than `size`.
proof fn last_smaller(biggest: Seq<usize>, size: usize, from: int) -> (at: int)
    requires
        model::ascending(biggest),
        0 <= from < biggest.len(),
        biggest[from] < size,
    ensures
        from <= at < biggest.len(),
        biggest[at] < size,
        at + 1 < biggest.len() ==> size <= biggest[at + 1],
    decreases biggest.len() - from,
{
    if from + 1 < biggest.len() && biggest[from + 1] < size {
        last_smaller(biggest, size, from + 1)
    } else {
        from
    }
}

/// Noting a size keeps the biggest of all: the smallest, be it the new one, is dropped,
/// and no other.
pub proof fn biggest_sizes_are_kept(biggest: Seq<usize>, size: usize)
    requires
        model::ascending(biggest),
        biggest.len() > 0,
    ensures
        model::ascending(model::with_size(biggest, size)),
        model::with_size(biggest, size).to_multiset() == biggest.push(size).to_multiset().remove(
            model::smaller(biggest[0], size),
        ),
{
    broadcast use vstd::seq_lib::group_to_multiset_ensures;

    laws::with_size_ascends(biggest, size);
    let after = model::with_size(biggest, size);
    if biggest[0] < size {
        let at = last_smaller(biggest, size, 0);
        let moved = biggest.remove(0).insert(at, size);
        assert forall|i: int| 0 <= i < biggest.len() implies after[i] == moved[i] by {
            if i < at {
                assert(biggest[i] <= biggest[i + 1] <= biggest[at]);
            } else if i > at {
                assert(biggest[at + 1] <= biggest[i]);
            }
        }
        assert(after =~= moved);
        assert(moved[at] == size);
        assert(moved.remove(at) =~= biggest.remove(0));
        assert(moved.to_multiset() =~= biggest.remove(0).to_multiset().insert(size));
        assert(biggest.contains(biggest[0]));
        assert(biggest.to_multiset().remove(biggest[0]).insert(size)
            =~= biggest.to_multiset().insert(size).remove(biggest[0]));
    } else {
        assert forall|i: int| 0 <= i < biggest.len() implies after[i] == biggest[i] by {
            assert(biggest[0] <= biggest[i]);
        }
        assert(after =~= biggest);
        assert(biggest.to_multiset().insert(size).remove(size) =~= biggest.to_multiset());
    }
}

/// Noting sizes never makes the biggest one smaller.
proof fn biggest_only_grows(biggest: Seq<usize>, sizes: Map<u128, usize>)
    requires
        biggest.len() == 5,
        model::ascending(biggest),
    ensures
        model::with_sizes(biggest, sizes)[4] >= biggest[4],
    decreases sizes.dom().len(),
{
    if sizes.dom().finite() && sizes.dom().len() > 0 {
        let id = sizes.dom().choose();
        biggest_only_grows(biggest, sizes.remove(id));
        laws::with_sizes_ascends(biggest, sizes.remove(id));
    }
}

/// A queue that was created can be used, and creating it again is refused and changes
/// nothing.
pub proof fn created_queue_exists(server: ServerState, name: Seq<char>, hash: u128, again: u128)
    requires
        !server.names.contains_key(name),
    ensures
        ({
            let (after, reply) = server.creating(name, hash);
            &&& reply == Reply::Succeeded(Seq::empty())
            &&& after.located(name) == Ok::<u128, ErrorCode>(hash)
            &&& after.queues[hash] == QueueState::empty()
            &&& after.creating(name, again) == (
                after,
                Reply::Failed(ErrorCode::QueueAlreadyExists),
            )
        }),
{
}

/// A queue that was deleted is gone with its name, which can be used again.
pub proof fn deleted_queue_is_gone(server: ServerState, name: Seq<char>, hash: u128)
    requires
        server.names.contains_key(name),
    ensures
        ({
            let (after, reply) = server.deleting(name);
            &&& reply == Reply::Succeeded(Seq::empty())
            &&& after.located(name) == Err::<u128, ErrorCode>(ErrorCode::QueueHashNotFound)
            &&& after.deleting(name) == (after, Reply::Failed(ErrorCode::QueueDoesNotExist))
            &&& after.creating(name, hash).1 == Reply::Succeeded(Seq::empty())
        }),
{
}

/// Creating and deleting a queue leaves every other queue alone that is not filed
/// under the same hash.
pub proof fn other_queues_are_left_alone(
    server: ServerState,
    name: Seq<char>,
    hash: u128,
    other: Seq<char>,
)
    requires
        other != name,
        server.located(other) is Ok,
        server.names[other] != hash,
        server.names.contains_key(name) ==> server.names[name] != server.names[other],
    ensures
        ({
            let created = server.creating(name, hash).0;
            let deleted = server.deleting(name).0;
            let at = server.names[other];
            &&& created.located(other) == Ok::<u128, ErrorCode>(at)
            &&& created.queues[at] == server.queues[at]
            &&& deleted.located(other) == Ok::<u128, ErrorCode>(at)
            &&& deleted.queues[at] == server.queues[at]
        }),
{
}

/// What a client enqueues another client gets, if nothing else is left to deliver.
pub proof fn enqueued_payload_comes_back(
    server: ServerState,
    name: Seq<char>,
    publisher: u128,
    payload: Seq<u8>,
    now: u64,
    client: u128,
)
    requires
        server.wf(),
        server.located(name) matches Ok(hash) && server.queues[hash].next_id is None,
    ensures
        ({
            let hash = server.located(name)->Ok_0;
            let id = model::id_after(server.queues[hash].last_id);
            let (after, reply) = server.enqueuing(name, publisher, payload, now);
            &&& reply == Reply::Succeeded(Seq::empty())
            &&& after.delivering(name, client).1 == Reply::Succeeded(
                model::meta_bytes(
                    id,
                    MessageState {
                        payload,
                        publisher_id: publisher,
                        timestamp: now,
                        locked_by: Some(client),
                    },
                ) + payload,
            )
        }),
{
    let queue = server.queues[server.names[name]];
    enqueued_message_is_delivered(queue, payload, publisher, now, client);
}

/// A timer that runs out after the message was acknowledged changes nothing.
pub proof fn timer_spares_acknowledged_message(server: ServerState, timer: FailTimer)
    requires
        !server.queues[timer.hash].held(timer.client_id).contains(timer.message_id),
    ensures
        server.expired(timer) == server,
{
}

/// A message that is not acknowledged in time is delivered again: when the timer of a
/// delivery runs out, the next delivery is the same as before.
pub proof fn timer_gives_message_back(
    server: ServerState,
    name: Seq<char>,
    client: u128,
    other: u128,
)
    requires
        server.wf(),
        server.delivery_timer(name, client) is Some,
    ensures
        ({
            let timer = server.delivery_timer(name, client)->0;
            let after = server.delivering(name, client).0.expired(timer);
            after.delivering(name, other).1 == server.delivering(name, other).1
        }),
{
    let queue = server.queues[server.names[name]];
    released_message_is_delivered_again(queue, client, other);
}

/// A request that is refused changes nothing.
pub proof fn refused_request_changes_nothing(
    server: ServerState,
    frame: FrameState,
    hash: u128,
    now: u64,
    after: ServerState,
    error: ErrorCode,
    timer: Option<FailTimer>,
)
    requires
        server.handling(frame, hash, now, after, Reply::Failed(error), timer),
    ensures
        after == server,
        timer is None,
{
}

/// A request for a queue that does not exist is refused, unless it is to create it;
/// which error it is told depends on the request.
pub proof fn missing_queue_is_refused(
    server: ServerState,
    frame: FrameState,
    hash: u128,
    now: u64,
    after: ServerState,
    reply: Reply,
    timer: Option<FailTimer>,
)
    requires
        !server.names.contains_key(frame.queue_name),
        !(frame.command is CreateQ),
        server.handling(frame, hash, now, after, reply, timer),
    ensures
        reply is Failed,
        after == server,
        match frame.command {
            Request::DeleteQ => reply == Reply::Failed(ErrorCode::QueueDoesNotExist),
            Request::UpdateM => reply == Reply::Failed(
                if frame.payload.len() < 16 {
                    ErrorCode::PayloadMissingMessageId
                } else {
                    ErrorCode::QueueHashNotFound
                },
            ),
            Request::UpdateQ => reply == Reply::Failed(
                if frame.payload.len() == 0 {
                    ErrorCode::InvalidConfigPayloadSize
                } else if ConfigUpdate::decode_error(frame.payload) is Some {
                    ConfigUpdate::decode_error(frame.payload)->0
                } else {
                    ErrorCode::QueueHashNotFound
                },
            ),
            _ => reply == Reply::Failed(ErrorCode::QueueHashNotFound),
        },
{
}

} // verus!
