//! What each operation of a queue does to its messages, its locks and its order, told
//! of the single messages.
use vstd::prelude::*;

use crate::errors::ErrorCode;
use crate::net::laws;
use crate::net::model;
use crate::net::model::{MessageState, QueueState};
use crate::net::queue_config::ConfigUpdate;
use crate::wire;

verus! {

/// The ids other than `id`, in their order.
pub open spec fn others(ids: Seq<u128>, id: u128) -> Seq<u128> {
    ids.filter(|other: u128| other != id)
}

/// The ids of an order that are no tombstones, in their order.
pub open spec fn live(order: Seq<u128>) -> Seq<u128> {
    order.filter(|id: u128| id != 0)
}

/// Where `id` does not occur, there are only others.
proof fn others_of_others(ids: Seq<u128>, id: u128)
    requires
        !ids.contains(id),
    ensures
        others(ids, id) == ids,
    decreases ids.len(),
{
    reveal(Seq::filter);
    if ids.len() > 0 {
        let front = ids.drop_last();
        assert(ids.contains(ids.last()));
        assert forall|i: int| 0 <= i < front.len() implies front[i] != id by {
            assert(ids.contains(ids[i]));
        }
        others_of_others(front, id);
        assert(front.push(ids.last()) =~= ids);
    } else {
        assert(others(ids, id) =~= ids);
    }
}

/// Dropping an id that occurs once leaves the others.
pub proof fn dropping_leaves_the_others(ids: Seq<u128>, id: u128)
    requires
        ids.no_duplicates(),
    ensures
        model::without_first(ids, id) == others(ids, id),
    decreases ids.len(),
{
    ids.index_of_first_ensures(id);
    if !ids.contains(id) {
        others_of_others(ids, id);
    } else {
        reveal(Seq::filter);
        let front = ids.drop_last();
        assert(front.push(ids.last()) =~= ids);
        front.index_of_first_ensures(id);
        if ids.last() == id {
            assert(!front.contains(id));
            others_of_others(front, id);
            assert(model::without_first(ids, id) =~= front);
        } else {
            let at = ids.index_of_first(id)->0;
            assert(front[at] == id);
            dropping_leaves_the_others(front, id);
            assert(model::without_first(ids, id) =~= model::without_first(front, id).push(
                ids.last(),
            ));
        }
    }
}

/// Tombstones at the front do not matter to the live ids.
proof fn live_ids_of_the_rest(order: Seq<u128>, count: int)
    requires
        0 <= count <= order.len(),
        forall|i: int| 0 <= i < count ==> order[i] == 0,
    ensures
        live(order.skip(count)) == live(order),
    decreases order.len(),
{
    reveal(Seq::filter);
    if count == order.len() {
        assert(order.skip(count) =~= Seq::empty());
        if count > 0 {
            live_ids_of_the_rest(order.drop_last(), count - 1);
            assert(order.drop_last().skip(count - 1) =~= Seq::empty());
        } else {
            assert(order =~= Seq::empty());
        }
    } else {
        live_ids_of_the_rest(order.drop_last(), count);
        assert(order.skip(count).drop_last() =~= order.drop_last().skip(count));
    }
}

/// Draining drops nothing but tombstones from the front: it starts once the first nine
/// of at least ten places are tombstones, and then leaves none at the front.
pub proof fn draining_drops_tombstones(order: Seq<u128>)
    ensures
        live(model::trimmed(order)) == live(order),
        !(order.len() >= 10 && forall|i: int| 0 <= i < 9 ==> order[i] == 0) ==> model::trimmed(
            order,
        ) == order,
        (order.len() >= 10 && forall|i: int| 0 <= i < 9 ==> order[i] == 0) ==> {
            &&& model::trimmed(order).len() > 0 ==> model::trimmed(order)[0] != 0
            &&& exists|count: int|
                9 <= count <= order.len() && model::trimmed(order) == #[trigger] order.skip(count)
                    && forall|i: int| 0 <= i < count ==> order[i] == 0
        },
{
    laws::leading_zeroes_are_zero(order);
    let zeroes = model::leading_zeroes(order) as int;
    live_ids_of_the_rest(order, zeroes);
    if order.len() >= 10 && forall|i: int| 0 <= i < 9 ==> order[i] == 0 {
        if zeroes < 9 {
            assert(order[zeroes] == 0);
        }
        assert(model::trimmed(order) == order.skip(zeroes));
    }
}

/// Burying an id that occurs once leaves the other live ids in their order.
proof fn burying_leaves_the_others(order: Seq<u128>, id: u128)
    requires
        id != 0,
        forall|i: int, j: int|
            0 <= i < j < order.len() && order[i] == id ==> #[trigger] order[i] != #[trigger] order[j],
    ensures
        live(model::buried(order, id)) == others(live(order), id),
    decreases order.len(),
{
    reveal(Seq::filter);
    order.index_of_first_ensures(id);
    if order.len() > 0 {
        let front = order.drop_last();
        let last = order.last();
        assert(front.push(last) =~= order);
        front.index_of_first_ensures(id);
        assert forall|i: int, j: int|
            0 <= i < j < front.len() && front[i] == id implies #[trigger] front[i]
            != #[trigger] front[j] by {
            assert(order[i] != order[j]);
        }
        burying_leaves_the_others(front, id);
        if last == id {
            assert forall|i: int| 0 <= i < front.len() implies front[i] != id by {
                assert(order[i] == front[i]);
                assert(order[front.len() as int] == id);
            }
            assert(!front.contains(id));
            assert(model::buried(order, id) =~= front.push(0));
            assert(front.push(0).drop_last() =~= front);
            assert(live(front).push(id).drop_last() =~= live(front));
        } else {
            if order.contains(id) {
                let at = order.index_of_first(id)->0;
                assert(front[at] == id);
                assert(model::buried(order, id) =~= model::buried(front, id).push(last));
            } else {
                if front.contains(id) {
                    let at = front.index_of(id);
                    assert(order[at] == id);
                }
                assert(model::buried(order, id) =~= model::buried(front, id).push(last));
            }
            assert(model::buried(front, id).push(last).drop_last() =~= model::buried(front, id));
            assert(live(front).push(last).drop_last() =~= live(front));
        }
    } else {
        assert(live(model::buried(order, id)) =~= others(live(order), id));
    }
}

/// What waits to be delivered are the stored messages that nobody holds, in their
/// order.
pub proof fn waiting_messages_are_the_free_ones(queue: QueueState)
    ensures
        queue.waiting() == queue.order.filter(
            |id: u128| queue.messages.contains_key(id) && queue.messages[id].locked_by is None,
        ),
{
    free_ids_are_filtered(
        queue.order,
        queue.messages,
        |id: u128| queue.messages.contains_key(id) && queue.messages[id].locked_by is None,
    );
}

/// Picking the free ids of an order is filtering it.
proof fn free_ids_are_filtered(
    order: Seq<u128>,
    messages: Map<u128, MessageState>,
    free: spec_fn(u128) -> bool,
)
    requires
        forall|id: u128| #[trigger]
            free(id) <==> messages.contains_key(id) && messages[id].locked_by is None,
    ensures
        model::free_ids(order, messages) == order.filter(free),
    decreases order.len(),
{
    reveal(Seq::filter);
    if order.len() > 0 {
        free_ids_are_filtered(order.drop_last(), messages, free);
        assert(free(order.last()) <==> model::is_free(messages, order.last()));
    } else {
        assert(model::free_ids(order, messages) =~= order.filter(free));
    }
}

/// The next message is the first stored one that nobody holds: all before it in the
/// order are held or gone. There is none where every stored message is held.
pub proof fn next_is_the_first_free_message(queue: QueueState)
    requires
        queue.wf(),
    ensures
        match queue.next_id {
            Some(id) => {
                &&& queue.messages.contains_key(id)
                &&& queue.messages[id].locked_by is None
                &&& exists|at: int|
                    {
                        &&& 0 <= at < queue.order.len()
                        &&& #[trigger] queue.order[at] == id
                        &&& forall|i: int|
                            0 <= i < at ==> !(queue.messages.contains_key(
                                #[trigger] queue.order[i],
                            ) && queue.messages[queue.order[i]].locked_by is None)
                    }
            },
            None => forall|id: u128| #[trigger]
                queue.messages.contains_key(id) ==> queue.messages[id].locked_by is Some,
        },
{
    laws::free_ids_are_free(queue.order, queue.messages);
    let waiting = queue.waiting();
    if let Some(id) = queue.next_id {
        assert(waiting.contains(waiting[0]));
        let at = first_free_place(queue.order, queue.messages, 0);
        laws::first_free_is_first(queue.order, queue.messages, at);
        assert(queue.order[at] == id);
        assert forall|i: int| 0 <= i < at implies !(queue.messages.contains_key(
            #[trigger] queue.order[i],
        ) && queue.messages[queue.order[i]].locked_by is None) by {
            assert(!model::is_free(queue.messages, queue.order[i]));
        }
    } else {
        assert forall|id: u128| #[trigger] queue.messages.contains_key(
            id,
        ) implies queue.messages[id].locked_by is Some by {
            if queue.messages[id].locked_by is None {
                assert(model::is_free(queue.messages, id));
                assert(waiting.contains(id));
            }
        }
    }
}

/// The first place of an order that holds a free id.
proof fn first_free_place(
    order: Seq<u128>,
    messages: Map<u128, MessageState>,
    from: int,
) -> (at: int)
    requires
        0 <= from <= order.len(),
        forall|i: int| 0 <= i < from ==> !model::is_free(messages, #[trigger] order[i]),
        exists|id: u128| order.contains(id) && #[trigger] model::is_free(messages, id),
    ensures
        0 <= at < order.len(),
        model::is_free(messages, order[at]),
        forall|i: int| 0 <= i < at ==> !model::is_free(messages, #[trigger] order[i]),
    decreases order.len() - from,
{
    if from == order.len() {
        let id = choose|id: u128| order.contains(id) && #[trigger] model::is_free(messages, id);
        assert(!model::is_free(messages, order[order.index_of(id)]));
        from
    } else if model::is_free(messages, order[from]) {
        from
    } else {
        first_free_place(order, messages, from + 1)
    }
}

/// A new queue holds nothing, has given out no id, and fails nothing by itself.
pub proof fn new_queue_holds_nothing(client: u128)
    ensures
        QueueState::empty().wf(),
        QueueState::empty().order.len() == 0,
        QueueState::empty().messages.dom() == Set::<u128>::empty(),
        QueueState::empty().locks.dom() == Set::<u128>::empty(),
        QueueState::empty().held(client).len() == 0,
        QueueState::empty().next_id is None,
        QueueState::empty().last_id == 0,
        !QueueState::empty().wrapped,
        !QueueState::empty().auto_fail,
        QueueState::empty().fail_timeout == 0,
        forall|i: int| 0 <= i < 5 ==> QueueState::empty().biggest_payloads[i] == 0,
{
}

/// A client holds what its list says, and nothing where it has none.
pub proof fn held_messages_are_listed(queue: QueueState, client: u128)
    ensures
        queue.locks.contains_key(client) ==> queue.held(client) == queue.locks[client],
        !queue.locks.contains_key(client) ==> queue.held(client).len() == 0,
{
}

/// Enqueuing adds one message at the end, unlocked, under the id that follows the last
/// one: every other message and every lock stays as it is.
pub proof fn enqueuing_adds_one_message(
    queue: QueueState,
    payload: Seq<u8>,
    publisher_id: u128,
    timestamp: u64,
)
    requires
        queue.wf(),
        !queue.wrapped,
        queue.last_id < u128::MAX,
    ensures
        ({
            let after = queue.enqueued(payload, publisher_id, timestamp);
            let id = (queue.last_id + 1) as u128;
            &&& !queue.messages.contains_key(id)
            &&& after.messages.dom() == queue.messages.dom().insert(id)
            &&& after.messages[id].payload == payload
            &&& after.messages[id].publisher_id == publisher_id
            &&& after.messages[id].timestamp == timestamp
            &&& after.messages[id].locked_by is None
            &&& forall|other: u128|
                other != id ==> #[trigger] after.messages[other] == queue.messages[other]
            &&& after.locks == queue.locks
            &&& after.order == queue.order.push(id)
            &&& after.last_id == id
            &&& !after.wrapped
            &&& after.next_id == if queue.next_id is Some {
                queue.next_id
            } else {
                Some(id)
            }
            &&& after.auto_fail == queue.auto_fail
            &&& after.fail_timeout == queue.fail_timeout
            &&& after.biggest_payloads == queue.biggest_payloads
        }),
{
    laws::new_ids_are_new(queue);
    let after = queue.enqueued(payload, publisher_id, timestamp);
    assert(after.messages.dom() =~= queue.messages.dom().insert((queue.last_id + 1) as u128));
}

/// Once ids start over, they start at 1 again. A message that still has the id is
/// replaced, with the lock on it; all others stay, with their locks.
pub proof fn enqueuing_replaces_where_ids_start_over(
    queue: QueueState,
    payload: Seq<u8>,
    publisher_id: u128,
    timestamp: u64,
)
    requires
        queue.wf(),
    ensures
        ({
            let after = queue.enqueued(payload, publisher_id, timestamp);
            let id: u128 = if queue.last_id == u128::MAX {
                1
            } else {
                (queue.last_id + 1) as u128
            };
            &&& after.messages.dom() == queue.messages.dom().insert(id)
            &&& after.messages[id].payload == payload
            &&& after.messages[id].publisher_id == publisher_id
            &&& after.messages[id].timestamp == timestamp
            &&& after.messages[id].locked_by is None
            &&& forall|other: u128|
                other != id ==> #[trigger] after.messages[other] == queue.messages[other]
            &&& forall|client: u128| #[trigger]
                after.held(client) == others(queue.held(client), id)
            &&& live(after.order) == others(live(queue.order), id).push(id)
            &&& after.last_id == id
            &&& after.wrapped == (queue.wrapped || queue.last_id == u128::MAX)
            &&& after.auto_fail == queue.auto_fail
            &&& after.fail_timeout == queue.fail_timeout
            &&& after.biggest_payloads == queue.biggest_payloads
        }),
{
    let after = queue.enqueued(payload, publisher_id, timestamp);
    let id = model::id_after(queue.last_id);
    assert(after.messages.dom() =~= queue.messages.dom().insert(id));
    assert forall|client: u128| #[trigger] after.held(client) == others(
        queue.held(client),
        id,
    ) by {
        if queue.messages.contains_key(id) {
            taking_out_leaves_other_locks(queue, id, client);
        } else {
            assert(queue.held(client).contains(id) <==> queue.holds(client, id));
            others_of_others(queue.held(client), id);
        }
    }
    reveal(Seq::filter);
    let base = if queue.messages.contains_key(id) {
        queue.without(id)
    } else {
        queue
    };
    assert(after.order.drop_last() =~= base.order);
    if queue.messages.contains_key(id) {
        burying_leaves_the_others(queue.order, id);
    } else {
        if live(queue.order).contains(id) {
            let k = live(queue.order).index_of(id);
            live_ids_are_listed(queue.order, k);
            let at = queue.order.index_of(id);
            assert(queue.order[at] == id);
        }
        others_of_others(live(queue.order), id);
    }
}

/// A live id stands in the order.
proof fn live_ids_are_listed(order: Seq<u128>, k: int)
    requires
        0 <= k < live(order).len(),
    ensures
        order.contains(live(order)[k]),
        live(order)[k] != 0,
    decreases order.len(),
{
    reveal(Seq::filter);
    if order.len() > 0 {
        let front = order.drop_last();
        if k < live(front).len() {
            live_ids_are_listed(front, k);
            let at = front.index_of(live(front)[k]);
            assert(order[at] == live(order)[k]);
        } else {
            assert(order[order.len() - 1] == live(order)[k]);
        }
    }
}

/// Taking a message out takes it from the list of its holder and leaves all else in the
/// lists.
proof fn taking_out_leaves_other_locks(queue: QueueState, id: u128, client: u128)
    requires
        queue.wf(),
        queue.messages.contains_key(id),
    ensures
        queue.without(id).held(client) == others(queue.held(client), id),
{
    assert(queue.held(client).contains(id) <==> queue.holds(client, id));
    assert(queue.held(client).no_duplicates());
    if queue.messages[id].locked_by == Some(client) {
        dropping_leaves_the_others(queue.held(client), id);
    } else {
        others_of_others(queue.held(client), id);
    }
}

/// Locking hands one message to the client, the first that nobody holds, and puts it at
/// the end of the client's list: no other message changes hands, and nothing is lost.
pub proof fn locking_hands_out_one_message(queue: QueueState, client: u128)
    requires
        queue.wf(),
        queue.lock_error() is None,
    ensures
        ({
            let after = queue.locked_next(client);
            let id = queue.next_id->0;
            &&& queue.next_id is Some
            &&& queue.messages.contains_key(id)
            &&& queue.messages[id].locked_by is None
            &&& after.messages.dom() == queue.messages.dom()
            &&& after.messages[id].locked_by == Some(client)
            &&& after.messages[id].payload == queue.messages[id].payload
            &&& after.messages[id].publisher_id == queue.messages[id].publisher_id
            &&& after.messages[id].timestamp == queue.messages[id].timestamp
            &&& forall|other: u128|
                other != id ==> #[trigger] after.messages[other] == queue.messages[other]
            &&& after.held(client) == queue.held(client).push(id)
            &&& forall|other: u128|
                other != client ==> #[trigger] after.held(other) == queue.held(other)
            &&& live(after.order) == live(queue.order)
            &&& after.order == if after.next_id is None {
                model::trimmed(queue.order)
            } else {
                queue.order
            }
            &&& after.last_id == queue.last_id
            &&& after.wrapped == queue.wrapped
            &&& after.auto_fail == queue.auto_fail
            &&& after.fail_timeout == queue.fail_timeout
            &&& after.biggest_payloads == queue.biggest_payloads
        }),
{
    laws::next_is_free(queue);
    draining_drops_tombstones(queue.order);
    assert(queue.locked_next(client).messages.dom() =~= queue.messages.dom());
}

/// A message can be locked unless every stored one is held; the error then is that the
/// queue is empty.
pub proof fn locking_fails_on_an_empty_queue(queue: QueueState)
    requires
        queue.wf(),
    ensures
        queue.lock_error() is None || queue.lock_error() == Some(ErrorCode::QueueIsEmpty),
        queue.lock_error() is Some <==> forall|id: u128| #[trigger]
            queue.messages.contains_key(id) ==> queue.messages[id].locked_by is Some,
{
    next_is_the_first_free_message(queue);
    if queue.next_id is Some {
        assert(queue.messages.contains_key(queue.next_id->0));
    }
}

/// The 56 bytes that describe a message give its id, its publisher, its time and its
/// holder, each as a big-endian number, with the largest number for no holder.
pub proof fn description_tells_the_message(id: u128, message: MessageState)
    ensures
        model::meta_bytes(id, message).len() == 56,
        wire::be_value(model::meta_bytes(id, message).subrange(0, 16)) == id,
        wire::be_value(model::meta_bytes(id, message).subrange(16, 32)) == message.publisher_id,
        wire::be_value(model::meta_bytes(id, message).subrange(32, 40)) == message.timestamp,
        message.locked_by matches Some(client) ==> wire::be_value(
            model::meta_bytes(id, message).subrange(40, 56),
        ) == client,
        message.locked_by is None ==> wire::be_value(
            model::meta_bytes(id, message).subrange(40, 56),
        ) == u128::MAX,
{
    broadcast use wire::be_bytes_len;

    wire::be_limit_values();
    let bytes = model::meta_bytes(id, message);
    let holder = match message.locked_by {
        Some(client) => client as nat,
        None => u128::MAX as nat,
    };
    assert(bytes.subrange(0, 16) =~= wire::be_bytes(id as nat, 16));
    assert(bytes.subrange(16, 32) =~= wire::be_bytes(message.publisher_id as nat, 16));
    assert(bytes.subrange(32, 40) =~= wire::be_bytes(message.timestamp as nat, 8));
    assert(bytes.subrange(40, 56) =~= wire::be_bytes(holder, 16));
    wire::be_value_of_be_bytes(id as nat, 16);
    wire::be_value_of_be_bytes(message.publisher_id as nat, 16);
    wire::be_value_of_be_bytes(message.timestamp as nat, 8);
    wire::be_value_of_be_bytes(holder, 16);
}

/// A delivery tells of the next message, with the client as its holder, and ends in the
/// payload.
pub proof fn delivery_tells_the_next_message(queue: QueueState, client: u128)
    requires
        queue.wf(),
        queue.lock_error() is None,
    ensures
        ({
            let id = queue.next_id->0;
            let bytes = queue.delivery(client);
            &&& bytes.len() == 56 + queue.messages[id].payload.len()
            &&& wire::be_value(bytes.subrange(0, 16)) == id
            &&& wire::be_value(bytes.subrange(16, 32)) == queue.messages[id].publisher_id
            &&& wire::be_value(bytes.subrange(32, 40)) == queue.messages[id].timestamp
            &&& wire::be_value(bytes.subrange(40, 56)) == client
            &&& bytes.skip(56) == queue.messages[id].payload
        }),
{
    let id = queue.next_id->0;
    let message = queue.messages[id].held_by(Some(client));
    let meta = model::meta_bytes(id, message);
    let bytes = queue.delivery(client);
    description_tells_the_message(id, message);
    assert(bytes.subrange(0, 16) =~= meta.subrange(0, 16));
    assert(bytes.subrange(16, 32) =~= meta.subrange(16, 32));
    assert(bytes.subrange(32, 40) =~= meta.subrange(32, 40));
    assert(bytes.subrange(40, 56) =~= meta.subrange(40, 56));
    assert(bytes.skip(56) =~= queue.messages[id].payload);
}

/// Taking a message out removes that one alone, from the order and from the list of its
/// holder; every other message stays as it is, in its place and with its lock.
pub proof fn taking_out_removes_one_message(queue: QueueState, client: u128, id: u128)
    requires
        queue.wf(),
        queue.messages.contains_key(id),
    ensures
        ({
            let after = queue.deleted(client, id);
            &&& after.messages == queue.messages.remove(id)
            &&& forall|holder: u128| #[trigger]
                after.held(holder) == others(queue.held(holder), id)
            &&& forall|holder: u128| #[trigger]
                after.locks.contains_key(holder) <==> queue.locks.contains_key(holder)
            &&& live(after.order) == others(live(queue.order), id)
            &&& forall|at: int|
                #![trigger queue.order[at]]
                0 <= at < queue.order.len() && queue.order[at] == id ==> after.order == if queue.held(
                    client,
                ).contains(id) {
                    model::trimmed(queue.order.update(at, 0))
                } else {
                    queue.order.update(at, 0)
                }
            &&& after.last_id == queue.last_id
            &&& after.wrapped == queue.wrapped
            &&& after.auto_fail == queue.auto_fail
            &&& after.fail_timeout == queue.fail_timeout
            &&& after.biggest_payloads == queue.biggest_payloads
        }),
{
    let after = queue.deleted(client, id);
    assert forall|holder: u128| #[trigger] after.held(holder) == others(
        queue.held(holder),
        id,
    ) by {
        taking_out_leaves_other_locks(queue, id, holder);
    }
    assert forall|holder: u128| #[trigger]
        after.locks.contains_key(holder) <==> queue.locks.contains_key(holder) by {
        if queue.messages[id].locked_by == Some(holder) {
            assert(queue.held(holder).contains(id) <==> queue.holds(holder, id));
        }
    }
    queue.order.index_of_first_ensures(id);
    burying_leaves_the_others(queue.order, id);
    draining_drops_tombstones(model::buried(queue.order, id));
    assert forall|at: int|
        #![trigger queue.order[at]]
        0 <= at < queue.order.len() && queue.order[at] == id implies after.order
        == if queue.held(client).contains(id) {
        model::trimmed(queue.order.update(at, 0))
    } else {
        queue.order.update(at, 0)
    } by {
        let first = queue.order.index_of_first(id)->0;
        if first < at {
            assert(queue.order[first] != queue.order[at]);
        } else if at < first {
            assert(queue.order[at] != queue.order[first]);
        }
    }
}

/// A client that acknowledges without naming a message gives up the one it has held
/// longest: exactly that message goes, and the client keeps its other locks.
pub proof fn acknowledging_removes_the_oldest_lock(queue: QueueState, client: u128)
    requires
        queue.wf(),
        queue.held(client).len() > 0,
    ensures
        ({
            let after = queue.dequeued(client, None);
            let id = queue.held(client)[0];
            &&& queue.dequeue_error(client, None) is None
            &&& queue.messages.contains_key(id)
            &&& queue.messages[id].locked_by == Some(client)
            &&& after.messages == queue.messages.remove(id)
            &&& after.held(client) == queue.held(client).drop_first()
            &&& forall|other: u128|
                other != client ==> #[trigger] after.held(other) == queue.held(other)
            &&& live(after.order) == others(live(queue.order), id)
        }),
{
    let held = queue.held(client);
    let id = held[0];
    assert(held.contains(id));
    assert(queue.holds(client, id));
    assert(held.no_duplicates());
    assert(queue.order.contains(id));
    taking_out_removes_one_message(queue, client, id);
    dropping_the_first(held);
    let after = queue.dequeued(client, None);
    assert forall|other: u128| other != client implies #[trigger] after.held(other)
        == queue.held(other) by {
        assert(queue.held(other).contains(id) <==> queue.holds(other, id));
        others_of_others(queue.held(other), id);
    }
}

/// The others of the first id are what follows it.
proof fn dropping_the_first(ids: Seq<u128>)
    requires
        ids.no_duplicates(),
        ids.len() > 0,
    ensures
        others(ids, ids[0]) == ids.drop_first(),
{
    dropping_leaves_the_others(ids, ids[0]);
    ids.index_of_first_ensures(ids[0]);
    assert(ids.contains(ids[0]));
    assert(model::without_first(ids, ids[0]) =~= ids.drop_first());
}

/// A client that dequeues a message by its id takes out exactly that one, whoever holds
/// it.
pub proof fn dequeuing_by_id_removes_that_message(queue: QueueState, client: u128, id: u128)
    requires
        queue.wf(),
        queue.messages.contains_key(id),
    ensures
        ({
            let after = queue.dequeued(client, Some(id));
            &&& queue.dequeue_error(client, Some(id)) is None
            &&& after.messages == queue.messages.remove(id)
            &&& forall|holder: u128| #[trigger]
                after.held(holder) == others(queue.held(holder), id)
            &&& live(after.order) == others(live(queue.order), id)
        }),
{
    taking_out_removes_one_message(queue, client, id);
    assert(queue.order.contains(id));
}

/// When dequeuing fails, and with which error: nothing is left in the order; the named
/// message is not stored; no message is named and the client never held a lock, or
/// holds none any more.
pub proof fn dequeuing_fails_for_a_reason(queue: QueueState, client: u128, id: u128)
    ensures
        queue.order.len() == 0 ==> {
            &&& queue.dequeue_error(client, None) == Some(ErrorCode::QueueIsEmpty)
            &&& queue.dequeue_error(client, Some(id)) == Some(ErrorCode::QueueIsEmpty)
        },
        queue.order.len() > 0 ==> {
            &&& queue.messages.contains_key(id) ==> queue.dequeue_error(client, Some(id)) is None
            &&& !queue.messages.contains_key(id) ==> queue.dequeue_error(client, Some(id)) == Some(
                ErrorCode::NoSuchMessageId,
            )
            &&& !queue.locks.contains_key(client) ==> queue.dequeue_error(client, None) == Some(
                ErrorCode::MessageNotLockedByClient,
            )
            &&& queue.locks.contains_key(client) && queue.locks[client].len() == 0
                ==> queue.dequeue_error(client, None) == Some(ErrorCode::NoSuchMessageIdLocked)
            &&& queue.locks.contains_key(client) && queue.locks[client].len() > 0
                ==> queue.dequeue_error(client, None) is None
        },
{
}

/// Giving a lock back frees that message and touches no other: no payload, no place in
/// the order, no lock of another message.
pub proof fn giving_back_frees_one_message(queue: QueueState, client: u128, id: u128)
    requires
        queue.wf(),
        queue.held(client).contains(id),
    ensures
        ({
            let after = queue.unlocked(client, Some(id));
            &&& queue.unlock_error(client, Some(id)) is None
            &&& queue.messages.contains_key(id)
            &&& queue.messages[id].locked_by == Some(client)
            &&& after.messages.dom() == queue.messages.dom()
            &&& after.messages[id].locked_by is None
            &&& after.messages[id].payload == queue.messages[id].payload
            &&& after.messages[id].publisher_id == queue.messages[id].publisher_id
            &&& after.messages[id].timestamp == queue.messages[id].timestamp
            &&& forall|other: u128|
                other != id ==> #[trigger] after.messages[other] == queue.messages[other]
            &&& after.held(client) == others(queue.held(client), id)
            &&& forall|other: u128|
                other != client ==> #[trigger] after.held(other) == queue.held(other)
            &&& after.order == queue.order
            &&& after.last_id == queue.last_id
            &&& after.wrapped == queue.wrapped
            &&& after.auto_fail == queue.auto_fail
            &&& after.fail_timeout == queue.fail_timeout
            &&& after.biggest_payloads == queue.biggest_payloads
        }),
{
    assert(queue.holds(client, id));
    assert(queue.order.contains(id));
    assert(queue.held(client).no_duplicates());
    dropping_leaves_the_others(queue.held(client), id);
    assert(queue.unlocked(client, Some(id)).messages.dom() =~= queue.messages.dom());
}

/// A client that gives a lock back without naming a message gives back the one it has
/// held longest: only that message changes its holder, and the client keeps its other
/// locks.
pub proof fn giving_back_frees_the_oldest_lock(queue: QueueState, client: u128)
    requires
        queue.wf(),
        queue.held(client).len() > 0,
    ensures
        ({
            let after = queue.unlocked(client, None);
            let id = queue.held(client)[0];
            &&& queue.unlock_error(client, None) is None
            &&& queue.messages.contains_key(id)
            &&& queue.messages[id].locked_by == Some(client)
            &&& after.messages.dom() == queue.messages.dom()
            &&& after.messages[id].locked_by is None
            &&& after.messages[id].payload == queue.messages[id].payload
            &&& after.messages[id].publisher_id == queue.messages[id].publisher_id
            &&& after.messages[id].timestamp == queue.messages[id].timestamp
            &&& forall|other: u128|
                other != id ==> #[trigger] after.messages[other] == queue.messages[other]
            &&& after.held(client) == queue.held(client).drop_first()
            &&& forall|other: u128|
                other != client ==> #[trigger] after.held(other) == queue.held(other)
            &&& after.order == queue.order
        }),
{
    let held = queue.held(client);
    assert(held.contains(held[0]));
    assert(held.no_duplicates());
    giving_back_frees_one_message(queue, client, held[0]);
    dropping_the_first(held);
}

/// When giving a lock back fails, and with which error: nothing is left in the order;
/// the client never held a lock, or does not hold the one it names. Where it names none
/// and holds none, nothing happens.
pub proof fn giving_back_fails_for_a_reason(queue: QueueState, client: u128, id: u128)
    ensures
        queue.order.len() == 0 ==> {
            &&& queue.unlock_error(client, None) == Some(ErrorCode::QueueIsEmpty)
            &&& queue.unlock_error(client, Some(id)) == Some(ErrorCode::QueueIsEmpty)
        },
        queue.order.len() > 0 ==> {
            &&& queue.unlock_error(client, None) == if queue.locks.contains_key(client) {
                None
            } else {
                Some(ErrorCode::MessageNotLockedByClient)
            }
            &&& queue.unlock_error(client, Some(id)) == if queue.held(client).contains(id) {
                None
            } else {
                Some(ErrorCode::MessageNotLockedByClient)
            }
        },
        queue.locks.contains_key(client) && queue.held(client).len() == 0 ==> queue.unlocked(
            client,
            None,
        ) == queue,
{
}

/// A requeued message moves to the end under a new id, unlocked: its payload and its
/// publisher stay, its time is the one given. Every other message stays as it is, in
/// its place and with its lock.
pub proof fn requeuing_moves_one_message(queue: QueueState, client: u128, id: u128, timestamp: u64)
    requires
        queue.wf(),
        queue.messages.contains_key(id),
        !queue.wrapped,
        queue.last_id < u128::MAX,
    ensures
        ({
            let after = queue.requeued(client, id, timestamp);
            let new_id = (queue.last_id + 1) as u128;
            &&& new_id != id
            &&& !queue.messages.contains_key(new_id)
            &&& after.messages.dom() == queue.messages.dom().remove(id).insert(new_id)
            &&& after.messages[new_id].payload == queue.messages[id].payload
            &&& after.messages[new_id].publisher_id == queue.messages[id].publisher_id
            &&& after.messages[new_id].timestamp == timestamp
            &&& after.messages[new_id].locked_by is None
            &&& forall|other: u128|
                other != id && other != new_id ==> #[trigger] after.messages[other]
                    == queue.messages[other]
            &&& forall|holder: u128| #[trigger]
                after.held(holder) == others(queue.held(holder), id)
            &&& live(after.order) == others(live(queue.order), id).push(new_id)
            &&& after.last_id == new_id
            &&& !after.wrapped
            &&& after.auto_fail == queue.auto_fail
            &&& after.fail_timeout == queue.fail_timeout
            &&& after.biggest_payloads == queue.biggest_payloads
        }),
{
    let message = queue.messages[id];
    let fewer = queue.deleted(client, id);
    let after = queue.requeued(client, id, timestamp);
    laws::deleting_keeps_wf(queue, client, id);
    laws::new_ids_are_new(queue);
    taking_out_removes_one_message(queue, client, id);
    enqueuing_adds_one_message(fewer, message.payload, message.publisher_id, timestamp);
    assert(fewer.messages.dom() =~= queue.messages.dom().remove(id));
    assert forall|holder: u128| #[trigger] after.held(holder) == others(
        queue.held(holder),
        id,
    ) by {
        assert(fewer.held(holder) == others(queue.held(holder), id));
    }
    reveal(Seq::filter);
    assert(after.order.drop_last() =~= fewer.order);
}

/// Where ids start over, a requeued message may get the id of another one, which it then
/// replaces; all the rest stays as it is, and nothing is lost of the message itself.
pub proof fn requeuing_replaces_where_ids_start_over(
    queue: QueueState,
    client: u128,
    id: u128,
    timestamp: u64,
)
    requires
        queue.wf(),
        queue.messages.contains_key(id),
    ensures
        ({
            let after = queue.requeued(client, id, timestamp);
            let new_id: u128 = if queue.last_id == u128::MAX {
                1
            } else {
                (queue.last_id + 1) as u128
            };
            &&& queue.edit_error(id) is None
            &&& after.messages.dom() == queue.messages.dom().remove(id).insert(new_id)
            &&& after.messages[new_id].payload == queue.messages[id].payload
            &&& after.messages[new_id].publisher_id == queue.messages[id].publisher_id
            &&& after.messages[new_id].timestamp == timestamp
            &&& after.messages[new_id].locked_by is None
            &&& forall|other: u128|
                other != id && other != new_id ==> #[trigger] after.messages[other]
                    == queue.messages[other]
            &&& forall|holder: u128| #[trigger]
                after.held(holder) == others(others(queue.held(holder), id), new_id)
            &&& live(after.order) == others(others(live(queue.order), id), new_id).push(new_id)
            &&& after.last_id == new_id
            &&& after.wrapped == (queue.wrapped || queue.last_id == u128::MAX)
            &&& after.auto_fail == queue.auto_fail
            &&& after.fail_timeout == queue.fail_timeout
            &&& after.biggest_payloads == queue.biggest_payloads
        }),
{
    let message = queue.messages[id];
    let fewer = queue.deleted(client, id);
    let after = queue.requeued(client, id, timestamp);
    let new_id = model::id_after(queue.last_id);
    assert(queue.order.contains(id));
    laws::deleting_keeps_wf(queue, client, id);
    taking_out_removes_one_message(queue, client, id);
    enqueuing_replaces_where_ids_start_over(
        fewer,
        message.payload,
        message.publisher_id,
        timestamp,
    );
    assert(fewer.messages.dom() =~= queue.messages.dom().remove(id));
    assert forall|holder: u128| #[trigger] after.held(holder) == others(
        others(queue.held(holder), id),
        new_id,
    ) by {
        assert(fewer.held(holder) == others(queue.held(holder), id));
    }
}

/// An update gives the message its new payload, whichever message of the queue it is,
/// held or not: the rest of that message, and every other message, lock and place in
/// the order stays as it is.
pub proof fn updating_replaces_one_payload(queue: QueueState, id: u128, payload: Seq<u8>)
    requires
        queue.wf(),
        queue.messages.contains_key(id),
    ensures
        ({
            let after = queue.updated(id, payload);
            &&& queue.edit_error(id) is None
            &&& after.messages.dom() == queue.messages.dom()
            &&& after.messages[id].payload == payload
            &&& after.messages[id].publisher_id == queue.messages[id].publisher_id
            &&& after.messages[id].timestamp == queue.messages[id].timestamp
            &&& after.messages[id].locked_by == queue.messages[id].locked_by
            &&& forall|other: u128|
                other != id ==> #[trigger] after.messages[other] == queue.messages[other]
            &&& after.locks == queue.locks
            &&& after.order == queue.order
            &&& after.next_id == queue.next_id
            &&& after.last_id == queue.last_id
            &&& after.wrapped == queue.wrapped
            &&& after.auto_fail == queue.auto_fail
            &&& after.fail_timeout == queue.fail_timeout
            &&& after.biggest_payloads == queue.biggest_payloads
        }),
{
    assert(queue.order.contains(id));
    assert(queue.updated(id, payload).messages.dom() =~= queue.messages.dom());
}

/// When requeuing and updating fail, and with which error: nothing is left in the order,
/// or the message is not stored.
pub proof fn editing_fails_for_a_reason(queue: QueueState, id: u128)
    ensures
        queue.edit_error(id) is None <==> queue.order.len() > 0 && queue.messages.contains_key(id),
        queue.edit_error(id) == Some(ErrorCode::QueueIsEmpty) <==> queue.order.len() == 0,
        queue.edit_error(id) == Some(ErrorCode::MessageNotInQueue) <==> queue.order.len() > 0
            && !queue.messages.contains_key(id),
{
}

/// A configuration update sets what it names and leaves the rest of the queue alone.
pub proof fn configuring_sets_what_is_named(queue: QueueState, update: ConfigUpdate)
    ensures
        ({
            let after = queue.configured(update);
            &&& update.auto_fail matches Some(value) ==> after.auto_fail == value
            &&& update.auto_fail is None ==> after.auto_fail == queue.auto_fail
            &&& update.fail_timeout matches Some(value) ==> after.fail_timeout == value
            &&& update.fail_timeout is None ==> after.fail_timeout == queue.fail_timeout
            &&& after.messages == queue.messages
            &&& after.locks == queue.locks
            &&& after.order == queue.order
            &&& after.next_id == queue.next_id
            &&& after.last_id == queue.last_id
            &&& after.wrapped == queue.wrapped
            &&& after.biggest_payloads == queue.biggest_payloads
        }),
{
}

} // verus!
