//! What holds of queues across operations.
use vstd::prelude::*;

use crate::net::model;
use crate::net::model::{MessageState, QueueState, Room, MESSAGE_OVERHEAD};
use crate::tally;

verus! {

/// A tombstone count never exceeds the length, everything before it is a
/// tombstone, and what stands at it is not.
pub proof fn leading_zeroes_are_zero(order: Seq<u128>)
    ensures
        model::leading_zeroes(order) <= order.len(),
        forall|i: int| 0 <= i < model::leading_zeroes(order) ==> order[i] == 0,
        model::leading_zeroes(order) < order.len() ==> order[model::leading_zeroes(order) as int]
            != 0,
    decreases order.len(),
{
    if order.len() > 0 && order[0] == 0 {
        let rest = order.drop_first();
        leading_zeroes_are_zero(rest);
        assert forall|i: int| 0 <= i < model::leading_zeroes(order) implies order[i] == 0 by {
            if i > 0 {
                assert(rest[i - 1] == order[i]);
            }
        }
    }
}

/// Draining tombstones loses no live id.
pub proof fn trimming_keeps_live_ids(order: Seq<u128>, id: u128)
    requires
        id != 0,
    ensures
        model::trimmed(order).contains(id) <==> order.contains(id),
{
    leading_zeroes_are_zero(order);
    let after = model::trimmed(order);
    let zeroes = model::leading_zeroes(order) as int;
    if after != order {
        if order.contains(id) {
            let i = order.index_of(id);
            assert(after[i - zeroes] == id);
        }
        if after.contains(id) {
            let i = after.index_of(id);
            assert(order[i + zeroes] == id);
        }
    }
}

/// Dropping one id from a list keeps every other.
pub proof fn dropping_keeps_other_ids(ids: Seq<u128>, id: u128, other: u128)
    requires
        other != id,
        ids.contains(other),
    ensures
        model::without_first(ids, id).contains(other),
{
    ids.index_of_first_ensures(id);
    let after = model::without_first(ids, id);
    let i = ids.index_of(other);
    if let Some(k) = ids.index_of_first(id) {
        if i < k {
            assert(after[i] == other);
        } else {
            assert(after[i - 1] == other);
        }
    }
}

/// What a list holds after one id was dropped, it held before.
pub proof fn dropping_adds_nothing(ids: Seq<u128>, id: u128, i: int)
    requires
        0 <= i < model::without_first(ids, id).len(),
    ensures
        ids.contains(model::without_first(ids, id)[i]),
{
    ids.index_of_first_ensures(id);
    let after = model::without_first(ids, id);
    if let Some(k) = ids.index_of_first(id) {
        if i < k {
            assert(ids[i] == after[i]);
        } else {
            assert(ids[i + 1] == after[i]);
        }
    } else {
        assert(ids[i] == after[i]);
    }
}

/// What a list without repetitions holds after one id was dropped: all but that id.
pub proof fn dropping_from_distinct(ids: Seq<u128>, id: u128)
    requires
        ids.no_duplicates(),
    ensures
        model::without_first(ids, id).no_duplicates(),
        forall|other: u128| #[trigger]
            model::without_first(ids, id).contains(other) <==> ids.contains(other) && other != id,
{
    ids.index_of_first_ensures(id);
    let after = model::without_first(ids, id);
    if let Some(k) = ids.index_of_first(id) {
        assert forall|i: int, j: int|
            0 <= i < after.len() && 0 <= j < after.len() && i != j implies after[i] != after[j] by {
            let a = if i < k { i } else { i + 1 };
            let b = if j < k { j } else { j + 1 };
            assert(ids[a] != ids[b]);
        }
        assert forall|other: u128| #[trigger] after.contains(other) <==> ids.contains(other)
            && other != id by {
            if after.contains(other) {
                let i = after.index_of(other);
                dropping_adds_nothing(ids, id, i);
                let a = if i < k { i } else { i + 1 };
                assert(ids[a] == other);
                assert(ids[a] != ids[k]);
            }
            if ids.contains(other) && other != id {
                dropping_keeps_other_ids(ids, id, other);
            }
        }
    }
}

/// What is to be delivered depends only on which ids in the order are free.
pub proof fn free_ids_agree(
    order: Seq<u128>,
    messages: Map<u128, MessageState>,
    other_order: Seq<u128>,
    other_messages: Map<u128, MessageState>,
)
    requires
        order.len() == other_order.len(),
        forall|i: int|
            #![trigger order[i]]
            #![trigger other_order[i]]
            0 <= i < order.len() ==> {
                &&& model::is_free(messages, order[i]) == model::is_free(
                    other_messages,
                    other_order[i],
                )
                &&& model::is_free(messages, order[i]) ==> order[i] == other_order[i]
            },
    ensures
        model::free_ids(order, messages) == model::free_ids(other_order, other_messages),
    decreases order.len(),
{
    if order.len() > 0 {
        let front = order.drop_last();
        let other_front = other_order.drop_last();
        assert forall|i: int|
            #![trigger front[i]]
            #![trigger other_front[i]]
            0 <= i < front.len() implies {
            &&& model::is_free(messages, front[i]) == model::is_free(other_messages, other_front[i])
            &&& model::is_free(messages, front[i]) ==> front[i] == other_front[i]
        } by {
            assert(front[i] == order[i]);
            assert(other_front[i] == other_order[i]);
        }
        free_ids_agree(front, messages, other_front, other_messages);
        assert(order.last() == order[order.len() - 1]);
        assert(other_order.last() == other_order[order.len() - 1]);
    }
}

/// What is to be delivered is what stands in the order and is free.
pub proof fn free_ids_are_free(order: Seq<u128>, messages: Map<u128, MessageState>)
    ensures
        forall|id: u128| #[trigger]
            model::free_ids(order, messages).contains(id) <==> order.contains(id)
                && model::is_free(messages, id),
    decreases order.len(),
{
    let ids = model::free_ids(order, messages);
    if order.len() > 0 {
        let front = order.drop_last();
        let fewer = model::free_ids(front, messages);
        free_ids_are_free(front, messages);
        assert forall|id: u128| #[trigger] ids.contains(id) <==> order.contains(id)
            && model::is_free(messages, id) by {
            if ids.contains(id) {
                let i = ids.index_of(id);
                if i < fewer.len() {
                    assert(fewer[i] == id);
                    assert(fewer.contains(id));
                    let k = front.index_of(id);
                    assert(order[k] == id);
                } else {
                    assert(order[order.len() - 1] == id);
                }
            }
            if order.contains(id) && model::is_free(messages, id) {
                let k = order.index_of(id);
                if k < front.len() {
                    assert(front[k] == id);
                    assert(fewer.contains(id));
                    let i = fewer.index_of(id);
                    assert(ids[i] == id);
                } else {
                    assert(ids.last() == id);
                }
            }
        }
    }
}

/// The first to be delivered is the first in the order that is free.
pub proof fn first_free_is_first(order: Seq<u128>, messages: Map<u128, MessageState>, at: int)
    requires
        0 <= at < order.len(),
        model::is_free(messages, order[at]),
        forall|i: int| 0 <= i < at ==> !model::is_free(messages, #[trigger] order[i]),
    ensures
        model::first_of(model::free_ids(order, messages)) == Some(order[at]),
    decreases order.len(),
{
    let front = order.drop_last();
    if at < front.len() {
        assert forall|i: int| 0 <= i < at implies !model::is_free(
            messages,
            #[trigger] front[i],
        ) by {
            assert(front[i] == order[i]);
        }
        first_free_is_first(front, messages, at);
    } else {
        free_ids_are_free(front, messages);
        let fewer = model::free_ids(front, messages);
        if fewer.len() > 0 {
            assert(fewer.contains(fewer[0]));
            let k = front.index_of(fewer[0]);
            assert(order[k] == fewer[0]);
        }
    }
}

/// Nothing is to be delivered where nothing in the order is free.
pub proof fn nothing_free(order: Seq<u128>, messages: Map<u128, MessageState>)
    requires
        forall|i: int| 0 <= i < order.len() ==> !model::is_free(messages, #[trigger] order[i]),
    ensures
        model::free_ids(order, messages).len() == 0,
{
    free_ids_are_free(order, messages);
    let ids = model::free_ids(order, messages);
    if ids.len() > 0 {
        assert(ids.contains(ids[0]));
        let k = order.index_of(ids[0]);
        assert(order[k] == ids[0]);
    }
}

/// What is not free in front of the order can be left out.
proof fn free_ids_of_the_rest(order: Seq<u128>, messages: Map<u128, MessageState>, count: int)
    requires
        0 <= count <= order.len(),
        forall|i: int| 0 <= i < count ==> !model::is_free(messages, #[trigger] order[i]),
    ensures
        model::free_ids(order.skip(count), messages) == model::free_ids(order, messages),
    decreases order.len(),
{
    if count == order.len() {
        nothing_free(order, messages);
        assert(model::free_ids(order.skip(count), messages) =~= model::free_ids(order, messages));
    } else {
        let front = order.drop_last();
        assert forall|i: int| 0 <= i < count implies !model::is_free(
            messages,
            #[trigger] front[i],
        ) by {
            assert(front[i] == order[i]);
        }
        free_ids_of_the_rest(front, messages, count);
        assert(order.skip(count).drop_last() =~= front.skip(count));
    }
}

/// Draining tombstones changes nothing about what is to be delivered.
pub proof fn trimming_keeps_free_ids(order: Seq<u128>, messages: Map<u128, MessageState>)
    requires
        !messages.contains_key(0),
    ensures
        model::free_ids(model::trimmed(order), messages) == model::free_ids(order, messages),
{
    leading_zeroes_are_zero(order);
    free_ids_of_the_rest(order, messages, model::leading_zeroes(order) as int);
}

/// Once an id is no longer free, it is the one that is no longer to be delivered.
pub proof fn free_ids_without(
    order: Seq<u128>,
    messages: Map<u128, MessageState>,
    after: Map<u128, MessageState>,
    id: u128,
)
    requires
        id != 0,
        !messages.contains_key(0),
        !model::is_free(after, id),
        forall|other: u128|
            other != id ==> #[trigger] model::is_free(after, other) == model::is_free(
                messages,
                other,
            ),
        forall|i: int, j: int|
            #![trigger order[i], order[j]]
            0 <= i < j < order.len() && order[i] != 0 ==> order[i] != order[j],
    ensures
        model::free_ids(order, after) == model::without_first(model::free_ids(order, messages), id),
    decreases order.len(),
{
    let ids = model::free_ids(order, messages);
    ids.index_of_first_ensures(id);
    if order.len() > 0 {
        let front = order.drop_last();
        let fewer = model::free_ids(front, messages);
        assert forall|i: int, j: int|
            #![trigger front[i], front[j]]
            0 <= i < j < front.len() && front[i] != 0 implies front[i] != front[j] by {
            assert(order[i] != order[j]);
        }
        free_ids_without(front, messages, after, id);
        free_ids_are_free(front, messages);
        fewer.index_of_first_ensures(id);
        let last = order.last();
        if last == id {
            if front.contains(id) {
                let k = front.index_of(id);
                assert(order[k] != order[order.len() - 1]);
            }
            if model::is_free(messages, id) {
                assert(ids[ids.len() - 1] == id);
                assert(ids.contains(id));
                let k = ids.index_of_first(id)->0;
                if k < fewer.len() {
                    assert(fewer[k] == id);
                }
                assert(ids.remove(k) =~= fewer);
            }
        } else if model::is_free(messages, last) {
            if fewer.contains(id) {
                let k = fewer.index_of_first(id)->0;
                assert(ids[k] == id);
                let m = ids.index_of_first(id)->0;
                if m < k {
                    assert(fewer[m] == id);
                }
                assert(m == k);
                assert(ids.remove(k) =~= fewer.remove(k).push(last));
            } else {
                if ids.contains(id) {
                    let k = ids.index_of(id);
                    assert(fewer[k] == id);
                }
            }
        }
    }
}

/// Taking a stored message out keeps a queue well formed, and no list of locks names
/// the message any more.
pub proof fn removing_keeps_wf(queue: QueueState, id: u128)
    requires
        queue.wf(),
        queue.messages.contains_key(id),
    ensures
        queue.without(id).wf(),
        forall|client: u128| !(#[trigger] queue.without(id).held(client)).contains(id),
{
    let after = queue.without(id);
    let order = queue.order;
    order.index_of_first_ensures(id);
    let at = order.index_of_first(id)->0;
    assert forall|other: u128| #[trigger] after.messages.contains_key(other) implies other != 0
        && after.order.contains(other) by {
        assert(queue.messages.contains_key(other));
        let i = order.index_of(other);
        assert(after.order[i] == other);
    }
    assert forall|i: int|
        #![trigger after.order[i]]
        0 <= i < after.order.len() && after.order[i] != 0 implies after.messages.contains_key(
        after.order[i],
    ) by {
        assert(order[i] == after.order[i]);
        if i < at {
            assert(order[i] != order[at]);
        } else {
            assert(order[at] != order[i]);
        }
    }
    assert forall|i: int, j: int|
        #![trigger after.order[i], after.order[j]]
        0 <= i < j < after.order.len() && after.order[i] != 0 implies after.order[i]
        != after.order[j] by {
        assert(order[i] != order[j]);
    }
    assert forall|client: u128, other: u128| #[trigger]
        after.held(client).contains(other) <==> after.holds(client, other) by {
        assert(queue.held(client).contains(other) <==> queue.holds(client, other));
        dropping_from_distinct(queue.held(client), id);
    }
    assert forall|client: u128| (#[trigger] after.held(client)).no_duplicates() by {
        dropping_from_distinct(queue.held(client), id);
    }
    assert(after.ids_wf()) by {
        if !after.wrapped {
            assert forall|i: int|
                #![trigger after.order[i]]
                0 <= i < after.order.len() implies after.order[i] <= after.last_id by {
                assert(order[i] <= queue.last_id);
            }
            assert forall|i: int, j: int|
                #![trigger after.order[i], after.order[j]]
                0 <= i < j < after.order.len() && after.order[j] != 0 implies after.order[i]
                < after.order[j] by {
                assert(order[i] < order[j]);
            }
        }
    }
    assert forall|client: u128| !(#[trigger] after.held(client)).contains(id) by {
        assert(after.held(client).contains(id) <==> after.holds(client, id));
    }
}

/// Draining tombstones keeps a queue well formed.
pub proof fn trimming_keeps_wf(queue: QueueState)
    requires
        queue.wf(),
    ensures
        (QueueState { order: model::trimmed(queue.order), ..queue }).wf(),
{
    let after = QueueState { order: model::trimmed(queue.order), ..queue };
    let zeroes = model::leading_zeroes(queue.order) as int;
    leading_zeroes_are_zero(queue.order);
    assert(!queue.messages.contains_key(0));
    trimming_keeps_free_ids(queue.order, queue.messages);
    if after.order != queue.order {
        assert forall|i: int| 0 <= i < after.order.len() implies #[trigger] after.order[i]
            == queue.order[i + zeroes] by {}
        assert forall|other: u128| #[trigger] after.messages.contains_key(other) implies other != 0
            && after.order.contains(other) by {
            assert(queue.messages.contains_key(other));
            trimming_keeps_live_ids(queue.order, other);
        }
        assert forall|i: int, j: int|
            #![trigger after.order[i], after.order[j]]
            0 <= i < j < after.order.len() && after.order[i] != 0 implies after.order[i]
            != after.order[j] by {
            assert(queue.order[i + zeroes] != queue.order[j + zeroes]);
        }
        if !after.wrapped {
            assert forall|i: int, j: int|
                #![trigger after.order[i], after.order[j]]
                0 <= i < j < after.order.len() && after.order[j] != 0 implies after.order[i]
                < after.order[j] by {
                assert(queue.order[i + zeroes] < queue.order[j + zeroes]);
            }
        }
    }
    same_locks(queue, after);
}

/// What holds of the locks holds of every queue with the same messages and lists.
proof fn same_locks(queue: QueueState, after: QueueState)
    requires
        queue.locks_wf(),
        after.messages == queue.messages,
        after.locks == queue.locks,
    ensures
        after.locks_wf(),
{
    assert forall|client: u128, id: u128| #[trigger]
        after.held(client).contains(id) <==> after.holds(client, id) by {
        assert(queue.held(client).contains(id) <==> queue.holds(client, id));
    }
    assert forall|client: u128| (#[trigger] after.held(client)).no_duplicates() by {
        assert(queue.held(client).no_duplicates());
    }
}

/// Taking note that ids have started over keeps a queue well formed.
pub proof fn marking_keeps_wf(queue: QueueState, wrapped: bool)
    requires
        queue.wf(),
        queue.wrapped ==> wrapped,
    ensures
        (QueueState { wrapped, ..queue }).wf(),
{
    same_locks(queue, QueueState { wrapped, ..queue });
}

/// A new id names no stored message, unless ids have started over.
pub proof fn new_ids_are_new(queue: QueueState)
    requires
        queue.wf(),
        !queue.wrapped,
        queue.last_id < u128::MAX,
    ensures
        !queue.messages.contains_key(model::id_after(queue.last_id)),
{
    let id = model::id_after(queue.last_id);
    if queue.messages.contains_key(id) {
        let i = queue.order.index_of(id);
        assert(queue.order[i] <= queue.last_id);
    }
}

/// Enqueuing keeps a queue well formed.
pub proof fn enqueuing_keeps_wf(
    queue: QueueState,
    payload: Seq<u8>,
    publisher_id: u128,
    timestamp: u64,
)
    requires
        queue.wf(),
    ensures
        queue.enqueued(payload, publisher_id, timestamp).wf(),
{
    let id = model::id_after(queue.last_id);
    let after = queue.enqueued(payload, publisher_id, timestamp);
    let base = if queue.messages.contains_key(id) {
        removing_keeps_wf(queue, id);
        queue.without(id)
    } else {
        queue
    };
    assert(after.order[base.order.len() as int] == id);
    assert forall|other: u128| #[trigger] after.messages.contains_key(other) implies other != 0
        && after.order.contains(other) by {
        if other != id {
            assert(base.messages.contains_key(other));
            let i = base.order.index_of(other);
            assert(after.order[i] == other);
        }
    }
    assert forall|i: int|
        #![trigger after.order[i]]
        0 <= i < after.order.len() && after.order[i] != 0 implies after.messages.contains_key(
        after.order[i],
    ) by {
        if i < base.order.len() {
            assert(base.order[i] == after.order[i]);
        }
    }
    assert forall|i: int, j: int|
        #![trigger after.order[i], after.order[j]]
        0 <= i < j < after.order.len() && after.order[i] != 0 implies after.order[i]
        != after.order[j] by {
        assert(base.order[i] == after.order[i]);
        assert(base.messages.contains_key(base.order[i]));
        if j < base.order.len() {
            assert(base.order[i] != base.order[j]);
        }
    }
    assert forall|client: u128, other: u128| #[trigger]
        after.held(client).contains(other) <==> after.holds(client, other) by {
        assert(base.held(client) == after.held(client));
        assert(base.held(client).contains(other) <==> base.holds(client, other));
    }
    assert forall|client: u128| (#[trigger] after.held(client)).no_duplicates() by {
        assert(base.held(client).no_duplicates());
    }
    if !after.wrapped {
        assert forall|i: int|
            #![trigger after.order[i]]
            0 <= i < after.order.len() implies after.order[i] <= after.last_id by {
            if i < base.order.len() {
                assert(base.order[i] <= base.last_id);
            }
        }
        assert forall|i: int, j: int|
            #![trigger after.order[i], after.order[j]]
            0 <= i < j < after.order.len() && after.order[j] != 0 implies after.order[i]
            < after.order[j] by {
            assert(base.order[i] <= base.last_id);
            if j < base.order.len() {
                assert(base.order[i] < base.order[j]);
            }
        }
    }
    enqueuing_extends_waiting(queue, payload, publisher_id, timestamp);
}

/// What is enqueued is to be delivered after all else that is to be delivered.
pub proof fn enqueuing_extends_waiting(
    queue: QueueState,
    payload: Seq<u8>,
    publisher_id: u128,
    timestamp: u64,
)
    requires
        queue.wf(),
    ensures
        ({
            let id = model::id_after(queue.last_id);
            let base = if queue.messages.contains_key(id) {
                queue.without(id)
            } else {
                queue
            };
            queue.enqueued(payload, publisher_id, timestamp).waiting() == base.waiting().push(id)
        }),
{
    let id = model::id_after(queue.last_id);
    let after = queue.enqueued(payload, publisher_id, timestamp);
    let base = if queue.messages.contains_key(id) {
        removing_keeps_wf(queue, id);
        queue.without(id)
    } else {
        queue
    };
    assert(after.order.drop_last() =~= base.order);
    assert forall|i: int| 0 <= i < base.order.len() implies model::is_free(
        base.messages,
        #[trigger] base.order[i],
    ) == model::is_free(after.messages, base.order[i]) by {
        if base.order[i] == id {
            assert(base.messages.contains_key(base.order[i]));
        }
    }
    free_ids_agree(base.order, base.messages, base.order, after.messages);
}

/// What is stored under `next_id` is free.
pub proof fn next_is_free(queue: QueueState)
    requires
        queue.wf(),
        queue.lock_error() is None,
    ensures
        model::is_free(queue.messages, queue.next_id->0),
        queue.order.contains(queue.next_id->0),
        queue.order.len() > 0,
{
    free_ids_are_free(queue.order, queue.messages);
    assert(queue.waiting().contains(queue.waiting()[0]));
}

/// Locking takes the first message from those to be delivered.
pub proof fn locking_shortens_waiting(queue: QueueState, client: u128)
    requires
        queue.wf(),
        queue.lock_error() is None,
    ensures
        queue.locked_next(client).waiting() == queue.waiting().drop_first(),
{
    let id = queue.next_id->0;
    let after = queue.locked_next(client);
    next_is_free(queue);
    assert(!queue.messages.contains_key(0));
    assert(!after.messages.contains_key(0));
    free_ids_without(queue.order, queue.messages, after.messages, id);
    trimming_keeps_free_ids(queue.order, after.messages);
    let waiting = queue.waiting();
    waiting.index_of_first_ensures(id);
    assert(waiting.contains(waiting[0]));
    assert(model::without_first(waiting, id) =~= waiting.drop_first());
}

/// Locking the next message keeps a queue well formed.
pub proof fn locking_keeps_wf(queue: QueueState, client: u128)
    requires
        queue.wf(),
        queue.lock_error() is None,
    ensures
        queue.locked_next(client).wf(),
{
    let id = queue.next_id->0;
    let after = queue.locked_next(client);
    let untrimmed = QueueState { order: queue.order, ..after };
    let held = queue.held(client);
    next_is_free(queue);
    assert(queue.held(client).contains(id) <==> queue.holds(client, id));
    assert forall|other: u128| #[trigger] untrimmed.messages.contains_key(other) implies other != 0
        && untrimmed.order.contains(other) by {
        assert(queue.messages.contains_key(other));
    }
    assert forall|i: int|
        #![trigger untrimmed.order[i]]
        0 <= i < untrimmed.order.len() && untrimmed.order[i] != 0 implies
        untrimmed.messages.contains_key(untrimmed.order[i]) by {
        assert(queue.messages.contains_key(queue.order[i]));
    }
    assert forall|c: u128, other: u128| #[trigger]
        untrimmed.held(c).contains(other) <==> untrimmed.holds(c, other) by {
        assert(queue.held(c).contains(other) <==> queue.holds(c, other));
        if c == client {
            pushing_adds_one(held, id, other);
        }
    }
    assert forall|c: u128| (#[trigger] untrimmed.held(c)).no_duplicates() by {
        assert(queue.held(c).no_duplicates());
        if c == client {
            pushing_keeps_distinct(held, id);
        }
    }
    assert(untrimmed.wf());
    if after.next_id is None {
        trimming_keeps_wf(untrimmed);
    }
}

/// A longer list holds what was pushed and what it held before.
proof fn pushing_adds_one(ids: Seq<u128>, id: u128, other: u128)
    ensures
        ids.push(id).contains(other) <==> ids.contains(other) || other == id,
{
    if ids.contains(other) {
        let i = ids.index_of(other);
        assert(ids.push(id)[i] == other);
    }
    assert(ids.push(id)[ids.len() as int] == id);
    if ids.push(id).contains(other) {
        let i = ids.push(id).index_of(other);
        if i < ids.len() {
            assert(ids[i] == other);
        }
    }
}

/// Pushing what a list does not hold repeats nothing.
proof fn pushing_keeps_distinct(ids: Seq<u128>, id: u128)
    requires
        ids.no_duplicates(),
        !ids.contains(id),
    ensures
        ids.push(id).no_duplicates(),
{
    assert forall|i: int, j: int|
        0 <= i < ids.push(id).len() && 0 <= j < ids.push(id).len() && i != j implies ids.push(id)[i]
        != ids.push(id)[j] by {
        if i < ids.len() {
            assert(ids.contains(ids[i]));
        }
        if j < ids.len() {
            assert(ids.contains(ids[j]));
        }
    }
}

/// Taking a stored message out for a client keeps a queue well formed.
pub proof fn deleting_keeps_wf(queue: QueueState, client: u128, id: u128)
    requires
        queue.wf(),
        queue.messages.contains_key(id),
    ensures
        queue.deleted(client, id).wf(),
{
    removing_keeps_wf(queue, id);
    trimming_keeps_wf(queue.without(id));
}

/// What a message that was taken out leaves to be delivered: all else, in order.
pub proof fn deleting_shortens_waiting(queue: QueueState, client: u128, id: u128)
    requires
        queue.wf(),
        queue.messages.contains_key(id),
    ensures
        queue.deleted(client, id).waiting() == model::without_first(queue.waiting(), id),
        queue.without(id).waiting() == model::without_first(queue.waiting(), id),
        queue.messages[id].locked_by is Some ==> queue.deleted(client, id).waiting()
            == queue.waiting(),
{
    let after = queue.without(id);
    removing_keeps_wf(queue, id);
    assert(!queue.messages.contains_key(0));
    assert(!after.messages.contains_key(0));
    free_ids_without(queue.order, queue.messages, after.messages, id);
    queue.order.index_of_first_ensures(id);
    assert forall|i: int|
        #![trigger queue.order[i]]
        #![trigger after.order[i]]
        0 <= i < queue.order.len() implies {
        &&& model::is_free(after.messages, queue.order[i]) == model::is_free(
            after.messages,
            after.order[i],
        )
        &&& model::is_free(after.messages, queue.order[i]) ==> queue.order[i] == after.order[i]
    } by {}
    free_ids_agree(queue.order, after.messages, after.order, after.messages);
    trimming_keeps_free_ids(after.order, after.messages);
    free_ids_are_free(queue.order, queue.messages);
    queue.waiting().index_of_first_ensures(id);
}

/// Giving a lock back keeps a queue well formed.
pub proof fn releasing_keeps_wf(queue: QueueState, client: u128, id: u128)
    requires
        queue.wf(),
        queue.held(client).contains(id),
    ensures
        queue.released(client, id).wf(),
        queue.messages.contains_key(id),
{
    let after = queue.released(client, id);
    let held = queue.held(client);
    assert(queue.holds(client, id));
    assert forall|other: u128| #[trigger] after.messages.contains_key(other) implies other != 0
        && after.order.contains(other) by {
        assert(queue.messages.contains_key(other));
    }
    assert forall|i: int|
        #![trigger after.order[i]]
        0 <= i < after.order.len() && after.order[i] != 0 implies after.messages.contains_key(
        after.order[i],
    ) by {
        assert(queue.messages.contains_key(queue.order[i]));
    }
    dropping_from_distinct(held, id);
    assert forall|c: u128, other: u128| #[trigger]
        after.held(c).contains(other) <==> after.holds(c, other) by {
        assert(queue.held(c).contains(other) <==> queue.holds(c, other));
    }
    assert forall|c: u128| (#[trigger] after.held(c)).no_duplicates() by {
        assert(queue.held(c).no_duplicates());
    }
}

/// Replacing a payload keeps a queue well formed, and the same messages to be
/// delivered.
pub proof fn updating_keeps_wf(queue: QueueState, id: u128, payload: Seq<u8>)
    requires
        queue.wf(),
        queue.messages.contains_key(id),
    ensures
        queue.updated(id, payload).wf(),
        queue.updated(id, payload).waiting() == queue.waiting(),
{
    let after = queue.updated(id, payload);
    free_ids_agree(queue.order, queue.messages, after.order, after.messages);
    assert forall|other: u128| #[trigger] after.messages.contains_key(other) implies other != 0
        && after.order.contains(other) by {
        assert(queue.messages.contains_key(other));
    }
    assert forall|i: int|
        #![trigger after.order[i]]
        0 <= i < after.order.len() && after.order[i] != 0 implies after.messages.contains_key(
        after.order[i],
    ) by {
        assert(queue.messages.contains_key(queue.order[i]));
    }
    assert forall|c: u128, other: u128| #[trigger]
        after.held(c).contains(other) <==> after.holds(c, other) by {
        assert(queue.held(c).contains(other) <==> queue.holds(c, other));
    }
    assert forall|c: u128| (#[trigger] after.held(c)).no_duplicates() by {
        assert(queue.held(c).no_duplicates());
    }
}

/// Putting a size in its place keeps the order ascending.
pub proof fn with_size_ascends(biggest: Seq<usize>, size: usize)
    requires
        model::ascending(biggest),
    ensures
        model::ascending(model::with_size(biggest, size)),
{
    let after = model::with_size(biggest, size);
    assert forall|i: int, j: int| 0 <= i <= j < after.len() implies after[i] <= after[j] by {
        if i < j {
            assert(biggest[i] <= biggest[i + 1] <= biggest[j]);
        }
    }
}

/// It does not matter in which order two sizes are put in their places.
pub proof fn with_size_commutes(biggest: Seq<usize>, a: usize, b: usize)
    requires
        model::ascending(biggest),
    ensures
        model::with_size(model::with_size(biggest, a), b) == model::with_size(
            model::with_size(biggest, b),
            a,
        ),
{
    let left = model::with_size(model::with_size(biggest, a), b);
    let right = model::with_size(model::with_size(biggest, b), a);
    assert forall|i: int| 0 <= i < biggest.len() implies left[i] == right[i] by {
        if i + 1 < biggest.len() {
            assert(biggest[i] <= biggest[i + 1]);
            if i + 2 < biggest.len() {
                assert(biggest[i + 1] <= biggest[i + 2]);
            }
        }
    }
    assert(left =~= right);
}

/// The sizes of a map can be put in their places starting with any of them.
pub proof fn with_sizes_remove(biggest: Seq<usize>, sizes: Map<u128, usize>, id: u128)
    requires
        model::ascending(biggest),
        sizes.dom().finite(),
        sizes.contains_key(id),
    ensures
        model::with_sizes(biggest, sizes) == model::with_size(
            model::with_sizes(biggest, sizes.remove(id)),
            sizes[id],
        ),
    decreases sizes.dom().len(),
{
    let chosen = sizes.dom().choose();
    if chosen != id {
        with_sizes_remove(biggest, sizes.remove(chosen), id);
        with_sizes_remove(biggest, sizes.remove(id), chosen);
        let rest = sizes.remove(chosen).remove(id);
        assert(rest =~= sizes.remove(id).remove(chosen));
        with_sizes_ascends(biggest, rest);
        with_size_commutes(model::with_sizes(biggest, rest), sizes[id], sizes[chosen]);
    }
}

/// Putting many sizes in their places keeps the order ascending and the length.
pub proof fn with_sizes_ascends(biggest: Seq<usize>, sizes: Map<u128, usize>)
    requires
        model::ascending(biggest),
    ensures
        model::ascending(model::with_sizes(biggest, sizes)),
        model::with_sizes(biggest, sizes).len() == biggest.len(),
    decreases sizes.dom().len(),
{
    if sizes.dom().finite() && sizes.dom().len() > 0 {
        let id = sizes.dom().choose();
        with_sizes_ascends(biggest, sizes.remove(id));
        with_size_ascends(model::with_sizes(biggest, sizes.remove(id)), sizes[id]);
    }
}

/// Whatever room there is for a queue, it counts for no fewer bytes than the least room
/// does.
pub proof fn least_room_is_least(queue: QueueState, room: Room)
    requires
        room.covers(queue),
    ensures
        queue.least_room().covers(queue),
        queue.total_bytes(room) >= queue.total_bytes(queue.least_room()),
        queue.locked_bytes(room) >= queue.locked_bytes(queue.least_room()),
{
    let least = queue.least_room();
    assert(least.payloads.dom() =~= queue.messages.dom());
    assert(least.lists.dom() =~= queue.locks.dom());
    messages_grow_with_room(queue, room, queue.messages.dom());
    messages_grow_with_room(queue, room, queue.locked_ids());
    let f = |slots: nat| slots * 16;
    let few = least.lists.map_values(f);
    let many = room.lists.map_values(f);
    assert(few.dom() =~= many.dom());
    assert forall|client: u128| #[trigger] few.contains_key(client) implies few[client]
        <= many[client] by {
        assert(queue.locks.contains_key(client));
    }
    tally::map_sum_grows(few, many);
    assert(tally::word_size() == 4 || tally::word_size() == 8) by {
        assert(usize::BITS == 32 || usize::BITS == 64);
    }
    assert(least.locks * tally::word_size() <= room.locks * tally::word_size())
        by (nonlinear_arith)
        requires
            least.locks <= room.locks,
    ;
}

/// Messages count for no fewer bytes where there is more room for them.
proof fn messages_grow_with_room(queue: QueueState, room: Room, ids: Set<u128>)
    requires
        room.covers(queue),
        ids.subset_of(queue.messages.dom()),
    ensures
        room.message_bytes(ids) >= queue.least_room().message_bytes(ids),
{
    let least = queue.least_room();
    let few = Map::new(
        |id: u128| ids.contains(id),
        |id: u128| least.payloads[id] + MESSAGE_OVERHEAD as nat,
    );
    let many = Map::new(
        |id: u128| ids.contains(id),
        |id: u128| room.payloads[id] + MESSAGE_OVERHEAD as nat,
    );
    assert(few.dom() =~= many.dom());
    assert forall|id: u128| #[trigger] few.contains_key(id) implies few[id] <= many[id] by {
        assert(queue.messages.contains_key(id));
    }
    tally::map_sum_grows(few, many);
}

/// Noting payload sizes keeps a queue well formed.
pub proof fn sizing_keeps_wf(queue: QueueState)
    requires
        queue.wf(),
    ensures
        queue.sized().wf(),
{
    with_sizes_ascends(queue.biggest_payloads, model::payload_sizes(queue.messages));
    same_locks(queue, queue.sized());
}

/// Changing the configuration keeps a queue well formed.
pub proof fn configuring_keeps_wf(queue: QueueState, auto_fail: bool, fail_timeout: u64)
    ensures
        queue.wf() ==> (QueueState { auto_fail, fail_timeout, ..queue }).wf(),
{
    if queue.wf() {
        same_locks(queue, QueueState { auto_fail, fail_timeout, ..queue });
    }
}

} // verus!
