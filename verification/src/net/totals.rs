//! What the figures of a queue count.
use vstd::prelude::*;

use crate::net::guarantees;
use crate::net::laws;
use crate::net::model;
use crate::net::model::{MessageState, QueueState, Room};
use crate::net::net_stats::StatState;
use crate::tally;

verus! {

/// Each stored message has one payload size, the number of its bytes.
pub proof fn payload_sizes_are_lengths(messages: Map<u128, MessageState>, id: u128)
    requires
        messages.contains_key(id),
        messages[id].payload.len() <= usize::MAX,
    ensures
        model::payload_sizes(messages).dom() == messages.dom(),
        model::payload_sizes(messages)[id] == messages[id].payload.len(),
{
    assert(model::payload_sizes(messages).dom() =~= messages.dom());
}

/// Noting one size: what is noted is one of the old sizes or the new one, and what is
/// not noted is no bigger than all that is.
proof fn noting_one_size(biggest: Seq<usize>, size: usize)
    requires
        biggest.len() > 0,
        model::ascending(biggest),
    ensures
        ({
            let after = model::with_size(biggest, size);
            &&& after.len() == biggest.len()
            &&& biggest[0] <= after[0]
            &&& forall|i: int|
                0 <= i < after.len() ==> biggest.contains(#[trigger] after[i]) || after[i] == size
            &&& forall|old_size: usize| #[trigger]
                biggest.contains(old_size) ==> old_size <= after[0] || after.contains(old_size)
            &&& size <= after[0] || after.contains(size)
        }),
{
    broadcast use vstd::seq_lib::group_to_multiset_ensures;

    let after = model::with_size(biggest, size);
    guarantees::biggest_sizes_are_kept(biggest, size);
    let dropped = model::smaller(biggest[0], size);
    let all = biggest.push(size);
    assert(all.to_multiset() =~= biggest.to_multiset().insert(size));
    assert forall|i: int| 0 <= i < after.len() implies biggest.contains(#[trigger] after[i])
        || after[i] == size by {
        if after[i] != size {
            if after[i] != biggest[i] {
                assert(after[i] == biggest[i + 1]);
            }
        }
    }
    assert(dropped <= after[0]);
    assert forall|old_size: usize| #[trigger] biggest.contains(old_size) implies old_size
        <= after[0] || after.contains(old_size) by {
        if old_size != dropped {
            assert(biggest.to_multiset().contains(old_size));
            assert(after.to_multiset().count(old_size) > 0);
        }
    }
    if size != dropped {
        assert(all.to_multiset().count(size) > 0);
        assert(after.to_multiset().count(size) > 0);
    }
}

/// Noting many sizes: what is noted is one of the old sizes or of the new ones, and
/// what is not noted is no bigger than all that is.
proof fn noting_many_sizes(biggest: Seq<usize>, sizes: Map<u128, usize>)
    requires
        biggest.len() > 0,
        model::ascending(biggest),
        sizes.dom().finite(),
    ensures
        ({
            let after = model::with_sizes(biggest, sizes);
            &&& after.len() == biggest.len()
            &&& biggest[0] <= after[0]
            &&& forall|i: int|
                0 <= i < after.len() ==> biggest.contains(#[trigger] after[i]) || exists|id: u128|
                    sizes.contains_key(id) && #[trigger] sizes[id] == after[i]
            &&& forall|old_size: usize| #[trigger]
                biggest.contains(old_size) ==> old_size <= after[0] || after.contains(old_size)
            &&& forall|id: u128| #[trigger]
                sizes.contains_key(id) ==> sizes[id] <= after[0] || after.contains(sizes[id])
        }),
    decreases sizes.dom().len(),
{
    let after = model::with_sizes(biggest, sizes);
    if sizes.dom().len() > 0 {
        let chosen = sizes.dom().choose();
        let rest = sizes.remove(chosen);
        let before = model::with_sizes(biggest, rest);
        noting_many_sizes(biggest, rest);
        laws::with_sizes_ascends(biggest, rest);
        noting_one_size(before, sizes[chosen]);
        assert(after == model::with_size(before, sizes[chosen]));
        assert forall|i: int| 0 <= i < after.len() implies biggest.contains(#[trigger] after[i])
            || exists|id: u128| sizes.contains_key(id) && #[trigger] sizes[id] == after[i] by {
            if after[i] == sizes[chosen] {
                assert(sizes.contains_key(chosen));
            } else {
                let k = before.index_of(after[i]);
                assert(before.contains(after[i]));
                assert(before[k] == after[i]);
                if !biggest.contains(before[k]) {
                    let id = choose|id: u128|
                        rest.contains_key(id) && #[trigger] rest[id] == before[k];
                    assert(sizes.contains_key(id) && sizes[id] == after[i]);
                }
            }
        }
        assert forall|old_size: usize| #[trigger] biggest.contains(old_size) implies old_size
            <= after[0] || after.contains(old_size) by {
            if old_size > before[0] {
                assert(before.contains(old_size));
            }
        }
        assert forall|id: u128| #[trigger] sizes.contains_key(id) implies sizes[id] <= after[0]
            || after.contains(sizes[id]) by {
            if id != chosen {
                assert(rest.contains_key(id));
                if sizes[id] > before[0] {
                    assert(before.contains(sizes[id]));
                }
            }
        }
    }
}

/// Once the sizes were noted, each noted size is one noted before or that of a stored
/// payload, in ascending order; every size that is bigger than the smallest noted one
/// is noted; and nothing else about the queue changes.
pub proof fn noted_sizes_are_the_biggest(queue: QueueState)
    requires
        queue.wf(),
        forall|id: u128| #[trigger]
            queue.messages.contains_key(id) ==> queue.messages[id].payload.len() <= usize::MAX,
    ensures
        ({
            let after = queue.sized();
            let noted = after.biggest_payloads;
            &&& noted.len() == 5
            &&& noted[0] <= noted[1] <= noted[2] <= noted[3] <= noted[4]
            &&& forall|i: int|
                0 <= i < 5 ==> queue.biggest_payloads.contains(#[trigger] noted[i]) || exists|
                    id: u128,
                |
                    queue.messages.contains_key(id) && (#[trigger] queue.messages[id]).payload.len()
                        == noted[i]
            &&& forall|size: usize| #[trigger]
                queue.biggest_payloads.contains(size) ==> size <= noted[0] || noted.contains(size)
            &&& forall|id: u128| #[trigger]
                queue.messages.contains_key(id) ==> queue.messages[id].payload.len() <= noted[0]
                    || noted.contains(queue.messages[id].payload.len() as usize)
            &&& after.messages == queue.messages
            &&& after.locks == queue.locks
            &&& after.order == queue.order
            &&& after.next_id == queue.next_id
            &&& after.last_id == queue.last_id
            &&& after.wrapped == queue.wrapped
            &&& after.auto_fail == queue.auto_fail
            &&& after.fail_timeout == queue.fail_timeout
        }),
{
    let sizes = model::payload_sizes(queue.messages);
    let noted = queue.sized().biggest_payloads;
    assert(sizes.dom() =~= queue.messages.dom());
    noting_many_sizes(queue.biggest_payloads, sizes);
    laws::with_sizes_ascends(queue.biggest_payloads, sizes);
    assert forall|i: int| 0 <= i < 5 implies queue.biggest_payloads.contains(#[trigger] noted[i])
        || exists|id: u128|
        queue.messages.contains_key(id) && (#[trigger] queue.messages[id]).payload.len()
            == noted[i] by {
        if !queue.biggest_payloads.contains(noted[i]) {
            let id = choose|id: u128| sizes.contains_key(id) && #[trigger] sizes[id] == noted[i];
            assert(queue.messages.contains_key(id));
            assert(queue.messages[id].payload.len() == noted[i]);
        }
    }
    assert forall|id: u128| #[trigger] queue.messages.contains_key(
        id,
    ) implies queue.messages[id].payload.len() <= noted[0] || noted.contains(
        queue.messages[id].payload.len() as usize,
    ) by {
        assert(sizes.contains_key(id));
    }
}

/// Lists without repetitions that share nothing have as many entries as ids occur in
/// them.
proof fn entries_are_counted(locks: Map<u128, Seq<u128>>, ids: Set<u128>)
    requires
        locks.dom().finite(),
        forall|client: u128| #[trigger]
            locks.contains_key(client) ==> locks[client].no_duplicates(),
        forall|one: u128, other: u128, id: u128|
            locks.contains_key(one) && locks.contains_key(other)
                && #[trigger] locks[one].contains(id) && #[trigger] locks[other].contains(id)
                ==> one == other,
        forall|id: u128| #[trigger]
            ids.contains(id) <==> exists|client: u128|
                locks.contains_key(client) && #[trigger] locks[client].contains(id),
    ensures
        ids.finite(),
        tally::map_sum(locks.map_values(|list: Seq<u128>| list.len())) == ids.len(),
    decreases locks.dom().len(),
{
    let f = |list: Seq<u128>| list.len();
    let counts = locks.map_values(f);
    assert(counts.dom() =~= locks.dom());
    if locks.dom().len() == 0 {
        assert(ids =~= Set::empty()) by {
            assert forall|id: u128| !ids.contains(id) by {
                if ids.contains(id) {
                    let client = choose|client: u128|
                        locks.contains_key(client) && #[trigger] locks[client].contains(id);
                    assert(locks.dom().contains(client));
                }
            }
        }
    } else {
        let client = locks.dom().choose();
        let list = locks[client];
        let rest = locks.remove(client);
        let fewer = ids.difference(list.to_set());
        assert(locks.contains_key(client));
        assert forall|one: u128, other: u128, id: u128|
            rest.contains_key(one) && rest.contains_key(other) && #[trigger] rest[one].contains(id)
                && #[trigger] rest[other].contains(id) implies one == other by {
            assert(locks[one].contains(id) && locks[other].contains(id));
        }
        assert forall|id: u128| #[trigger] fewer.contains(id) <==> exists|c: u128|
            rest.contains_key(c) && #[trigger] rest[c].contains(id) by {
            if fewer.contains(id) {
                let c = choose|c: u128| locks.contains_key(c) && #[trigger] locks[c].contains(id);
                assert(rest.contains_key(c) && rest[c].contains(id));
            }
            if exists|c: u128| rest.contains_key(c) && #[trigger] rest[c].contains(id) {
                let c = choose|c: u128| rest.contains_key(c) && #[trigger] rest[c].contains(id);
                assert(locks.contains_key(c) && locks[c].contains(id));
                assert(!list.contains(id));
            }
        }
        entries_are_counted(rest, fewer);
        vstd::seq_lib::seq_to_set_is_finite(list);
        list.unique_seq_to_set();
        assert forall|id: u128| list.contains(id) implies ids.contains(id) by {
            assert(locks.contains_key(client) && locks[client].contains(id));
        }
        assert(ids =~= fewer.union(list.to_set()));
        assert(fewer.disjoint(list.to_set()));
        vstd::set_lib::lemma_set_disjoint_lens(fewer, list.to_set());
        tally::map_sum_remove(counts, client);
        assert(counts.remove(client) =~= rest.map_values(f));
    }
}

/// The locks of a queue are as many as the messages that somebody holds.
pub proof fn locks_are_held_messages(queue: QueueState)
    requires
        queue.wf(),
    ensures
        queue.total_locks() == queue.messages.dom().filter(
            |id: u128| queue.messages[id].locked_by is Some,
        ).len(),
        forall|id: u128| #[trigger]
            queue.locked_ids().contains(id) <==> queue.messages.contains_key(id)
                && queue.messages[id].locked_by is Some,
        queue.locked_ids().len() == queue.total_locks(),
{
    let ids = queue.messages.dom().filter(|id: u128| queue.messages[id].locked_by is Some);
    assert forall|client: u128| #[trigger] queue.locks.contains_key(
        client,
    ) implies queue.locks[client].no_duplicates() by {
        assert(queue.held(client).no_duplicates());
    }
    assert forall|one: u128, other: u128, id: u128|
        queue.locks.contains_key(one) && queue.locks.contains_key(other)
            && #[trigger] queue.locks[one].contains(id) && #[trigger] queue.locks[other].contains(
            id,
        ) implies one == other by {
        assert(queue.held(one).contains(id) <==> queue.holds(one, id));
        assert(queue.held(other).contains(id) <==> queue.holds(other, id));
    }
    assert forall|id: u128| #[trigger] ids.contains(id) <==> exists|client: u128|
        queue.locks.contains_key(client) && #[trigger] queue.locks[client].contains(id) by {
        if ids.contains(id) {
            let client = queue.messages[id].locked_by->0;
            assert(queue.held(client).contains(id) <==> queue.holds(client, id));
            assert(queue.locks.contains_key(client) && queue.locks[client].contains(id));
        }
        if exists|client: u128|
            queue.locks.contains_key(client) && #[trigger] queue.locks[client].contains(id) {
            let client = choose|client: u128|
                queue.locks.contains_key(client) && #[trigger] queue.locks[client].contains(id);
            assert(queue.held(client).contains(id) <==> queue.holds(client, id));
        }
    }
    entries_are_counted(queue.locks, ids);
    assert(queue.locked_ids() =~= ids);
}

/// Adding the same to every value adds it once for each entry.
proof fn sum_of_raised(values: Map<u128, nat>, raised: Map<u128, nat>, extra: nat)
    requires
        values.dom().finite(),
        raised.dom() == values.dom(),
        forall|key: u128| #[trigger] values.contains_key(key) ==> raised[key] == values[key] + extra,
    ensures
        tally::map_sum(raised) == tally::map_sum(values) + values.dom().len() * extra,
    decreases values.dom().len(),
{
    if values.dom().len() > 0 {
        let key = values.dom().choose();
        assert(values.contains_key(key));
        assert(raised.remove(key).dom() =~= values.remove(key).dom());
        sum_of_raised(values.remove(key), raised.remove(key), extra);
        tally::map_sum_remove(raised, key);
        tally::map_sum_remove(values, key);
        let count = values.remove(key).dom().len();
        assert(values.dom().len() == count + 1);
        assert((count + 1) * extra == count * extra + extra) by (nonlinear_arith);
    } else {
        assert(0 * extra == 0);
    }
}

/// Scaling every value scales the sum.
proof fn sum_of_scaled(values: Map<u128, nat>, scaled: Map<u128, nat>)
    requires
        values.dom().finite(),
        scaled.dom() == values.dom(),
        forall|key: u128| #[trigger] values.contains_key(key) ==> scaled[key] == values[key] * 16,
    ensures
        tally::map_sum(scaled) == tally::map_sum(values) * 16,
    decreases values.dom().len(),
{
    if values.dom().len() > 0 {
        let key = values.dom().choose();
        assert(values.contains_key(key));
        assert(scaled.remove(key).dom() =~= values.remove(key).dom());
        sum_of_scaled(values.remove(key), scaled.remove(key));
        tally::map_sum_remove(scaled, key);
        tally::map_sum_remove(values, key);
    }
}

/// A machine word is four bytes wide or eight.
pub proof fn word_is_four_or_eight_bytes()
    ensures
        usize::MAX == 0xffff_ffff ==> tally::word_size() == 4,
        usize::MAX == 0xffff_ffff_ffff_ffff ==> tally::word_size() == 8,
        tally::word_size() == 4 || tally::word_size() == 8,
{
    assert(usize::BITS == 32 || usize::BITS == 64);
}

/// What a queue counts for: 16 bytes for each place of its order; 20 for each place of
/// its message table; for each message its payload and 56 bytes; for each place of its
/// lock table 20 bytes and a machine word; and 16 for each place of a list of locks.
pub proof fn bytes_of_a_queue(queue: QueueState, room: Room)
    requires
        queue.wf(),
        room.covers(queue),
    ensures
        queue.total_bytes(room) == 16 * room.order + 20 * room.messages + tally::map_sum(
            room.payloads,
        ) + 56 * queue.messages.dom().len() + (20 + tally::word_size()) * room.locks + 16
            * tally::map_sum(room.lists),
{
    let raised = Map::new(
        |id: u128| queue.messages.dom().contains(id),
        |id: u128| room.payloads[id] + 56 as nat,
    );
    assert(raised.dom() =~= room.payloads.dom());
    sum_of_raised(room.payloads, raised, 56);
    assert(raised =~= Map::new(
        |id: u128| queue.messages.dom().contains(id),
        |id: u128| room.payloads[id] + model::MESSAGE_OVERHEAD as nat,
    ));
    bytes_of_lists(room, queue.locks.dom());
    assert((20 + tally::word_size()) * room.locks == room.locks * 20 + room.locks
        * tally::word_size()) by (nonlinear_arith);
}

/// A list of locks counts for 16 bytes for each of its places.
proof fn bytes_of_lists(room: Room, clients: Set<u128>)
    requires
        room.lists.dom() == clients,
        clients.finite(),
    ensures
        room.lock_bytes() == room.locks * 20 + room.locks * tally::word_size() + tally::map_sum(
            room.lists,
        ) * 16,
{
    let scaled = room.lists.map_values(|slots: nat| slots * 16);
    assert(scaled.dom() =~= room.lists.dom());
    sum_of_scaled(room.lists, scaled);
}

/// What the locked messages of a queue count for: for each of them 20 bytes, its payload
/// and 56 bytes; and the whole lock table.
pub proof fn bytes_of_locked_messages(queue: QueueState, room: Room)
    requires
        queue.wf(),
        room.covers(queue),
    ensures
        queue.locked_bytes(room) == 76 * queue.total_locks() + tally::map_sum(
            room.payloads.restrict(
                Set::new(
                    |id: u128|
                        queue.messages.contains_key(id) && queue.messages[id].locked_by is Some,
                ),
            ),
        ) + (20 + tally::word_size()) * room.locks + 16 * tally::map_sum(room.lists),
{
    let held = Set::new(
        |id: u128| queue.messages.contains_key(id) && queue.messages[id].locked_by is Some,
    );
    let ids = queue.locked_ids();
    let payloads = room.payloads.restrict(held);
    locks_are_held_messages(queue);
    let raised = Map::new(|id: u128| ids.contains(id), |id: u128| room.payloads[id] + 56 as nat);
    assert(payloads.dom() =~= ids);
    assert(raised.dom() =~= payloads.dom());
    sum_of_raised(payloads, raised, 56);
    assert(raised =~= Map::new(
        |id: u128| ids.contains(id),
        |id: u128| room.payloads[id] + model::MESSAGE_OVERHEAD as nat,
    ));
    bytes_of_lists(room, queue.locks.dom());
    assert((20 + tally::word_size()) * room.locks == room.locks * 20 + room.locks
        * tally::word_size()) by (nonlinear_arith);
}

/// A sum over nothing is nothing.
pub proof fn sum_of_nothing()
    ensures
        tally::map_sum(Map::<u128, nat>::empty()) == 0,
{
}

/// The figures of a queue are the number of its messages, the number of those that
/// somebody holds, and bytes for at least what is stored, up to the largest number.
pub proof fn figures_tell_what_is_stored(stat: StatState, queue: QueueState)
    requires
        queue.wf(),
        stat.tells(queue),
    ensures
        stat.total_messages == queue.messages.dom().len(),
        stat.total_messages_locked == queue.messages.dom().filter(
            |id: u128| queue.messages[id].locked_by is Some,
        ).len(),
        stat.total_bytes == usize::MAX || stat.total_bytes >= 16 * queue.order.len() + 76
            * queue.messages.dom().len() + tally::map_sum(
            queue.messages.map_values(|message: MessageState| message.payload.len()),
        ) + (20 + tally::word_size()) * queue.locks.dom().len() + 16 * queue.total_locks(),
        stat.total_bytes_locked == usize::MAX || stat.total_bytes_locked >= 92
            * queue.total_locks() + (20 + tally::word_size()) * queue.locks.dom().len(),
{
    let least = queue.least_room();
    let room = choose|room: Room| #[trigger]
        room.covers(queue) && stat.total_bytes == tally::capped(queue.total_bytes(room));
    laws::least_room_is_least(queue, room);
    bytes_of_a_queue(queue, least);
    bytes_of_locked_messages(queue, least);
    locks_are_held_messages(queue);
    assert(queue.locked_ids().subset_of(queue.messages.dom()));
    vstd::set_lib::lemma_len_subset(queue.locked_ids(), queue.messages.dom());
}

} // verus!
