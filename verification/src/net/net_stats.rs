//! Statistics of queues, and the bytes that carry them.
//!
//! They travel as `[4 count]`, then for each queue `[4 entry length]` and the entry,
//! which is `[2 name length][name]` followed by four machine words: the messages, the
//! bytes, the locked messages and the locked bytes.
use vstd::prelude::*;

use crate::errors::ErrorCode;
use crate::net::model::{QueueState, Room};
use crate::net::queue::Queue;
use crate::tally;
use crate::wire;
use crate::wire::{push_all, push_be};

verus! {

/// The figures of one queue.
#[verifier::ext_equal]
pub struct StatState {
    pub queue_name: Seq<char>,
    pub total_messages: usize,
    pub total_bytes: usize,
    pub total_messages_locked: usize,
    pub total_bytes_locked: usize,
}

impl StatState {
    /// Whether these are figures of `queue`: its messages and locks are counted, and
    /// its bytes for some room that it was given, at least for the least.
    pub open spec fn tells(self, queue: QueueState) -> bool {
        &&& self.total_messages == queue.messages.dom().len()
        &&& self.total_messages_locked == tally::capped(queue.total_locks())
        &&& self.total_bytes >= tally::capped(queue.total_bytes(queue.least_room()))
        &&& exists|room: Room| #[trigger]
            room.covers(queue) && self.total_bytes == tally::capped(queue.total_bytes(room))
        &&& self.total_bytes_locked >= tally::capped(queue.locked_bytes(queue.least_room()))
        &&& exists|room: Room| #[trigger]
            room.covers(queue) && self.total_bytes_locked == tally::capped(
                queue.locked_bytes(room),
            )
    }

    /// The bytes of an entry. Of a name longer than 65535 bytes only the low two
    /// bytes of its length are told.
    pub open spec fn bytes(self) -> Seq<u8> {
        let name = vstd::utf8::encode_utf8(self.queue_name);
        wire::be_bytes(name.len(), 2) + name + wire::be_bytes(
            self.total_messages as nat,
            tally::word_size(),
        ) + wire::be_bytes(self.total_bytes as nat, tally::word_size()) + wire::be_bytes(
            self.total_messages_locked as nat,
            tally::word_size(),
        ) + wire::be_bytes(self.total_bytes_locked as nat, tally::word_size())
    }

    /// Whether the length of the name fits its field.
    pub open spec fn fits(self) -> bool {
        vstd::utf8::encode_utf8(self.queue_name).len() <= u16::MAX
    }

    /// Reads an entry.
    pub open spec fn read(bytes: Seq<u8>) -> Self {
        let end = 2 + wire::be_value(bytes.take(2)) as int;
        let word = tally::word_size() as int;
        StatState {
            queue_name: vstd::utf8::decode_utf8(bytes.subrange(2, end)),
            total_messages: wire::be_value(bytes.subrange(end, end + word)) as usize,
            total_bytes: wire::be_value(bytes.subrange(end + word, end + 2 * word)) as usize,
            total_messages_locked: wire::be_value(
                bytes.subrange(end + 2 * word, end + 3 * word),
            ) as usize,
            total_bytes_locked: wire::be_value(
                bytes.subrange(end + 3 * word, end + 4 * word),
            ) as usize,
        }
    }
}

/// Entries one after the other, each with its length in front.
pub open spec fn entries_bytes(stats: Seq<StatState>) -> Seq<u8>
    decreases stats.len(),
{
    if stats.len() == 0 {
        Seq::empty()
    } else {
        entries_bytes(stats.drop_last()) + wire::be_bytes(stats.last().bytes().len(), 4)
            + stats.last().bytes()
    }
}

/// The bytes of statistics: the number of entries and the entries.
pub open spec fn stats_bytes(stats: Seq<StatState>) -> Seq<u8> {
    wire::be_bytes(stats.len(), 4) + entries_bytes(stats)
}

/// Reads `count` entries.
pub open spec fn read_entries(bytes: Seq<u8>, count: nat) -> Seq<StatState>
    decreases count,
{
    if count == 0 {
        Seq::empty()
    } else {
        let end = 4 + wire::be_value(bytes.take(4)) as int;
        seq![StatState::read(bytes.subrange(4, end))] + read_entries(
            bytes.skip(end),
            (count - 1) as nat,
        )
    }
}

/// Reads statistics.
pub open spec fn read_stats(bytes: Seq<u8>) -> Seq<StatState> {
    read_entries(bytes.skip(4), wire::be_value(bytes.take(4)))
}

/// A machine word fits its field.
proof fn word_fits(value: usize)
    ensures
        wire::be_value(wire::be_bytes(value as nat, tally::word_size())) == value,
{
    wire::be_limit_values();
    assert(usize::BITS == 32 || usize::BITS == 64);
    assert(value < wire::be_limit(tally::word_size()));
    wire::be_value_of_be_bytes(value as nat, tally::word_size());
}

/// An entry is read back from its bytes.
pub proof fn entry_is_read_back(stat: StatState)
    requires
        stat.fits(),
    ensures
        StatState::read(stat.bytes()) == stat,
{
    broadcast use wire::be_bytes_len;

    let bytes = stat.bytes();
    let name = vstd::utf8::encode_utf8(stat.queue_name);
    let end = 2 + name.len() as int;
    let word = tally::word_size() as int;
    wire::be_limit_values();
    wire::be_value_of_be_bytes(name.len(), 2);
    word_fits(stat.total_messages);
    word_fits(stat.total_bytes);
    word_fits(stat.total_messages_locked);
    word_fits(stat.total_bytes_locked);
    vstd::utf8::encode_utf8_decode_utf8(stat.queue_name);
    assert(bytes.take(2) =~= wire::be_bytes(name.len(), 2));
    assert(bytes.subrange(2, end) =~= name);
    assert(bytes.subrange(end, end + word) =~= wire::be_bytes(
        stat.total_messages as nat,
        tally::word_size(),
    ));
    assert(bytes.subrange(end + word, end + 2 * word) =~= wire::be_bytes(
        stat.total_bytes as nat,
        tally::word_size(),
    ));
    assert(bytes.subrange(end + 2 * word, end + 3 * word) =~= wire::be_bytes(
        stat.total_messages_locked as nat,
        tally::word_size(),
    ));
    assert(bytes.subrange(end + 3 * word, end + 4 * word) =~= wire::be_bytes(
        stat.total_bytes_locked as nat,
        tally::word_size(),
    ));
}

/// An entry gives the length of the name, the name, and the four figures: the messages,
/// the bytes, the locked messages and the locked bytes, each a machine word.
pub proof fn entry_tells_the_figures(stat: StatState)
    ensures
        ({
            let bytes = stat.bytes();
            let name = vstd::utf8::encode_utf8(stat.queue_name);
            let end = 2 + name.len() as int;
            let word = tally::word_size() as int;
            &&& bytes.len() == end + 4 * word
            &&& stat.fits() ==> wire::be_value(bytes.take(2)) == name.len()
            &&& stat.fits() <==> name.len() <= 65535
            &&& bytes.subrange(2, end) == name
            &&& wire::be_value(bytes.subrange(end, end + word)) == stat.total_messages
            &&& wire::be_value(bytes.subrange(end + word, end + 2 * word)) == stat.total_bytes
            &&& wire::be_value(bytes.subrange(end + 2 * word, end + 3 * word))
                == stat.total_messages_locked
            &&& wire::be_value(bytes.subrange(end + 3 * word, end + 4 * word))
                == stat.total_bytes_locked
        }),
{
    broadcast use wire::be_bytes_len;

    let bytes = stat.bytes();
    let name = vstd::utf8::encode_utf8(stat.queue_name);
    let end = 2 + name.len() as int;
    let word = tally::word_size() as int;
    wire::be_limit_values();
    if stat.fits() {
        wire::be_value_of_be_bytes(name.len(), 2);
    }
    word_fits(stat.total_messages);
    word_fits(stat.total_bytes);
    word_fits(stat.total_messages_locked);
    word_fits(stat.total_bytes_locked);
    assert(bytes.take(2) =~= wire::be_bytes(name.len(), 2));
    assert(bytes.subrange(2, end) =~= name);
    assert(bytes.subrange(end, end + word) =~= wire::be_bytes(
        stat.total_messages as nat,
        tally::word_size(),
    ));
    assert(bytes.subrange(end + word, end + 2 * word) =~= wire::be_bytes(
        stat.total_bytes as nat,
        tally::word_size(),
    ));
    assert(bytes.subrange(end + 2 * word, end + 3 * word) =~= wire::be_bytes(
        stat.total_messages_locked as nat,
        tally::word_size(),
    ));
    assert(bytes.subrange(end + 3 * word, end + 4 * word) =~= wire::be_bytes(
        stat.total_bytes_locked as nat,
        tally::word_size(),
    ));
}

/// Statistics start with the number of entries; where there are some, the first comes
/// with its length in front, and what follows is what the others give.
pub proof fn statistics_list_the_entries(stats: Seq<StatState>)
    requires
        stats.len() <= u32::MAX,
        forall|i: int| 0 <= i < stats.len() ==> (#[trigger] stats[i]).bytes().len() <= u32::MAX,
    ensures
        ({
            let bytes = stats_bytes(stats);
            &&& bytes.len() >= 4
            &&& wire::be_value(bytes.take(4)) == stats.len()
            &&& stats.len() == 0 ==> bytes.len() == 4
            &&& stats.len() > 0 ==> {
                let end = 8 + stats[0].bytes().len() as int;
                &&& wire::be_value(bytes.subrange(4, 8)) == stats[0].bytes().len()
                &&& bytes.subrange(8, end) == stats[0].bytes()
                &&& bytes.skip(end) == stats_bytes(stats.drop_first()).skip(4)
            }
        }),
{
    broadcast use wire::be_bytes_len;

    let bytes = stats_bytes(stats);
    wire::be_limit_values();
    wire::be_value_of_be_bytes(stats.len(), 4);
    assert(bytes.take(4) =~= wire::be_bytes(stats.len(), 4));
    if stats.len() > 0 {
        let first = stats[0].bytes();
        entries_split(stats);
        wire::be_value_of_be_bytes(first.len(), 4);
        assert(bytes.subrange(4, 8) =~= wire::be_bytes(first.len(), 4));
        assert(bytes.subrange(8, 8 + first.len() as int) =~= first);
        assert(bytes.skip(8 + first.len() as int) =~= stats_bytes(stats.drop_first()).skip(4));
    }
}

/// The first of several entries can be split off.
proof fn entries_split(stats: Seq<StatState>)
    requires
        stats.len() > 0,
    ensures
        entries_bytes(stats) == wire::be_bytes(stats[0].bytes().len(), 4) + stats[0].bytes()
            + entries_bytes(stats.drop_first()),
    decreases stats.len(),
{
    let rest = stats.drop_first();
    let entry = wire::be_bytes(stats[0].bytes().len(), 4) + stats[0].bytes();
    if stats.len() == 1 {
        assert(stats.drop_last() =~= Seq::empty());
        assert(rest =~= Seq::empty());
        assert(entries_bytes(stats) =~= entry + entries_bytes(rest));
    } else {
        entries_split(stats.drop_last());
        assert(stats.drop_last().drop_first() =~= rest.drop_last());
        assert(entries_bytes(stats) =~= entry + entries_bytes(rest));
    }
}

/// Entries are read back from their bytes.
proof fn entries_are_read_back(stats: Seq<StatState>)
    requires
        forall|i: int| 0 <= i < stats.len() ==> (#[trigger] stats[i]).fits(),
    ensures
        read_entries(entries_bytes(stats), stats.len()) == stats,
    decreases stats.len(),
{
    broadcast use wire::be_bytes_len;

    if stats.len() > 0 {
        let rest = stats.drop_first();
        let first = stats[0];
        entries_split(stats);
        entries_are_read_back(rest);
        entry_is_read_back(first);
        wire::be_limit_values();
        wire::be_value_of_be_bytes(first.bytes().len(), 4);
        let bytes = entries_bytes(stats);
        let end = 4 + first.bytes().len() as int;
        assert(bytes.take(4) =~= wire::be_bytes(first.bytes().len(), 4));
        assert(bytes.subrange(4, end) =~= first.bytes());
        assert(bytes.skip(end) =~= entries_bytes(rest));
        assert(seq![first] + rest =~= stats);
    } else {
        assert(read_entries(entries_bytes(stats), 0) =~= stats);
    }
}

/// Statistics are read back from their bytes, as long as their number and the
/// lengths of the names fit their fields.
pub proof fn stats_are_read_back(stats: Seq<StatState>)
    requires
        stats.len() <= u32::MAX,
        forall|i: int| 0 <= i < stats.len() ==> (#[trigger] stats[i]).fits(),
    ensures
        read_stats(stats_bytes(stats)) == stats,
{
    broadcast use wire::be_bytes_len;

    let bytes = stats_bytes(stats);
    wire::be_limit_values();
    wire::be_value_of_be_bytes(stats.len(), 4);
    assert(bytes.take(4) =~= wire::be_bytes(stats.len(), 4));
    assert(bytes.skip(4) =~= entries_bytes(stats));
    entries_are_read_back(stats);
}

/// The figures of one queue.
#[derive(Debug, Clone)]
pub struct StatMessage {
    queue_name: String,
    total_messages: usize,
    total_bytes: usize,
    total_messages_locked: usize,
    total_bytes_locked: usize,
}

impl View for StatMessage {
    type V = StatState;

    closed spec fn view(&self) -> StatState {
        StatState {
            queue_name: self.queue_name@,
            total_messages: self.total_messages,
            total_bytes: self.total_bytes,
            total_messages_locked: self.total_messages_locked,
            total_bytes_locked: self.total_bytes_locked,
        }
    }
}

impl StatMessage {
    /// Figures made of their parts.
    pub fn new(
        queue_name: String,
        total_messages: usize,
        total_bytes: usize,
        total_messages_locked: usize,
        total_bytes_locked: usize,
    ) -> (stat: Self)
        ensures
            stat@ == (StatState {
                queue_name: queue_name@,
                total_messages,
                total_bytes,
                total_messages_locked,
                total_bytes_locked,
            }),
    {
        StatMessage {
            queue_name,
            total_messages,
            total_bytes,
            total_messages_locked,
            total_bytes_locked,
        }
    }

    /// The bytes of an entry.
    pub fn to_bytes(&self) -> (bytes: Vec<u8>)
        ensures
            bytes@ == self@.bytes(),
    {
        let mut bytes: Vec<u8> = Vec::new();
        let name = self.queue_name.as_str().as_bytes();
        let word: usize = tally::word_bytes();
        push_be(&mut bytes, name.len() as u128, 2);
        push_all(&mut bytes, name);
        push_be(&mut bytes, self.total_messages as u128, word);
        push_be(&mut bytes, self.total_bytes as u128, word);
        push_be(&mut bytes, self.total_messages_locked as u128, word);
        push_be(&mut bytes, self.total_bytes_locked as u128, word);
        assert(bytes@ =~= self@.bytes());
        bytes
    }
}

/// The figures of several queues.
#[derive(Debug, Clone)]
pub struct StatWatcher {
    stat_messages: Vec<StatMessage>,
}

impl View for StatWatcher {
    type V = Seq<StatState>;

    closed spec fn view(&self) -> Seq<StatState> {
        self.stat_messages@.map_values(|stat: StatMessage| stat@)
    }
}

impl StatWatcher {
    /// No figures yet.
    pub fn new() -> (watcher: Self)
        ensures
            watcher@ == Seq::<StatState>::empty(),
    {
        let watcher = StatWatcher { stat_messages: Vec::new() };
        assert(watcher@ =~= Seq::<StatState>::empty());
        watcher
    }

    /// Adds the figures of a queue.
    pub fn new_stat(&mut self, queue_name: String, queue: &Queue) -> (result: Result<(), ErrorCode>)
        ensures
            result is Ok,
            exists|stat: StatState| #[trigger]
                stat.tells(queue@) && stat.queue_name == queue_name@ && final(self)@ == old(
                    self,
                )@.push(stat),
    {
        let total_messages: usize = match queue.get_total_messages() {
            Ok(amount) => amount,
            Err(error) => {
                return Err(error);
            },
        };
        let total_bytes: usize = match queue.get_total_bytes() {
            Ok(amount) => amount,
            Err(error) => {
                return Err(error);
            },
        };
        let total_messages_locked: usize = match queue.get_total_messages_locked() {
            Ok(amount) => amount,
            Err(error) => {
                return Err(error);
            },
        };
        let total_bytes_locked: usize = match queue.get_total_bytes_locked() {
            Ok(amount) => amount,
            Err(error) => {
                return Err(error);
            },
        };
        let stat = StatMessage::new(
            queue_name,
            total_messages,
            total_bytes,
            total_messages_locked,
            total_bytes_locked,
        );
        self.stat_messages.push(stat);
        assert(stat@.tells(queue@));
        assert(self@ =~= old(self)@.push(stat@));
        Ok(())
    }

    /// The bytes of the figures.
    pub fn to_bytes(&self) -> (bytes: Vec<u8>)
        ensures
            bytes@ == stats_bytes(self@),
    {
        let mut bytes: Vec<u8> = Vec::new();
        push_be(&mut bytes, self.stat_messages.len() as u128, 4);
        let ghost count = bytes@;
        let mut i: usize = 0;
        assert(self@.take(0) =~= Seq::empty());
        assert(bytes@ =~= count + entries_bytes(self@.take(0)));
        while i < self.stat_messages.len()
            invariant
                i <= self.stat_messages@.len(),
                self@.len() == self.stat_messages@.len(),
                bytes@ == count + entries_bytes(self@.take(i as int)),
            decreases self.stat_messages@.len() - i,
        {
            let entry = self.stat_messages[i].to_bytes();
            push_be(&mut bytes, entry.len() as u128, 4);
            push_all(&mut bytes, entry.as_slice());
            assert(self@.take(i + 1).drop_last() =~= self@.take(i as int));
            assert(bytes@ =~= count + entries_bytes(self@.take(i + 1)));
            i = i + 1;
        }
        assert(self@.take(i as int) =~= self@);
        assert(bytes@ =~= stats_bytes(self@));
        bytes
    }
}

} // verus!
