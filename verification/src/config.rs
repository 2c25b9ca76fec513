//! The settings of the broker.
use vstd::prelude::*;

use crate::memory::allocator::ARENA_MAX;
use crate::outside;
use crate::outside::{find_matches, parse_u64, split};

verus! {

/// What a setting looks like: a name, `=`, and a value that is quoted or has no
/// space in it.
pub const SETTINGS_PATTERN: &'static str = r#"(\w+)\s*=\s*(?:"([^"]+)"|(\S+))"#;

/// The settings.
#[derive(Debug, Clone)]
pub struct Config {
    pub threads_limit: u64,
    pub proc_limit: u64,
    pub wait_limit: u64,
    pub server_addr: String,
    pub server_port: String,
    /// The queues that exist from the start.
    pub queue_names: Vec<String>,
    /// The size of the memory arena.
    pub memory_limit: u64,
}

/// A setting that can be wrong.
#[derive(Debug, Clone, Copy, PartialEq, Eq, Structural)]
pub enum Setting {
    ThreadsLimit,
    ProcLimit,
    WaitLimit,
    ServerAddr,
    ServerPort,
    MemoryLimit,
}

/// Why settings cannot be used.
#[derive(Debug, Clone, Copy, PartialEq, Eq, Structural)]
pub enum ConfigError {
    /// The text could not be searched for settings.
    Unreadable,
    /// The setting is not there.
    Missing(Setting),
    /// The setting is no number, or too large a one.
    InvalidNumber(Setting),
}

impl ConfigError {
    /// What to tell about this error.
    pub open spec fn text(self) -> Seq<char> {
        match self {
            ConfigError::Unreadable => "settings cannot be read"@,
            ConfigError::Missing(Setting::ThreadsLimit) => "missing THREADS_LIMIT"@,
            ConfigError::Missing(Setting::ProcLimit) => "missing PROC_LIMIT"@,
            ConfigError::Missing(Setting::WaitLimit) => "missing WAIT_LIMIT"@,
            ConfigError::Missing(Setting::ServerAddr) => "missing SERVER_ADDR"@,
            ConfigError::Missing(Setting::ServerPort) => "missing SERVER_PORT"@,
            ConfigError::Missing(Setting::MemoryLimit) => "missing MEMORY_LIMIT"@,
            ConfigError::InvalidNumber(Setting::ThreadsLimit) => "invalid number in THREADS_LIMIT"@,
            ConfigError::InvalidNumber(Setting::ProcLimit) => "invalid number in PROC_LIMIT"@,
            ConfigError::InvalidNumber(Setting::WaitLimit) => "invalid number in WAIT_LIMIT"@,
            ConfigError::InvalidNumber(Setting::ServerAddr) => "invalid number in SERVER_ADDR"@,
            ConfigError::InvalidNumber(Setting::ServerPort) => "invalid number in SERVER_PORT"@,
            ConfigError::InvalidNumber(Setting::MemoryLimit) => "invalid number in MEMORY_LIMIT"@,
        }
    }

    /// What to tell about this error.
    pub fn message(&self) -> (text: &'static str)
        ensures
            text@ == self.text(),
    {
        match self {
            ConfigError::Unreadable => "settings cannot be read",
            ConfigError::Missing(Setting::ThreadsLimit) => "missing THREADS_LIMIT",
            ConfigError::Missing(Setting::ProcLimit) => "missing PROC_LIMIT",
            ConfigError::Missing(Setting::WaitLimit) => "missing WAIT_LIMIT",
            ConfigError::Missing(Setting::ServerAddr) => "missing SERVER_ADDR",
            ConfigError::Missing(Setting::ServerPort) => "missing SERVER_PORT",
            ConfigError::Missing(Setting::MemoryLimit) => "missing MEMORY_LIMIT",
            ConfigError::InvalidNumber(Setting::ThreadsLimit) => "invalid number in THREADS_LIMIT",
            ConfigError::InvalidNumber(Setting::ProcLimit) => "invalid number in PROC_LIMIT",
            ConfigError::InvalidNumber(Setting::WaitLimit) => "invalid number in WAIT_LIMIT",
            ConfigError::InvalidNumber(Setting::ServerAddr) => "invalid number in SERVER_ADDR",
            ConfigError::InvalidNumber(Setting::ServerPort) => "invalid number in SERVER_PORT",
            ConfigError::InvalidNumber(Setting::MemoryLimit) => "invalid number in MEMORY_LIMIT",
        }
    }
}

/// The contents of the settings.
#[verifier::ext_equal]
pub struct ConfigState {
    pub threads_limit: u64,
    pub proc_limit: u64,
    pub wait_limit: u64,
    pub server_addr: Seq<char>,
    pub server_port: Seq<char>,
    pub queue_names: Seq<Seq<char>>,
    pub memory_limit: u64,
}

impl View for Config {
    type V = ConfigState;

    open spec fn view(&self) -> ConfigState {
        ConfigState {
            threads_limit: self.threads_limit,
            proc_limit: self.proc_limit,
            wait_limit: self.wait_limit,
            server_addr: self.server_addr@,
            server_port: self.server_port@,
            queue_names: outside::texts(self.queue_names@),
            memory_limit: self.memory_limit,
        }
    }
}

/// A name with a value.
#[derive(Debug, Clone)]
pub struct Pair {
    pub key: String,
    pub value: String,
}

impl View for Pair {
    type V = (Seq<char>, Seq<char>);

    open spec fn view(&self) -> (Seq<char>, Seq<char>) {
        (self.key@, self.value@)
    }
}

/// The contents of pairs.
pub open spec fn pair_texts(pairs: Seq<Pair>) -> Seq<(Seq<char>, Seq<char>)> {
    pairs.map_values(|pair: Pair| pair@)
}

/// The value that a name was given last.
pub open spec fn value_of(pairs: Seq<(Seq<char>, Seq<char>)>, key: Seq<char>) -> Option<Seq<char>>
    decreases pairs.len(),
{
    if pairs.len() == 0 {
        None
    } else if pairs.last().0 == key {
        Some(pairs.last().1)
    } else {
        value_of(pairs.drop_last(), key)
    }
}

/// The value that a name was given last.
pub fn lookup<'a>(pairs: &'a Vec<Pair>, key: &str) -> (value: Option<&'a String>)
    ensures
        match value_of(pair_texts(pairs@), key@) {
            Some(text) => value matches Some(found) && found@ == text,
            None => value is None,
        },
{
    let wanted = key.to_owned();
    let mut i: usize = pairs.len();
    assert(pair_texts(pairs@).take(i as int) =~= pair_texts(pairs@));
    while i > 0
        invariant
            i <= pairs@.len(),
            wanted@ == key@,
            value_of(pair_texts(pairs@), key@) == value_of(
                pair_texts(pairs@).take(i as int),
                key@,
            ),
        decreases i,
    {
        i = i - 1;
        assert(pair_texts(pairs@).take(i + 1).drop_last() =~= pair_texts(pairs@).take(i as int));
        if pairs[i].key.eq(&wanted) {
            return Some(&pairs[i].value);
        }
    }
    None
}

/// Whether a match names a setting and gives it a value, quoted or not.
pub open spec fn is_setting(groups: Seq<Option<Seq<char>>>) -> bool {
    groups.len() == 4 && groups[1] is Some && (groups[2] is Some || groups[3] is Some)
}

/// The name and the value in a match.
pub open spec fn setting_of(groups: Seq<Option<Seq<char>>>) -> (Seq<char>, Seq<char>) {
    (
        groups[1]->0,
        match groups[2] {
            Some(quoted) => quoted,
            None => groups[3]->0,
        },
    )
}

/// The parts that are not empty.
pub open spec fn filled(parts: Seq<Seq<char>>) -> Seq<Seq<char>>
    decreases parts.len(),
{
    if parts.len() == 0 {
        Seq::empty()
    } else if parts.last().len() == 0 {
        filled(parts.drop_last())
    } else {
        filled(parts.drop_last()).push(parts.last())
    }
}

/// The number that a setting gives.
pub open spec fn number_of(
    pairs: Seq<(Seq<char>, Seq<char>)>,
    key: Seq<char>,
    setting: Setting,
) -> Result<u64, ConfigError> {
    match value_of(pairs, key) {
        Some(text) => match outside::decimal(text) {
            Some(value) => if value <= u64::MAX {
                Ok(value as u64)
            } else {
                Err(ConfigError::InvalidNumber(setting))
            },
            None => Err(ConfigError::InvalidNumber(setting)),
        },
        None => Err(ConfigError::Missing(setting)),
    }
}

/// The names in a comma-separated list; none where there is no list.
pub open spec fn names_of(pairs: Seq<(Seq<char>, Seq<char>)>) -> Seq<Seq<char>> {
    match value_of(pairs, "QUEUE_NAMES"@) {
        Some(text) => filled(outside::parts_between(text, ',')),
        None => Seq::empty(),
    }
}

/// The size of the memory arena; the default one where none is given.
pub open spec fn memory_of(pairs: Seq<(Seq<char>, Seq<char>)>) -> Result<u64, ConfigError> {
    match value_of(pairs, "MEMORY_LIMIT"@) {
        Some(_) => number_of(pairs, "MEMORY_LIMIT"@, Setting::MemoryLimit),
        None => Ok(ARENA_MAX),
    }
}

/// The settings that pairs amount to, or the first thing that is wrong with them.
pub open spec fn config_of(pairs: Seq<(Seq<char>, Seq<char>)>) -> Result<ConfigState, ConfigError> {
    match number_of(pairs, "THREADS_LIMIT"@, Setting::ThreadsLimit) {
        Err(error) => Err(error),
        Ok(threads_limit) => match number_of(pairs, "PROC_LIMIT"@, Setting::ProcLimit) {
            Err(error) => Err(error),
            Ok(proc_limit) => match number_of(pairs, "WAIT_LIMIT"@, Setting::WaitLimit) {
                Err(error) => Err(error),
                Ok(wait_limit) => match value_of(pairs, "SERVER_ADDR"@) {
                    None => Err(ConfigError::Missing(Setting::ServerAddr)),
                    Some(server_addr) => match value_of(pairs, "SERVER_PORT"@) {
                        None => Err(ConfigError::Missing(Setting::ServerPort)),
                        Some(server_port) => match memory_of(pairs) {
                            Err(error) => Err(error),
                            Ok(memory_limit) => Ok(
                                ConfigState {
                                    threads_limit,
                                    proc_limit,
                                    wait_limit,
                                    server_addr,
                                    server_port,
                                    queue_names: names_of(pairs),
                                    memory_limit,
                                },
                            ),
                        },
                    },
                },
            },
        },
    }
}

/// Whether `result` is the settings that are expected, or the error.
pub open spec fn yields(
    result: Result<Config, ConfigError>,
    expected: Result<ConfigState, ConfigError>,
) -> bool {
    match expected {
        Ok(state) => result matches Ok(config) && config@ == state,
        Err(error) => result == Err::<Config, ConfigError>(error),
    }
}

/// The number that a setting gives.
fn read_number(pairs: &Vec<Pair>, key: &str, setting: Setting) -> (result: Result<u64, ConfigError>)
    ensures
        result == number_of(pair_texts(pairs@), key@, setting),
{
    match lookup(pairs, key) {
        Some(text) => match parse_u64(text.as_str()) {
            Some(value) => Ok(value),
            None => Err(ConfigError::InvalidNumber(setting)),
        },
        None => Err(ConfigError::Missing(setting)),
    }
}

/// The text that a setting gives.
fn read_text(pairs: &Vec<Pair>, key: &str, setting: Setting) -> (result: Result<
    String,
    ConfigError,
>)
    ensures
        match value_of(pair_texts(pairs@), key@) {
            Some(text) => result matches Ok(found) && found@ == text,
            None => result == Err::<String, ConfigError>(ConfigError::Missing(setting)),
        },
{
    match lookup(pairs, key) {
        Some(text) => Ok(text.clone()),
        None => Err(ConfigError::Missing(setting)),
    }
}

/// The names in a comma-separated list.
fn read_names(pairs: &Vec<Pair>) -> (names: Vec<String>)
    ensures
        outside::texts(names@) == names_of(pair_texts(pairs@)),
{
    let mut names: Vec<String> = Vec::new();
    let text = match lookup(pairs, "QUEUE_NAMES") {
        Some(text) => text,
        None => {
            assert(outside::texts(names@) =~= Seq::empty());
            return names;
        },
    };
    let parts = split(text.as_str(), ',');
    let ghost all = outside::texts(parts@);
    let mut i: usize = 0;
    assert(all.take(0) =~= Seq::empty());
    assert(outside::texts(names@) =~= Seq::empty());
    while i < parts.len()
        invariant
            i <= parts@.len(),
            all == outside::texts(parts@),
            outside::texts(names@) == filled(all.take(i as int)),
        decreases parts@.len() - i,
    {
        let part = &parts[i];
        let ghost before = outside::texts(names@);
        assert(all.take(i + 1).drop_last() =~= all.take(i as int));
        assert(all.take(i + 1).last() == part@);
        if !part.as_str().is_empty() {
            names.push(part.clone());
            assert(outside::texts(names@) =~= before.push(part@));
        }
        i = i + 1;
    }
    assert(all.take(i as int) =~= all);
    names
}

/// The settings that pairs amount to, or the first thing that is wrong with them.
pub fn config_from(pairs: &Vec<Pair>) -> (result: Result<Config, ConfigError>)
    ensures
        yields(result, config_of(pair_texts(pairs@))),
{
    let threads_limit: u64 = match read_number(pairs, "THREADS_LIMIT", Setting::ThreadsLimit) {
        Ok(value) => value,
        Err(error) => {
            return Err(error);
        },
    };
    let proc_limit: u64 = match read_number(pairs, "PROC_LIMIT", Setting::ProcLimit) {
        Ok(value) => value,
        Err(error) => {
            return Err(error);
        },
    };
    let wait_limit: u64 = match read_number(pairs, "WAIT_LIMIT", Setting::WaitLimit) {
        Ok(value) => value,
        Err(error) => {
            return Err(error);
        },
    };
    let server_addr = match read_text(pairs, "SERVER_ADDR", Setting::ServerAddr) {
        Ok(text) => text,
        Err(error) => {
            return Err(error);
        },
    };
    let server_port = match read_text(pairs, "SERVER_PORT", Setting::ServerPort) {
        Ok(text) => text,
        Err(error) => {
            return Err(error);
        },
    };
    let memory_limit: u64 = if lookup(pairs, "MEMORY_LIMIT").is_some() {
        match read_number(pairs, "MEMORY_LIMIT", Setting::MemoryLimit) {
            Ok(value) => value,
            Err(error) => {
                return Err(error);
            },
        }
    } else {
        ARENA_MAX
    };
    let queue_names = read_names(pairs);
    Ok(
        Config {
            threads_limit,
            proc_limit,
            wait_limit,
            server_addr,
            server_port,
            queue_names,
            memory_limit,
        },
    )
}

/// The pairs that matches of the settings pattern give.
pub open spec fn pairs_of(found: Seq<Seq<Option<Seq<char>>>>) -> Seq<(Seq<char>, Seq<char>)> {
    found.map_values(|groups: Seq<Option<Seq<char>>>| setting_of(groups))
}

/// Whether every match names a setting and gives it a value.
pub open spec fn all_settings(found: Seq<Seq<Option<Seq<char>>>>) -> bool {
    forall|i: int| 0 <= i < found.len() ==> is_setting(#[trigger] found[i])
}

/// The settings that matches of the settings pattern amount to.
pub open spec fn config_in(found: Option<Seq<Seq<Option<Seq<char>>>>>) -> Result<
    ConfigState,
    ConfigError,
> {
    match found {
        Some(list) => if all_settings(list) {
            config_of(pairs_of(list))
        } else {
            Err(ConfigError::Unreadable)
        },
        None => Err(ConfigError::Unreadable),
    }
}

/// The settings that matches of the settings pattern amount to.
pub fn config_from_matches(found: &Vec<Vec<Option<String>>>) -> (result: Result<
    Config,
    ConfigError,
>)
    ensures
        yields(result, config_in(Some(outside::match_texts(found@)))),
{
    let mut pairs: Vec<Pair> = Vec::with_capacity(found.len());
    let ghost list = outside::match_texts(found@);
    let mut i: usize = 0;
    while i < found.len()
        invariant
            i <= found@.len(),
            list == outside::match_texts(found@),
            forall|k: int| 0 <= k < i ==> is_setting(#[trigger] list[k]),
            pair_texts(pairs@) =~= pairs_of(list).take(i as int),
        decreases found@.len() - i,
    {
        let groups = &found[i];
        assert(list[i as int].len() == groups@.len());
        if groups.len() != 4 {
            assert(!is_setting(list[i as int]));
            return Err(ConfigError::Unreadable);
        }
        assert(list[i as int][1] == outside::group_text(groups@[1]));
        assert(list[i as int][2] == outside::group_text(groups@[2]));
        assert(list[i as int][3] == outside::group_text(groups@[3]));
        let key = match &groups[1] {
            Some(key) => key.clone(),
            None => {
                assert(!is_setting(list[i as int]));
                return Err(ConfigError::Unreadable);
            },
        };
        let value = match &groups[2] {
            Some(quoted) => quoted.clone(),
            None => match &groups[3] {
                Some(plain) => plain.clone(),
                None => {
                    assert(!is_setting(list[i as int]));
                    return Err(ConfigError::Unreadable);
                },
            },
        };
        pairs.push(Pair { key, value });
        assert(pairs@.last()@ == setting_of(list[i as int]));
        assert(pair_texts(pairs@) =~= pairs_of(list).take(i as int).push(
            setting_of(list[i as int]),
        ));
        i = i + 1;
    }
    assert(pair_texts(pairs@) =~= pairs_of(list));
    config_from(&pairs)
}

/// Reads the settings from the text of a settings file.
pub fn parse_config(text: &str) -> (result: Result<Config, ConfigError>)
    ensures
        yields(result, config_in(outside::regex_matches(SETTINGS_PATTERN@, text@))),
{
    match find_matches(SETTINGS_PATTERN, text) {
        Some(found) => config_from_matches(&found),
        None => Err(ConfigError::Unreadable),
    }
}

/// The last value that a name is given counts, and other names are not affected.
pub proof fn last_value_counts(
    pairs: Seq<(Seq<char>, Seq<char>)>,
    key: Seq<char>,
    value: Seq<char>,
    other: Seq<char>,
)
    requires
        other != key,
    ensures
        value_of(pairs.push((key, value)), key) == Some(value),
        value_of(pairs.push((key, value)), other) == value_of(pairs, other),
{
    assert(pairs.push((key, value)).drop_last() =~= pairs);
}

/// No queue has an empty name, however many commas there are; every other name in
/// the list is kept.
pub proof fn empty_names_are_dropped(parts: Seq<Seq<char>>)
    ensures
        forall|i: int|
            0 <= i < filled(parts).len() ==> (#[trigger] filled(parts)[i]).len() > 0
                && parts.contains(filled(parts)[i]),
        forall|i: int|
            0 <= i < parts.len() && (#[trigger] parts[i]).len() > 0 ==> filled(parts).contains(
                parts[i],
            ),
    decreases parts.len(),
{
    if parts.len() > 0 {
        let front = parts.drop_last();
        empty_names_are_dropped(front);
        assert forall|i: int| 0 <= i < filled(parts).len() implies (
        #[trigger] filled(parts)[i]).len() > 0 && parts.contains(filled(parts)[i]) by {
            if i < filled(front).len() {
                assert(filled(parts)[i] == filled(front)[i]);
                let k = front.index_of(filled(front)[i]);
                assert(parts[k] == filled(front)[i]);
            } else {
                assert(parts[parts.len() - 1] == filled(parts)[i]);
            }
        }
        assert forall|i: int|
            0 <= i < parts.len() && (#[trigger] parts[i]).len() > 0 implies filled(parts).contains(
            parts[i],
        ) by {
            if i < front.len() {
                assert(front[i] == parts[i]);
                let k = filled(front).index_of(front[i]);
                assert(filled(parts)[k] == parts[i]);
            } else {
                assert(filled(parts).last() == parts[i]);
            }
        }
    }
}

/// The value of a name is the one that it is given last; a name without a value is given
/// none at all.
pub proof fn value_is_given_last(pairs: Seq<(Seq<char>, Seq<char>)>, key: Seq<char>)
    ensures
        match value_of(pairs, key) {
            Some(value) => exists|i: int|
                {
                    &&& 0 <= i < pairs.len()
                    &&& #[trigger] pairs[i] == (key, value)
                    &&& forall|j: int| i < j < pairs.len() ==> (#[trigger] pairs[j]).0 != key
                },
            None => forall|i: int| 0 <= i < pairs.len() ==> (#[trigger] pairs[i]).0 != key,
        },
    decreases pairs.len(),
{
    if pairs.len() > 0 {
        let last = pairs.len() - 1;
        let front = pairs.drop_last();
        if pairs[last].0 == key {
            assert(pairs[last] == (key, pairs[last].1));
        } else {
            value_is_given_last(front, key);
            if let Some(value) = value_of(front, key) {
                let i = choose|i: int|
                    {
                        &&& 0 <= i < front.len()
                        &&& #[trigger] front[i] == (key, value)
                        &&& forall|j: int| i < j < front.len() ==> (#[trigger] front[j]).0 != key
                    };
                assert(pairs[i] == (key, value));
                assert forall|j: int| i < j < pairs.len() implies (#[trigger] pairs[j]).0 != key by {
                    if j < last {
                        assert(front[j].0 != key);
                    }
                }
            } else {
                assert forall|i: int| 0 <= i < pairs.len() implies (#[trigger] pairs[i]).0
                    != key by {
                    if i < last {
                        assert(front[i].0 != key);
                    }
                }
            }
        }
    }
}

/// Each setting is what its name was given: the limits as numbers, the address and the
/// port as they stand. Without a limit for the memory it is 8 GiB.
pub proof fn settings_are_what_was_given(pairs: Seq<(Seq<char>, Seq<char>)>, state: ConfigState)
    requires
        config_of(pairs) == Ok::<ConfigState, ConfigError>(state),
    ensures
        value_of(pairs, "THREADS_LIMIT"@) matches Some(text) && outside::decimal(text) == Some(
            state.threads_limit as nat,
        ),
        value_of(pairs, "PROC_LIMIT"@) matches Some(text) && outside::decimal(text) == Some(
            state.proc_limit as nat,
        ),
        value_of(pairs, "WAIT_LIMIT"@) matches Some(text) && outside::decimal(text) == Some(
            state.wait_limit as nat,
        ),
        value_of(pairs, "SERVER_ADDR"@) == Some(state.server_addr),
        value_of(pairs, "SERVER_PORT"@) == Some(state.server_port),
        value_of(pairs, "MEMORY_LIMIT"@) matches Some(text) ==> outside::decimal(text) == Some(
            state.memory_limit as nat,
        ),
        value_of(pairs, "MEMORY_LIMIT"@) is None ==> state.memory_limit == 8 * 1024 * 1024 * 1024,
        value_of(pairs, "QUEUE_NAMES"@) is None ==> state.queue_names.len() == 0,
{
}

/// Whether a text is a number that a limit can have.
pub open spec fn is_limit(text: Seq<char>) -> bool {
    outside::decimal(text) matches Some(value) && value < 0x1_0000_0000_0000_0000
}

/// Settings can be used exactly where all limits are numbers, the address and the port
/// are there, and the limit for the memory is a number or not there. What is told
/// otherwise is the first fault in this order: a setting that is missing, or one that is
/// no number.
pub proof fn first_fault_is_told(pairs: Seq<(Seq<char>, Seq<char>)>)
    ensures
        ({
            let threads = value_of(pairs, "THREADS_LIMIT"@);
            let proc = value_of(pairs, "PROC_LIMIT"@);
            let wait = value_of(pairs, "WAIT_LIMIT"@);
            let addr = value_of(pairs, "SERVER_ADDR"@);
            let port = value_of(pairs, "SERVER_PORT"@);
            let memory = value_of(pairs, "MEMORY_LIMIT"@);
            let result = config_of(pairs);
            let threads_fine = threads matches Some(text) && is_limit(text);
            let proc_fine = threads_fine && (proc matches Some(text) && is_limit(text));
            let wait_fine = proc_fine && (wait matches Some(text) && is_limit(text));
            let addr_fine = wait_fine && addr is Some;
            let port_fine = addr_fine && port is Some;
            let memory_fine = memory matches Some(text) ==> is_limit(text);
            &&& result is Ok <==> port_fine && memory_fine
            &&& result == Err::<ConfigState, ConfigError>(
                ConfigError::Missing(Setting::ThreadsLimit),
            ) <==> threads is None
            &&& result == Err::<ConfigState, ConfigError>(
                ConfigError::InvalidNumber(Setting::ThreadsLimit),
            ) <==> threads is Some && !threads_fine
            &&& result == Err::<ConfigState, ConfigError>(
                ConfigError::Missing(Setting::ProcLimit),
            ) <==> threads_fine && proc is None
            &&& result == Err::<ConfigState, ConfigError>(
                ConfigError::InvalidNumber(Setting::ProcLimit),
            ) <==> threads_fine && proc is Some && !proc_fine
            &&& result == Err::<ConfigState, ConfigError>(
                ConfigError::Missing(Setting::WaitLimit),
            ) <==> proc_fine && wait is None
            &&& result == Err::<ConfigState, ConfigError>(
                ConfigError::InvalidNumber(Setting::WaitLimit),
            ) <==> proc_fine && wait is Some && !wait_fine
            &&& result == Err::<ConfigState, ConfigError>(
                ConfigError::Missing(Setting::ServerAddr),
            ) <==> wait_fine && addr is None
            &&& result == Err::<ConfigState, ConfigError>(
                ConfigError::Missing(Setting::ServerPort),
            ) <==> addr_fine && port is None
            &&& result == Err::<ConfigState, ConfigError>(
                ConfigError::InvalidNumber(Setting::MemoryLimit),
            ) <==> port_fine && !memory_fine
        }),
{
}

/// Dropping empty parts leaves the others, in their order.
pub proof fn filled_parts_keep_their_order(parts: Seq<Seq<char>>)
    ensures
        filled(parts) == parts.filter(|part: Seq<char>| part.len() > 0),
    decreases parts.len(),
{
    reveal(Seq::filter);
    if parts.len() > 0 {
        filled_parts_keep_their_order(parts.drop_last());
    } else {
        assert(filled(parts) =~= parts.filter(|part: Seq<char>| part.len() > 0));
    }
}

/// Texts with a character between each two of them.
pub open spec fn joined(parts: Seq<Seq<char>>, c: char) -> Seq<char>
    decreases parts.len(),
{
    if parts.len() == 0 {
        Seq::empty()
    } else if parts.len() == 1 {
        parts[0]
    } else {
        parts[0] + seq![c] + joined(parts.drop_first(), c)
    }
}

/// Texts that were joined with a character that none of them holds are the parts
/// between its places.
pub proof fn joined_texts_are_the_parts(parts: Seq<Seq<char>>, c: char)
    requires
        parts.len() > 0,
        forall|i: int| 0 <= i < parts.len() ==> !(#[trigger] parts[i]).contains(c),
    ensures
        outside::parts_between(joined(parts, c), c) == parts,
    decreases parts.len(),
{
    let text = joined(parts, c);
    let first = parts[0];
    text.index_of_first_ensures(c);
    if parts.len() == 1 {
        assert(seq![text] =~= parts);
    } else {
        let rest = parts.drop_first();
        assert forall|i: int| 0 <= i < rest.len() implies !(#[trigger] rest[i]).contains(c) by {
            assert(!parts[i + 1].contains(c));
        }
        joined_texts_are_the_parts(rest, c);
        assert(text[first.len() as int] == c);
        assert(text.contains(c));
        let at = text.index_of_first(c)->0;
        if at < first.len() {
            assert(first[at] == c);
            assert(first.contains(c));
        }
        assert(at == first.len());
        assert(text.take(at) =~= first);
        assert(text.skip(at + 1) =~= joined(rest, c));
        assert(seq![first] + rest =~= parts);
    }
}

/// The queues that exist from the start are those whose names are listed, with a comma
/// between each two, in that order; empty names do not count.
pub proof fn listed_names_are_read(pairs: Seq<(Seq<char>, Seq<char>)>, names: Seq<Seq<char>>)
    requires
        names.len() > 0,
        forall|i: int| 0 <= i < names.len() ==> !(#[trigger] names[i]).contains(','),
        value_of(pairs, "QUEUE_NAMES"@) == Some(joined(names, ',')),
    ensures
        names_of(pairs) == names.filter(|name: Seq<char>| name.len() > 0),
        config_of(pairs) matches Ok(state) ==> state.queue_names == names.filter(
            |name: Seq<char>| name.len() > 0,
        ),
{
    joined_texts_are_the_parts(names, ',');
    filled_parts_keep_their_order(names);
}

/// The decimal digits of a number.
pub open spec fn digits_of(n: nat) -> Seq<char>
    decreases n,
{
    let digit = ('0' as nat + n % 10) as char;
    if n < 10 {
        seq![digit]
    } else {
        digits_of(n / 10).push(digit)
    }
}

/// A number is read back from its digits, with or without a plus in front and with
/// zeroes in front or not; what holds anything else is no number.
pub proof fn numbers_are_read_back(n: nat, text: Seq<char>, i: int)
    ensures
        outside::decimal(digits_of(n)) == Some(n),
        outside::decimal(seq!['+'] + digits_of(n)) == Some(n),
        outside::decimal(seq!['0'] + digits_of(n)) == Some(n),
        outside::decimal(Seq::empty()) is None,
        outside::decimal(seq!['+']) is None,
        0 < i < text.len() && !('0' <= text[i] <= '9') ==> outside::decimal(text) is None,
        text.len() > 0 && !('0' <= text[0] <= '9') && text[0] != '+' ==> outside::decimal(
            text,
        ) is None,
{
    digits_spell_the_number(n);
    let digits = digits_of(n);
    let plus = seq!['+'] + digits;
    let zero = seq!['0'] + digits;
    assert(plus.skip(1) =~= digits);
    leading_zero_adds_nothing(digits);
    assert forall|k: int| 0 <= k < zero.len() implies '0' <= #[trigger] zero[k] <= '9' by {
        if k > 0 {
            assert(digits[k - 1] == zero[k]);
        }
    }
    if text.len() > 0 && text[0] == '+' && 0 < i < text.len() {
        assert(text.skip(1)[i - 1] == text[i]);
    }
}

/// The digits of a number are digits, and spell it.
proof fn digits_spell_the_number(n: nat)
    ensures
        digits_of(n).len() > 0,
        outside::all_digits(digits_of(n)),
        outside::decimal_value(digits_of(n)) == n,
    decreases n,
{
    let digits = digits_of(n);
    if n >= 10 {
        digits_spell_the_number(n / 10);
        assert(digits.drop_last() =~= digits_of(n / 10));
        assert forall|k: int| 0 <= k < digits.len() implies '0' <= #[trigger] digits[k] <= '9' by {
            if k < digits.len() - 1 {
                assert(digits_of(n / 10)[k] == digits[k]);
            }
        }
    } else {
        assert(digits.drop_last() =~= Seq::empty());
        assert(outside::decimal_value(Seq::empty()) == 0);
    }
}

/// A zero in front does not change the number.
proof fn leading_zero_adds_nothing(digits: Seq<char>)
    ensures
        outside::decimal_value(seq!['0'] + digits) == outside::decimal_value(digits),
    decreases digits.len(),
{
    let longer = seq!['0'] + digits;
    if digits.len() > 0 {
        leading_zero_adds_nothing(digits.drop_last());
        assert(longer.drop_last() =~= seq!['0'] + digits.drop_last());
    } else {
        assert(longer.drop_last() =~= Seq::empty());
        assert(outside::decimal_value(Seq::empty()) == 0);
    }
}

/// A match gives a setting its name and its value: the quoted one where there is one,
/// else the other. One that lacks either, or has other groups, is no setting.
pub proof fn match_gives_name_and_value(
    groups: Seq<Option<Seq<char>>>,
    key: Seq<char>,
    value: Seq<char>,
)
    ensures
        is_setting(groups) && setting_of(groups) == (key, value) <==> {
            &&& groups.len() == 4
            &&& groups[1] == Some(key)
            &&& groups[2] == Some(value) || (groups[2] is None && groups[3] == Some(value))
        },
        is_setting(groups) ==> groups.len() == 4 && groups[1] is Some && !(groups[2] is None
            && groups[3] is None),
{
}

/// Settings are read from the matches in their order, one from each; where one of them
/// is no setting, or the text could not be searched, nothing can be read.
pub proof fn every_match_is_a_setting(
    found: Seq<Seq<Option<Seq<char>>>>,
    pairs: Seq<(Seq<char>, Seq<char>)>,
)
    requires
        pairs.len() == found.len(),
    ensures
        config_in(None) == Err::<ConfigState, ConfigError>(ConfigError::Unreadable),
        (exists|i: int| 0 <= i < found.len() && !is_setting(#[trigger] found[i])) ==> config_in(
            Some(found),
        ) == Err::<ConfigState, ConfigError>(ConfigError::Unreadable),
        (forall|i: int|
            0 <= i < found.len() ==> is_setting(#[trigger] found[i]) && setting_of(found[i])
                == pairs[i]) ==> config_in(Some(found)) == config_of(pairs),
{
    if forall|i: int|
        0 <= i < found.len() ==> is_setting(#[trigger] found[i]) && setting_of(found[i])
            == pairs[i] {
        assert(pairs_of(found) =~= pairs);
    }
}

/// The name of a setting in a settings file.
pub open spec fn key_of(setting: Setting) -> Seq<char> {
    match setting {
        Setting::ThreadsLimit => "THREADS_LIMIT"@,
        Setting::ProcLimit => "PROC_LIMIT"@,
        Setting::WaitLimit => "WAIT_LIMIT"@,
        Setting::ServerAddr => "SERVER_ADDR"@,
        Setting::ServerPort => "SERVER_PORT"@,
        Setting::MemoryLimit => "MEMORY_LIMIT"@,
    }
}

/// What is told of a fault ends in the name of the setting.
pub proof fn faults_name_the_setting(setting: Setting)
    ensures
        ConfigError::Missing(setting).text() == "missing "@ + key_of(setting),
        ConfigError::InvalidNumber(setting).text() == "invalid number in "@ + key_of(setting),
{
    reveal_strlit("missing ");
    reveal_strlit("invalid number in ");
    match setting {
        Setting::ThreadsLimit => {
            reveal_strlit("THREADS_LIMIT");
            reveal_strlit("missing THREADS_LIMIT");
            reveal_strlit("invalid number in THREADS_LIMIT");
        },
        Setting::ProcLimit => {
            reveal_strlit("PROC_LIMIT");
            reveal_strlit("missing PROC_LIMIT");
            reveal_strlit("invalid number in PROC_LIMIT");
        },
        Setting::WaitLimit => {
            reveal_strlit("WAIT_LIMIT");
            reveal_strlit("missing WAIT_LIMIT");
            reveal_strlit("invalid number in WAIT_LIMIT");
        },
        Setting::ServerAddr => {
            reveal_strlit("SERVER_ADDR");
            reveal_strlit("missing SERVER_ADDR");
            reveal_strlit("invalid number in SERVER_ADDR");
        },
        Setting::ServerPort => {
            reveal_strlit("SERVER_PORT");
            reveal_strlit("missing SERVER_PORT");
            reveal_strlit("invalid number in SERVER_PORT");
        },
        Setting::MemoryLimit => {
            reveal_strlit("MEMORY_LIMIT");
            reveal_strlit("missing MEMORY_LIMIT");
            reveal_strlit("invalid number in MEMORY_LIMIT");
        },
    }
    assert(ConfigError::Missing(setting).text() =~= "missing "@ + key_of(setting));
    assert(ConfigError::InvalidNumber(setting).text() =~= "invalid number in "@ + key_of(setting));
}

/// What is expected of settings is what they hold, field by field, and an error is the
/// one that is expected.
pub proof fn expected_settings_are_held(
    result: Result<Config, ConfigError>,
    expected: Result<ConfigState, ConfigError>,
)
    requires
        yields(result, expected),
    ensures
        result is Ok <==> expected is Ok,
        result matches Err(error) ==> expected == Err::<ConfigState, ConfigError>(error),
        result matches Ok(config) ==> {
            let state = expected->Ok_0;
            &&& config.threads_limit == state.threads_limit
            &&& config.proc_limit == state.proc_limit
            &&& config.wait_limit == state.wait_limit
            &&& config.server_addr@ == state.server_addr
            &&& config.server_port@ == state.server_port
            &&& config.memory_limit == state.memory_limit
            &&& config.queue_names@.len() == state.queue_names.len()
            &&& forall|i: int|
                0 <= i < config.queue_names@.len() ==> (#[trigger] config.queue_names@[i])@
                    == state.queue_names[i]
        },
{
    if let Ok(config) = result {
        assert forall|i: int| 0 <= i < config.queue_names@.len() implies (
        #[trigger] config.queue_names@[i])@ == expected->Ok_0.queue_names[i] by {
            assert(outside::texts(config.queue_names@)[i] == config.queue_names@[i]@);
        }
    }
}

} // verus!
