//! The command line, and how the broker shuts down.
use vstd::prelude::*;

use crate::config;
use crate::config::{lookup, Pair};
use crate::outside;
use crate::outside::{parse_u64, split_once};

verus! {

/// How many seconds are waited for open connections where the limit given is zero.
pub const DEFAULT_DRAIN_SECONDS: u64 = 30;

/// The signals that the broker listens to.
#[derive(Debug, Clone, Copy, PartialEq, Eq, Structural)]
pub enum ShutdownReason {
    CtrlC,
    SigTerm,
    SigHup,
}

/// What to do about a signal.
#[derive(Debug, Clone, Copy, PartialEq, Eq, Structural)]
pub enum SignalStep {
    /// Shut down, then end.
    ShutDown,
    /// Wait for the next signal.
    Ignore,
}

impl ShutdownReason {
    /// What to do about this signal.
    pub fn step(&self) -> (step: SignalStep)
        ensures
            step == if *self == ShutdownReason::SigHup {
                SignalStep::Ignore
            } else {
                SignalStep::ShutDown
            },
    {
        match self {
            ShutdownReason::CtrlC => SignalStep::ShutDown,
            ShutdownReason::SigTerm => SignalStep::ShutDown,
            ShutdownReason::SigHup => SignalStep::Ignore,
        }
    }
}

/// How connections are ended once no more are accepted.
#[derive(Debug, Clone, Copy, PartialEq, Eq, Structural)]
pub enum DrainPlan {
    /// At once.
    Immediate,
    /// When all have ended by themselves, or after so many seconds.
    WaitUpTo(u64),
}

/// The option with this argument was given something that is no number.
#[derive(Debug, Clone, Copy, PartialEq, Eq, Structural)]
pub struct InvalidTimeout;

/// The pair in an argument: what stands before its first `=` and what stands behind.
pub open spec fn argument_pair(argument: Seq<char>) -> Option<(Seq<char>, Seq<char>)> {
    match argument.index_of_first('=') {
        Some(i) => Some((argument.take(i), argument.skip(i + 1))),
        None => None,
    }
}

/// The pairs in arguments; an argument without `=` has none.
pub open spec fn argument_pairs(arguments: Seq<Seq<char>>) -> Seq<(Seq<char>, Seq<char>)>
    decreases arguments.len(),
{
    if arguments.len() == 0 {
        Seq::empty()
    } else {
        let front = argument_pairs(arguments.drop_last());
        match argument_pair(arguments.last()) {
            Some(pair) => front.push(pair),
            None => front,
        }
    }
}

/// The pairs in arguments.
pub fn parse_arguments(arguments: &Vec<String>) -> (pairs: Vec<Pair>)
    ensures
        config::pair_texts(pairs@) == argument_pairs(outside::texts(arguments@)),
{
    let mut pairs: Vec<Pair> = Vec::new();
    let ghost all = outside::texts(arguments@);
    let mut i: usize = 0;
    assert(all.take(0) =~= Seq::empty());
    assert(config::pair_texts(pairs@) =~= Seq::empty());
    while i < arguments.len()
        invariant
            i <= arguments@.len(),
            all == outside::texts(arguments@),
            config::pair_texts(pairs@) == argument_pairs(all.take(i as int)),
        decreases arguments@.len() - i,
    {
        let ghost before = config::pair_texts(pairs@);
        assert(all.take(i + 1).drop_last() =~= all.take(i as int));
        assert(all.take(i + 1).last() == arguments@[i as int]@);
        if let Some((key, value)) = split_once(arguments[i].as_str(), '=') {
            pairs.push(Pair { key, value });
            assert(config::pair_texts(pairs@) =~= before.push((key@, value@)));
        }
        i = i + 1;
    }
    assert(all.take(i as int) =~= all);
    pairs
}

/// How connections are ended, as the arguments ask for it: at once, unless they give
/// a number of seconds to wait.
pub open spec fn drain_plan_of(pairs: Seq<(Seq<char>, Seq<char>)>) -> Result<
    DrainPlan,
    InvalidTimeout,
> {
    match config::value_of(pairs, "--shutdown_timeout"@) {
        None => Ok(DrainPlan::Immediate),
        Some(text) => match outside::decimal(text) {
            None => Err(InvalidTimeout),
            Some(seconds) => if seconds > u64::MAX {
                Err(InvalidTimeout)
            } else if seconds == 0 {
                Ok(DrainPlan::WaitUpTo(DEFAULT_DRAIN_SECONDS))
            } else {
                Ok(DrainPlan::WaitUpTo(seconds as u64))
            },
        },
    }
}

/// How connections are ended, as the arguments ask for it.
pub fn drain_plan(pairs: &Vec<Pair>) -> (plan: Result<DrainPlan, InvalidTimeout>)
    ensures
        plan == drain_plan_of(config::pair_texts(pairs@)),
{
    match lookup(pairs, "--shutdown_timeout") {
        None => Ok(DrainPlan::Immediate),
        Some(text) => match parse_u64(text.as_str()) {
            None => Err(InvalidTimeout),
            Some(seconds) => if seconds == 0 {
                Ok(DrainPlan::WaitUpTo(DEFAULT_DRAIN_SECONDS))
            } else {
                Ok(DrainPlan::WaitUpTo(seconds))
            },
        },
    }
}

/// The directory that the arguments give for the settings file, if they do.
pub fn config_directory<'a>(pairs: &'a Vec<Pair>) -> (directory: Option<&'a String>)
    ensures
        match config::value_of(config::pair_texts(pairs@), "--config"@) {
            Some(text) => directory matches Some(found) && found@ == text,
            None => directory is None,
        },
{
    lookup(pairs, "--config")
}

/// An argument is split at its first `=`, and the value may hold more of them; one
/// without `=` is no pair.
pub proof fn argument_is_split_at_the_first_sign(key: Seq<char>, value: Seq<char>)
    requires
        !key.contains('='),
    ensures
        argument_pair(key + seq!['='] + value) == Some((key, value)),
        argument_pair(key) is None,
{
    let argument = key + seq!['='] + value;
    argument.index_of_first_ensures('=');
    key.index_of_first_ensures('=');
    assert(argument[key.len() as int] == '=');
    assert(argument.contains('='));
    let at = argument.index_of_first('=')->0;
    if at < key.len() {
        assert(key[at] == '=');
        assert(key.contains('='));
    }
    assert(argument.take(at) =~= key);
    assert(argument.skip(at + 1) =~= value);
}

/// Each argument that is a pair adds that pair at the end, and the others add nothing.
pub proof fn arguments_are_read_in_order(
    arguments: Seq<Seq<char>>,
    key: Seq<char>,
    value: Seq<char>,
)
    requires
        !key.contains('='),
    ensures
        argument_pairs(Seq::empty()).len() == 0,
        argument_pairs(arguments.push(key + seq!['='] + value)) == argument_pairs(arguments).push(
            (key, value),
        ),
        argument_pairs(arguments.push(key)) == argument_pairs(arguments),
{
    argument_is_split_at_the_first_sign(key, value);
    assert(arguments.push(key + seq!['='] + value).drop_last() =~= arguments);
    assert(arguments.push(key).drop_last() =~= arguments);
}

/// Connections are ended at once unless a time to wait is given; then they are waited
/// for as many seconds as it says, or 30 where it says none.
pub proof fn connections_are_waited_for_as_asked(pairs: Seq<(Seq<char>, Seq<char>)>)
    ensures
        match config::value_of(pairs, "--shutdown_timeout"@) {
            None => drain_plan_of(pairs) == Ok::<DrainPlan, InvalidTimeout>(DrainPlan::Immediate),
            Some(text) => match drain_plan_of(pairs) {
                Ok(DrainPlan::Immediate) => false,
                Ok(DrainPlan::WaitUpTo(seconds)) => {
                    &&& seconds > 0
                    &&& outside::decimal(text) == Some(seconds as nat) || (seconds == 30
                        && outside::decimal(text) == Some(0nat))
                },
                Err(_) => outside::decimal(text) is None || outside::decimal(text)->0
                    >= 0x1_0000_0000_0000_0000,
            },
        },
{
}

} // verus!
