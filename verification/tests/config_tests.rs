use broker::config::{
    config_from, config_from_matches, lookup, parse_config, ConfigError, Pair, Setting,
};
use broker::shutdown::{
    config_directory, drain_plan, parse_arguments, DrainPlan, InvalidTimeout, ShutdownReason,
    SignalStep,
};

const SETTINGS: &str = "\
THREADS_LIMIT = 4
PROC_LIMIT=2
WAIT_LIMIT   =   16
SERVER_ADDR = \"127.0.0.1\"
SERVER_PORT = 7000
QUEUE_NAMES = \"orders,,mail box,\"
MEMORY_LIMIT = 9000000000
";

fn pair(key: &str, value: &str) -> Pair {
    Pair { key: key.to_string(), value: value.to_string() }
}

fn complete() -> Vec<Pair> {
    vec![
        pair("THREADS_LIMIT", "1"),
        pair("PROC_LIMIT", "2"),
        pair("WAIT_LIMIT", "3"),
        pair("SERVER_ADDR", "localhost"),
        pair("SERVER_PORT", "80"),
    ]
}

#[test]
fn settings_are_read() {
    let config = parse_config(SETTINGS).unwrap();
    assert_eq!(config.threads_limit, 4);
    assert_eq!(config.proc_limit, 2);
    assert_eq!(config.wait_limit, 16);
    assert_eq!(config.server_addr, "127.0.0.1");
    assert_eq!(config.server_port, "7000");
    assert_eq!(config.queue_names, vec!["orders", "mail box"]);
    assert_eq!(config.memory_limit, 9_000_000_000);
}

#[test]
fn the_last_value_counts() {
    let text = format!("{SETTINGS}\nTHREADS_LIMIT=9\nnoise\n");
    assert_eq!(parse_config(&text).unwrap().threads_limit, 9);
    let pairs = vec![pair("a", "1"), pair("b", "2"), pair("a", "3")];
    assert_eq!(lookup(&pairs, "a").unwrap(), "3");
    assert_eq!(lookup(&pairs, "b").unwrap(), "2");
    assert!(lookup(&pairs, "c").is_none());
}

#[test]
fn optional_settings_have_defaults() {
    let config = config_from(&complete()).unwrap();
    assert!(config.queue_names.is_empty());
    assert_eq!(config.memory_limit, 8 * 1024 * 1024 * 1024);
}

#[test]
fn missing_settings_are_told_in_order() {
    assert_eq!(parse_config("").unwrap_err(), ConfigError::Missing(Setting::ThreadsLimit));
    let settings = [
        Setting::ThreadsLimit,
        Setting::ProcLimit,
        Setting::WaitLimit,
        Setting::ServerAddr,
        Setting::ServerPort,
    ];
    for (i, setting) in settings.iter().enumerate() {
        let mut pairs = complete();
        pairs.remove(i);
        assert_eq!(config_from(&pairs).unwrap_err(), ConfigError::Missing(*setting));
        pairs.truncate(i);
        assert_eq!(config_from(&pairs).unwrap_err(), ConfigError::Missing(*setting));
    }
    assert_eq!(ConfigError::Missing(Setting::ProcLimit).message(), "missing PROC_LIMIT");
}

#[test]
fn numbers_must_be_numbers() {
    for (i, setting) in
        [Setting::ThreadsLimit, Setting::ProcLimit, Setting::WaitLimit].iter().enumerate()
    {
        for text in ["", "x", "-1", " 1", "1 ", "1.0", "+", "18446744073709551616", "\u{0661}"] {
            let mut pairs = complete();
            pairs[i].value = text.to_string();
            assert_eq!(config_from(&pairs).unwrap_err(), ConfigError::InvalidNumber(*setting));
        }
    }
    let mut pairs = complete();
    pairs[0].value = "+0018446744073709551615".to_string();
    assert_eq!(config_from(&pairs).unwrap().threads_limit, u64::MAX);
    pairs.push(pair("MEMORY_LIMIT", "lots"));
    let error = config_from(&pairs).unwrap_err();
    assert_eq!(error, ConfigError::InvalidNumber(Setting::MemoryLimit));
    assert_eq!(error.message(), "invalid number in MEMORY_LIMIT");
}

#[test]
fn empty_queue_names_are_dropped() {
    for (text, names) in [
        (",", vec![]),
        ("", vec![]),
        (",a,", vec!["a"]),
        ("a,b", vec!["a", "b"]),
        ("a,,b", vec!["a", "b"]),
    ] {
        let mut pairs = complete();
        pairs.push(pair("QUEUE_NAMES", text));
        assert_eq!(config_from(&pairs).unwrap().queue_names, names);
    }
}

#[test]
fn matches_need_a_name_and_a_value() {
    let some = |text: &str| Some(text.to_string());
    let found = vec![vec![some("a=b"), some("a"), None, some("b")]];
    let missing = ConfigError::Missing(Setting::ThreadsLimit);
    assert_eq!(config_from_matches(&found).unwrap_err(), missing);
    for broken in [
        vec![some("a=b"), None, None, some("b")],
        vec![some("a=b"), some("a"), None, None],
        vec![some("a=b"), some("a"), some("b")],
    ] {
        assert_eq!(config_from_matches(&vec![broken]).unwrap_err(), ConfigError::Unreadable);
    }
}

#[test]
fn quoted_values_win() {
    let some = |text: &str| Some(text.to_string());
    let mut found: Vec<Vec<Option<String>>> = complete()
        .into_iter()
        .map(|pair| vec![some("match"), Some(pair.key), None, Some(pair.value)])
        .collect();
    found.push(vec![some("match"), some("SERVER_ADDR"), some("quoted"), some("plain")]);
    assert_eq!(config_from_matches(&found).unwrap().server_addr, "quoted");
}

fn arguments(list: &[&str]) -> Vec<Pair> {
    parse_arguments(&list.iter().map(|argument| argument.to_string()).collect())
}

#[test]
fn arguments_are_split_at_the_first_equals_sign() {
    let pairs = arguments(&["--config=/etc/a=b", "plain", "=x", "y="]);
    assert_eq!(pairs.len(), 3);
    assert_eq!((pairs[0].key.as_str(), pairs[0].value.as_str()), ("--config", "/etc/a=b"));
    assert_eq!((pairs[1].key.as_str(), pairs[1].value.as_str()), ("", "x"));
    assert_eq!((pairs[2].key.as_str(), pairs[2].value.as_str()), ("y", ""));
    assert_eq!(config_directory(&pairs).unwrap(), "/etc/a=b");
    assert!(config_directory(&arguments(&["--config"])).is_none());
}

#[test]
fn shutdown_waits_as_asked() {
    assert_eq!(drain_plan(&arguments(&[])), Ok(DrainPlan::Immediate));
    assert_eq!(drain_plan(&arguments(&["--shutdown_timeout=5"])), Ok(DrainPlan::WaitUpTo(5)));
    assert_eq!(drain_plan(&arguments(&["--shutdown_timeout=0"])), Ok(DrainPlan::WaitUpTo(30)));
    assert_eq!(drain_plan(&arguments(&["--shutdown_timeout=soon"])), Err(InvalidTimeout));
    assert_eq!(drain_plan(&arguments(&["--shutdown_timeout="])), Err(InvalidTimeout));
    assert_eq!(
        drain_plan(&arguments(&["--shutdown_timeout=1", "--shutdown_timeout=2"])),
        Ok(DrainPlan::WaitUpTo(2))
    );
}

#[test]
fn only_a_hangup_is_ignored() {
    assert_eq!(ShutdownReason::CtrlC.step(), SignalStep::ShutDown);
    assert_eq!(ShutdownReason::SigTerm.step(), SignalStep::ShutDown);
    assert_eq!(ShutdownReason::SigHup.step(), SignalStep::Ignore);
}
