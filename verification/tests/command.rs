//! The command line.
use astral::command::{
    is_solidity_source, parse_count, read_command, split_flag, Command, DEFAULT_K, USAGE,
};

fn args(list: &[&str]) -> Vec<String> {
    list.iter().map(|a| a.to_string()).collect()
}

#[test]
fn commands_are_read() {
    assert!(matches!(read_command(&args(&["parse", "d"])), Command::Parse(dir) if dir == "d"));
    assert!(matches!(read_command(&args(&["ingest", "d"])), Command::Ingest(dir) if dir == "d"));
    assert!(matches!(read_command(&args(&["query", "t"])), Command::Query(t, DEFAULT_K) if t == "t"));
    assert!(matches!(read_command(&args(&["query", "t", "7"])), Command::Query(t, 7) if t == "t"));
    assert!(matches!(read_command(&args(&["query-json", "t"])), Command::QueryJson(t, 5) if t == "t"));
    assert!(matches!(read_command(&args(&["query-json", "t", "0"])), Command::QueryJson(t, 0) if t == "t"));
    assert!(
        matches!(read_command(&args(&["export-graph"])), Command::ExportGraph(out) if out == "astral_graph.json")
    );
    assert!(matches!(read_command(&args(&["export-graph", "o"])), Command::ExportGraph(out) if out == "o"));
}

#[test]
fn anything_else_asks_for_the_usage() {
    for list in [
        vec![],
        vec!["parse"],
        vec!["parse", "a", "b"],
        vec!["query"],
        vec!["query", "t", "1", "x"],
        vec!["export-graph", "a", "b"],
        vec!["help"],
    ] {
        assert!(matches!(read_command(&args(&list)), Command::Usage), "{list:?}");
    }
    assert!(USAGE.starts_with("usage:\n  astral parse"));
    assert!(USAGE.ends_with("skip them by default)"));
}

#[test]
fn counts_that_are_none_are_reported() {
    match read_command(&args(&["query", "t", "many"])) {
        Command::BadCount(message) => {
            assert_eq!(message, "k must be a positive integer, got `many`");
        }
        _ => panic!("the count was taken"),
    }
    assert!(matches!(read_command(&args(&["query-json", "t", "-1"])), Command::BadCount(_)));
}

#[test]
fn counts_are_read_as_the_standard_library_reads_them() {
    for text in [
        "0", "7", "+7", "007", "18446744073709551615", "18446744073709551616", "99999999999999999999",
        "", "+", "-1", "-0", "1.5", " 1", "1 ", "++1", "x", "٣", "1e3", "+18446744073709551615",
    ] {
        assert_eq!(parse_count(text), text.parse::<usize>().ok(), "{text:?}");
    }
    for n in [0usize, 9, 10, 12_345, usize::MAX] {
        assert_eq!(parse_count(&n.to_string()), Some(n));
    }
}

#[test]
fn the_flag_can_stand_anywhere() {
    let (rest, found) = split_flag(&args(&["query", "--include-mocks", "t", "--include-mocks"]));
    assert_eq!(rest, vec!["query", "t"]);
    assert!(found);
    let (rest, found) = split_flag(&args(&["query", "--include"]));
    assert_eq!(rest, vec!["query", "--include"]);
    assert!(!found);
}

#[test]
fn sources_are_known_by_their_extension() {
    assert!(is_solidity_source("Vault.sol"));
    assert!(is_solidity_source("Vault.t.sol"));
    assert!(is_solidity_source("..sol"));
    assert!(!is_solidity_source(".sol"));
    assert!(!is_solidity_source("sol"));
    assert!(!is_solidity_source("Vault.Sol"));
    assert!(!is_solidity_source("Vault.solx"));
    assert!(!is_solidity_source("Vaultsol"));
}
