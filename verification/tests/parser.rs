//! Extraction of definitions from Solidity sources.
use astral::parser::{
    fallback_or_receive_name, match_node, DefinitionKind, FunctionChunk, SolidityParser,
};

const SAMPLE: &str = r#"
// SPDX-License-Identifier: MIT
pragma solidity ^0.8.20;

interface IERC20 {
    function transfer(address to, uint256 amount) external returns (bool);
}

contract LiquidityPool {
    IERC20 public token;
    uint256 public totalShares;
    mapping(address => uint256) public shares;
    bool private initialized;

    modifier onlyInitialized() {
        require(initialized, "not initialized");
        _;
    }

    constructor(address _token) {
        token = IERC20(_token);
    }

    function initialize(uint256 initialShares) external {
        initialized = true;
        totalShares = initialShares;
        shares[msg.sender] = initialShares;
    }

    function withdraw(uint256 amount) external onlyInitialized {
        shares[msg.sender] -= amount;
        totalShares -= amount;
        token.transfer(msg.sender, amount);
    }

    receive() external payable {}
}
"#;

fn parse(source: &str, path: &str) -> Vec<FunctionChunk> {
    SolidityParser::new()
        .expect("grammar must load")
        .parse_source(source, path)
        .expect("sample must parse")
}

fn parse_sample() -> Vec<FunctionChunk> {
    parse(SAMPLE, "LiquidityPool.sol")
}

#[test]
fn extracts_all_function_like_definitions() {
    let chunks = parse_sample();
    let names: Vec<(&str, &str)> = chunks
        .iter()
        .map(|c| (c.contract_name.as_str(), c.function_name.as_str()))
        .collect();
    assert_eq!(
        names,
        vec![
            ("IERC20", "transfer"),
            ("LiquidityPool", "onlyInitialized"),
            ("LiquidityPool", "constructor"),
            ("LiquidityPool", "initialize"),
            ("LiquidityPool", "withdraw"),
            ("LiquidityPool", "receive"),
        ]
    );
}

#[test]
fn tracks_state_reads_writes_and_external_calls() {
    let chunks = parse_sample();
    let withdraw = chunks
        .iter()
        .find(|c| c.function_name == "withdraw")
        .expect("withdraw chunk");
    assert_eq!(
        withdraw.referenced_symbols,
        vec![
            "onlyInitialized",
            "shares",
            "token",
            "token.transfer",
            "totalShares"
        ]
    );
    assert_eq!(withdraw.kind, DefinitionKind::Function);
    assert!(withdraw.code_content.starts_with("function withdraw"));
}

#[test]
fn records_line_provenance() {
    let chunks = parse_sample();
    let ctor = chunks
        .iter()
        .find(|c| c.function_name == "constructor")
        .expect("constructor chunk");
    assert!(ctor.start_line > 1 && ctor.end_line >= ctor.start_line);
}

#[test]
fn lines_are_counted_from_one() {
    let chunks = parse("contract A {\n  function f() public {\n  }\n}\n", "A.sol");
    assert_eq!(chunks.len(), 1);
    assert_eq!((chunks[0].start_line, chunks[0].end_line), (2, 3));
    assert_eq!(chunks[0].file_path, "A.sol");
    assert_eq!(chunks[0].code_content, "function f() public {\n  }");
}

#[test]
fn every_kind_of_definition_is_told_apart() {
    let source = "contract A { constructor() {} modifier m() { _; } fallback() external {} \
                  receive() external payable {} function f() public {} }";
    let chunks = parse(source, "A.sol");
    let kinds: Vec<(&str, DefinitionKind)> = chunks
        .iter()
        .map(|c| (c.function_name.as_str(), c.kind))
        .collect();
    assert_eq!(
        kinds,
        vec![
            ("constructor", DefinitionKind::Constructor),
            ("m", DefinitionKind::Modifier),
            ("fallback", DefinitionKind::FallbackOrReceive),
            ("receive", DefinitionKind::FallbackOrReceive),
            ("f", DefinitionKind::Function),
        ]
    );
}

#[test]
fn kinds_have_stable_names() {
    assert_eq!(DefinitionKind::Function.as_str(), "function");
    assert_eq!(DefinitionKind::Constructor.as_str(), "constructor");
    assert_eq!(DefinitionKind::Modifier.as_str(), "modifier");
    assert_eq!(DefinitionKind::FallbackOrReceive.as_str(), "fallback_or_receive");
}

#[test]
fn libraries_and_interfaces_count_as_contracts() {
    let chunks = parse(
        "library L { function g() internal {} } interface I { function h() external; }",
        "L.sol",
    );
    let names: Vec<(&str, &str)> = chunks
        .iter()
        .map(|c| (c.contract_name.as_str(), c.function_name.as_str()))
        .collect();
    assert_eq!(names, vec![("L", "g"), ("I", "h")]);
    assert!(match_node("library_declaration"));
    assert!(!match_node("struct_declaration"));
}

#[test]
fn nothing_comes_of_a_source_without_contracts() {
    assert!(parse("", "empty.sol").is_empty());
    assert!(parse("pragma solidity ^0.8.0;\n", "pragma.sol").is_empty());
}

#[test]
fn text_outside_ascii_is_cut_at_characters() {
    let chunks = parse("contract Ä { } contract B { /* ж */ function f() public { } }", "u.sol");
    let last = chunks.last().expect("one definition");
    assert_eq!(last.contract_name, "B");
    assert_eq!(last.code_content, "function f() public { }");
}

#[test]
fn nameless_entry_points_are_named_by_their_code() {
    assert_eq!(fallback_or_receive_name("receive() external payable {}"), "receive");
    assert_eq!(fallback_or_receive_name("  receive() external payable {}"), "receive");
    assert_eq!(fallback_or_receive_name("fallback() external {}"), "fallback");
}

#[test]
fn parsing_twice_gives_the_same_chunks() {
    let first = parse_sample();
    let second = parse_sample();
    assert_eq!(first.len(), second.len());
    for (a, b) in first.iter().zip(second.iter()) {
        assert_eq!(a.function_name, b.function_name);
        assert_eq!(a.code_content, b.code_content);
        assert_eq!(a.referenced_symbols, b.referenced_symbols);
        assert_eq!((a.start_line, a.end_line), (b.start_line, b.end_line));
    }
}

#[test]
fn the_path_is_only_recorded() {
    let mut parser = SolidityParser::new().expect("grammar must load");
    let here = parser.parse_source(SAMPLE, "a.sol").expect("sample must parse");
    let there = parser.parse_source(SAMPLE, "no/such/b.sol").expect("sample must parse");
    assert_eq!(here.len(), there.len());
    for (a, b) in here.iter().zip(there.iter()) {
        assert_eq!(a.file_path, "a.sol");
        assert_eq!(b.file_path, "no/such/b.sol");
        assert_eq!(a.contract_name, b.contract_name);
        assert_eq!(a.function_name, b.function_name);
        assert_eq!(a.code_content, b.code_content);
        assert_eq!(a.referenced_symbols, b.referenced_symbols);
        assert_eq!(a.kind, b.kind);
        assert_eq!((a.start_line, a.end_line), (b.start_line, b.end_line));
    }
}

/// The lines of each chunk hold its code.
fn check_lines(source: &str) -> usize {
    let chunks = parse(source, "a.sol");
    for chunk in &chunks {
        let lines: Vec<&str> = source.split('\n').collect();
        let text = lines[chunk.start_line - 1..chunk.end_line].join("\n");
        assert!(text.contains(&chunk.code_content), "{text:?} lacks {:?}", chunk.code_content);
        assert_eq!(
            chunk.code_content.matches('\n').count(),
            chunk.end_line - chunk.start_line
        );
    }
    chunks.len()
}

#[test]
fn code_stands_on_its_lines() {
    assert_eq!(check_lines(SAMPLE), 6);
    assert_eq!(check_lines("contract C { function f() public {} }"), 1);
    // Other line ends, a byte order mark, characters of several bytes.
    assert_eq!(check_lines(&SAMPLE.replace('\n', "\r\n")), 6);
    assert_eq!(check_lines(&format!("\u{feff}{SAMPLE}")), 6);
    assert_eq!(check_lines("\n\n// äöü \u{1f600}\ncontract C { /* Ü */\n function f() {\n}\n}\n"), 1);
    assert_eq!(check_lines(""), 0);
    assert_eq!(check_lines("\n\n\n"), 0);
}

#[test]
fn broken_sources_keep_their_lines() {
    for source in [
        "contract C {\n function f(\n",
        "contract C {\n\n function f() public {\n  x = ;\n }\n",
        "}\n}\ncontract C {\n function f() public { a.b( }\n}\n\u{0}\n",
        "\n/* open\ncontract C { function f() {} }\n",
        "contract C { string s = \"a\nb\"; function f() public {} }\n\n@@@ ???\n",
        "function free() {}\ncontract\n\nC\n{\nfunction\nf\n(\n)\n{\n}\n}",
        "\u{2028}contract C {\u{85} function f() public {}\u{b}\u{c}\r }",
    ] {
        check_lines(source);
        for (cut, _) in source.char_indices() {
            check_lines(&source[..cut]);
            check_lines(&source[cut..]);
        }
    }
    for (cut, _) in SAMPLE.char_indices() {
        check_lines(&SAMPLE[..cut]);
        check_lines(&SAMPLE[cut..]);
    }
}

#[test]
fn symbols_are_sorted_and_come_once() {
    let chunks = parse(
        "contract A { uint x; function f() public { x = 1; x = 2; g(); g(); } function g() public {} }",
        "A.sol",
    );
    assert_eq!(chunks[0].referenced_symbols, vec!["g", "x"]);
}
