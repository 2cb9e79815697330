//! The topology of a codebase.
use std::collections::BTreeMap;

use astral::ordered::OrderedSet;
use astral::storage::StoredChunk;
use astral::viewer::viewer_html;
use astral::visualizer::{
    build_graph, color_of, definition_size, group_of, has_keyword, has_low_level_call,
    lines_countable, lookup, node_id, resolve_symbol, risk_score, FunctionIndex, GraphNode,
    ResolvedTarget, COLOR_CONSTRUCTOR, COLOR_EXTERNAL_CALL, COLOR_FUNCTION, COLOR_LOW_LEVEL,
    COLOR_MODIFIER, COLOR_RECEIVE, COLOR_STATE_VAR, EXTERNAL_CALL_SIZE, STATE_VAR_SIZE,
};

fn chunk(
    contract: &str,
    function: &str,
    kind: &str,
    code: &str,
    symbols: &[&str],
    lines: (u32, u32),
) -> StoredChunk {
    StoredChunk {
        id: format!("f.sol::{contract}::{function}::{}", lines.0),
        file_path: "f.sol".into(),
        contract_name: contract.into(),
        function_name: function.into(),
        code_content: code.into(),
        referenced_symbols: symbols.iter().map(|s| s.to_string()).collect(),
        kind: kind.into(),
        start_line: lines.0,
        end_line: lines.1,
    }
}

fn vault_chunks() -> Vec<StoredChunk> {
    vec![
        chunk(
            "Vault",
            "withdraw",
            "function",
            "function withdraw() { msg.sender.call{value: x}(\"\"); }",
            &[
                "balances",
                "msg.sender.call{value: x}",
                "onlyInit",
                "token.transfer",
            ],
            (10, 20),
        ),
        chunk(
            "Vault",
            "onlyInit",
            "modifier",
            "modifier onlyInit() { _; }",
            &[],
            (5, 7),
        ),
        chunk(
            "Token",
            "transfer",
            "function",
            "function transfer() {}",
            &[],
            (1, 3),
        ),
    ]
}

fn size_of(node: &GraphNode) -> f64 {
    f64::from_bits(node.size.bits)
}

#[test]
fn builds_expected_node_groups_and_colors() {
    let graph = build_graph(&vault_chunks());
    let by_id: BTreeMap<&str, &GraphNode> =
        graph.nodes.iter().map(|n| (n.id.as_str(), n)).collect();

    // Low-level call in the body wins over the plain-function color.
    assert_eq!(by_id["Vault::withdraw"].color, COLOR_LOW_LEVEL);
    assert_eq!(by_id["Vault::onlyInit"].group, "modifier");
    assert_eq!(by_id["Vault::onlyInit"].color, COLOR_MODIFIER);
    // `balances` never appears as a definition → state variable node.
    assert_eq!(by_id["Vault::balances"].group, "state_variable");
    assert_eq!(by_id["Vault::balances"].size.bits, STATE_VAR_SIZE);
    assert_eq!(size_of(by_id["Vault::balances"]), 5.0);
    // `msg.sender.call` has no definition → external call node.
    assert_eq!(by_id["msg.sender.call"].group, "external_call");
}

#[test]
fn links_resolve_local_cross_contract_and_synthesized_targets() {
    let graph = build_graph(&vault_chunks());
    let has = |s: &str, t: &str| graph.links.iter().any(|l| l.source == s && l.target == t);
    assert!(has("Vault::withdraw", "Vault::balances"));
    assert!(has("Vault::withdraw", "Vault::onlyInit"));
    // `token.transfer` resolves by method name to the unique definition.
    assert!(has("Vault::withdraw", "Token::transfer"));
    assert!(has("Vault::withdraw", "msg.sender.call"));
}

#[test]
fn risk_scores_follow_structural_rules() {
    let chunks = vec![
        // Low-level call (+4), external and writes state (+3), no guard → 7.
        chunk(
            "Vault",
            "sweep",
            "function",
            "function sweep() external { owner.call{value: 1}(\"\"); }",
            &["funds"],
            (1, 3),
        ),
        // Same shape but guarded by a well-known modifier → 7 − 3 = 4.
        chunk(
            "Vault",
            "sweepOwner",
            "function",
            "function sweepOwner() external onlyOwner { owner.call{value: 1}(\"\"); }",
            &["funds", "onlyOwner"],
            (5, 7),
        ),
        // Guard defined locally in the codebase counts too → 3 − 3 = 0.
        chunk(
            "Vault",
            "setFee",
            "function",
            "function setFee(uint256 f) external onlyInit { fee = f; }",
            &["fee", "onlyInit"],
            (9, 11),
        ),
        chunk(
            "Vault",
            "onlyInit",
            "modifier",
            "modifier onlyInit() { _; }",
            &[],
            (13, 15),
        ),
        // Payable entry point → +2.
        chunk(
            "Vault",
            "receive",
            "fallback_or_receive",
            "receive() external payable {}",
            &[],
            (17, 17),
        ),
        // `view` never counts as a state-changing external → 0.
        chunk(
            "Vault",
            "getFee",
            "function",
            "function getFee() external view returns (uint256) { return fee; }",
            &["fee"],
            (19, 21),
        ),
    ];

    let graph = build_graph(&chunks);
    let risk: BTreeMap<&str, u8> = graph
        .nodes
        .iter()
        .map(|n| (n.id.as_str(), n.risk_score))
        .collect();

    assert_eq!(risk["Vault::sweep"], 7);
    assert_eq!(risk["Vault::sweepOwner"], 4);
    assert_eq!(risk["Vault::setFee"], 0);
    assert_eq!(risk["Vault::receive"], 2);
    assert_eq!(risk["Vault::getFee"], 0);
    // Synthesized nodes carry no structural risk of their own.
    assert_eq!(risk["Vault::funds"], 0);
}

#[test]
fn size_scales_with_line_count_and_every_link_endpoint_exists() {
    let graph = build_graph(&vault_chunks());
    let by_id: BTreeMap<&str, &GraphNode> =
        graph.nodes.iter().map(|n| (n.id.as_str(), n)).collect();
    assert!(size_of(by_id["Vault::withdraw"]) > size_of(by_id["Vault::onlyInit"]));

    for link in &graph.links {
        assert!(
            by_id.contains_key(link.source.as_str()),
            "dangling {}",
            link.source
        );
        assert!(
            by_id.contains_key(link.target.as_str()),
            "dangling {}",
            link.target
        );
    }
}

#[test]
fn sizes_are_those_of_double_precision() {
    let counts = [1u32, 2, 3, 4, 5, 7, 10, 11, 99, 100, 341, 342, 343, 344, 1000, 65_536, 4_294_967_295];
    for lines in counts {
        let size = definition_size(&chunk("C", "f", "function", "", &[], (1, lines)));
        let expected = (3.0 + 2.0 * (lines as f64).sqrt()).min(40.0);
        assert_eq!(size.bits, expected.to_bits(), "{lines} lines");
    }
    let mut lines: u32 = 1;
    while lines < 2000 {
        let size = definition_size(&chunk("C", "f", "function", "", &[], (1, lines)));
        let expected = (3.0 + 2.0 * (lines as f64).sqrt()).min(40.0);
        assert_eq!(size.bits, expected.to_bits(), "{lines} lines");
        lines += 1;
    }
}

#[test]
fn lines_that_run_backwards_count_as_one() {
    let size = definition_size(&chunk("C", "f", "function", "", &[], (9, 2)));
    assert_eq!(f64::from_bits(size.bits), 5.0);
    assert!(lines_countable(&vec![chunk("C", "f", "function", "", &[], (1, u32::MAX))]));
    assert!(!lines_countable(&vec![chunk("C", "f", "function", "", &[], (0, u32::MAX))]));
}

#[test]
fn groups_and_colors_follow_the_kind() {
    let of = |kind: &str| chunk("C", "f", kind, "code", &[], (1, 1));
    assert_eq!(group_of(&of("function")), "function");
    assert_eq!(group_of(&of("constructor")), "constructor");
    assert_eq!(group_of(&of("modifier")), "modifier");
    assert_eq!(group_of(&of("fallback_or_receive")), "receive");
    assert_eq!(group_of(&of("anything")), "function");
    assert_eq!(color_of(&of("function")), COLOR_FUNCTION);
    assert_eq!(color_of(&of("constructor")), COLOR_CONSTRUCTOR);
    assert_eq!(color_of(&of("modifier")), COLOR_MODIFIER);
    assert_eq!(color_of(&of("fallback_or_receive")), COLOR_RECEIVE);
    let risky = chunk("C", "f", "modifier", "x.delegatecall(y)", &[], (1, 1));
    assert_eq!(color_of(&risky), COLOR_LOW_LEVEL);
}

#[test]
fn low_level_calls_are_found_by_their_text() {
    for code in ["a.call(x)", "a.call{value: 1}()", "a.delegatecall(x)", "a.delegatecall{gas: 1}(x)", "a.staticcall(x)", "selfdestruct(a)"] {
        assert!(has_low_level_call(code), "{code}");
    }
    assert!(!has_low_level_call("call(x)"));
    assert!(!has_low_level_call("a.callback(x)"));
    assert!(!has_low_level_call(""));
}

#[test]
fn keywords_count_as_whole_words_only() {
    assert!(has_keyword("function f() external view", &["view", "pure"]));
    assert!(!has_keyword("function viewer() external", &["view", "pure"]));
    assert!(!has_keyword("function my_view()", &["view"]));
    assert!(has_keyword("view", &["view"]));
    assert!(has_keyword("a(view)", &["view"]));
    assert!(!has_keyword("", &["view"]));
    assert!(has_keyword("a  b", &[""]));
    assert!(!has_keyword("ab", &[""]));
    assert!(!has_keyword("anything", &[]));
}

#[test]
fn symbols_resolve_in_order() {
    let chunks = vec![
        chunk("A", "run", "function", "", &[], (1, 1)),
        chunk("A", "shared", "function", "", &[], (2, 2)),
        chunk("B", "shared", "function", "", &[], (3, 3)),
        chunk("B", "only", "function", "", &[], (4, 4)),
        chunk("C", "shared", "function", "", &[], (5, 5)),
    ];
    let index = FunctionIndex::new(&chunks);
    let from_a = &chunks[0];
    let resolve = |symbol: &str| resolve_symbol(symbol, from_a, &chunks, &index);
    assert!(matches!(resolve("shared"), ResolvedTarget::Definition(id) if id == "A::shared"));
    assert!(matches!(resolve("only"), ResolvedTarget::Definition(id) if id == "B::only"));
    assert!(matches!(resolve("b.only(1)"), ResolvedTarget::Definition(id) if id == "B::only"));
    assert!(matches!(resolve("total"), ResolvedTarget::StateVariable(name) if name == "total"));
    assert!(matches!(resolve("_total"), ResolvedTarget::StateVariable(name) if name == "_total"));
    assert!(matches!(resolve("ärger"), ResolvedTarget::StateVariable(name) if name == "ärger"));
    assert!(matches!(resolve("IERC20(x)"), ResolvedTarget::Skip));
    assert!(matches!(resolve("9lives"), ResolvedTarget::Skip));
    assert!(matches!(resolve("Ärger"), ResolvedTarget::Skip));
    assert!(matches!(resolve("require"), ResolvedTarget::Skip));
    assert!(matches!(resolve("x.this"), ResolvedTarget::Skip));
    assert!(matches!(resolve("  (x)"), ResolvedTarget::Skip));
    assert!(matches!(resolve("token.transfer{gas: 1}"), ResolvedTarget::ExternalCall(callee) if callee == "token.transfer"));

    let outsider = chunk("D", "x", "function", "", &[], (9, 9));
    // Several contracts define it, and this one does not.
    assert_eq!(lookup("shared", &outsider, &chunks, &index), None);
    assert_eq!(lookup("only", &outsider, &chunks, &index), Some("B::only".to_owned()));
    assert_eq!(lookup("missing", &outsider, &chunks, &index), None);
    assert_eq!(node_id(&outsider), "D::x");
}

#[test]
fn overloads_of_one_other_contract_resolve() {
    let chunks = vec![
        chunk("Vault", "pay", "function", "", &["transfer", "t.transfer"], (1, 1)),
        chunk("Token", "transfer", "function", "", &[], (1, 3)),
        chunk("Token", "transfer", "function", "", &[], (5, 9)),
    ];
    let index = FunctionIndex::new(&chunks);
    let resolve = |symbol: &str| resolve_symbol(symbol, &chunks[0], &chunks, &index);
    assert!(matches!(resolve("transfer"), ResolvedTarget::Definition(id) if id == "Token::transfer"));
    assert!(matches!(resolve("t.transfer"), ResolvedTarget::Definition(id) if id == "Token::transfer"));
    let graph = build_graph(&chunks);
    assert_eq!(graph.nodes.len(), 2);
    assert_eq!(graph.links.len(), 1);
    assert_eq!(graph.links[0].target, "Token::transfer");

    // A second contract with the name makes it ambiguous, wherever it stands.
    for at in 0..=3 {
        let mut chunks = vec![
            chunk("Token", "transfer", "function", "", &[], (1, 3)),
            chunk("Token", "transfer", "function", "", &[], (5, 9)),
            chunk("Token", "transfer", "function", "", &[], (10, 12)),
        ];
        chunks.insert(at, chunk("Coin", "transfer", "function", "", &[], (1, 2)));
        let index = FunctionIndex::new(&chunks);
        let from = chunk("Vault", "pay", "function", "", &[], (1, 1));
        assert_eq!(lookup("transfer", &from, &chunks, &index), None);
        let target = resolve_symbol("transfer", &from, &chunks, &index);
        assert!(matches!(target, ResolvedTarget::StateVariable(name) if name == "transfer"));
    }
}

#[test]
fn the_order_of_the_chunks_has_no_influence() {
    let describe = |chunks: &Vec<StoredChunk>| {
        let graph = build_graph(chunks);
        let nodes: Vec<String> = graph.nodes.iter().map(|n| format!("{n:?}")).collect();
        let links: Vec<String> = graph.links.iter().map(|l| format!("{l:?}")).collect();
        (nodes, links)
    };
    let chunks = vault_chunks();
    let expected = describe(&chunks);
    for turn in 0..chunks.len() {
        let mut turned = vault_chunks();
        turned.rotate_left(turn);
        assert_eq!(describe(&turned), expected);
        turned.reverse();
        assert_eq!(describe(&turned), expected);
    }
}

#[test]
fn definitions_replace_synthesized_nodes_but_not_the_other_way_round() {
    let chunks = vec![
        chunk("A", "f", "function", "function f() {}", &["x.y", "g"], (1, 1)),
        chunk("A", "g", "constructor", "constructor() {}", &["x.y", "f", "g"], (2, 2)),
        chunk("A", "g", "modifier", "modifier g() {}", &[], (3, 3)),
    ];
    let graph = build_graph(&chunks);
    let ids: Vec<&str> = graph.nodes.iter().map(|n| n.id.as_str()).collect();
    assert_eq!(ids, vec!["A::f", "A::g", "x.y"]);
    // The last definition of an id has the node.
    assert_eq!(graph.nodes[1].group, "modifier");
    assert_eq!(graph.nodes[2].color, COLOR_EXTERNAL_CALL);
    assert_eq!(graph.nodes[2].size.bits, EXTERNAL_CALL_SIZE);
    assert_eq!(size_of(&graph.nodes[2]), 6.0);
    let links: Vec<(&str, &str)> = graph
        .links
        .iter()
        .map(|l| (l.source.as_str(), l.target.as_str()))
        .collect();
    assert_eq!(
        links,
        vec![("A::f", "A::g"), ("A::f", "x.y"), ("A::g", "A::f"), ("A::g", "x.y")]
    );
}

#[test]
fn state_variables_have_their_color() {
    let graph = build_graph(&vec![chunk("A", "f", "function", "", &["x"], (1, 1))]);
    assert_eq!(graph.nodes[1].id, "A::x");
    assert_eq!(graph.nodes[1].color, COLOR_STATE_VAR);
    assert!(build_graph(&Vec::new()).nodes.is_empty());
}

#[test]
fn risk_stays_within_its_bounds() {
    let mut modifiers: OrderedSet<String> = OrderedSet::new();
    let all = chunk(
        "C",
        "receive",
        "fallback_or_receive",
        "receive() external { a.call(x); }",
        &[],
        (1, 1),
    );
    assert_eq!(risk_score(&all, &modifiers, true), 9);
    assert_eq!(risk_score(&all, &modifiers, false), 6);
    let guarded = chunk("C", "f", "function", "function f() public {}", &["mine"], (1, 1));
    assert_eq!(risk_score(&guarded, &modifiers, true), 3);
    modifiers.insert("mine".to_owned());
    assert_eq!(risk_score(&guarded, &modifiers, true), 0);
    assert_eq!(risk_score(&guarded, &modifiers, false), 0);
    // Only what stands before the first brace is the signature.
    let body = chunk("C", "f", "function", "function f() { external }", &[], (1, 1));
    assert_eq!(risk_score(&body, &modifiers, true), 0);
}

#[test]
fn the_page_holds_the_graph() {
    let html = viewer_html("{\"nodes\":[]}");
    assert!(html.starts_with("<!DOCTYPE html>\n<html>"));
    assert!(html.contains("\nconst data = {\"nodes\":[]};\n"));
    assert!(html.contains("<title>astral — code topology</title>"));
    assert!(html.contains("body { margin: 0; background: #04060f; overflow: hidden; }"));
    assert!(html.contains("`${n.id} [${n.group}] · risk ${n.risk_score}`"));
    assert!(html.ends_with("</script>\n</body>\n</html>\n"));
    assert!(!html.contains("{{"));
}
