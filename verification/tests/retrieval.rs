//! Fusion, harvesting, locality and rendering.
use astral::float::Single;
use astral::retrieval::{
    assemble, excluded_segments, exported_chunks, first_pass, fuse_rrf, harvest_symbols,
    is_auxiliary_path, is_builtin, path_holds_segment, plan_search, render_chunk, sort_by_locality,
    AssembledContext, FirstPass, RankedChunk, RetrievalOptions, MAX_DEPENDENCY_CHUNKS,
};
use astral::storage::{FtsResult, SearchResult, StoredChunk};

fn single(value: f32) -> Single {
    Single { bits: value.to_bits() }
}

fn stored_chunk(id: &str, symbols: &[&str]) -> StoredChunk {
    StoredChunk {
        id: id.into(),
        file_path: "f.sol".into(),
        contract_name: "C".into(),
        function_name: "f".into(),
        code_content: "function f() {}".into(),
        referenced_symbols: symbols.iter().map(|s| s.to_string()).collect(),
        kind: "function".into(),
        start_line: 1,
        end_line: 1,
    }
}

fn chunk_with_symbols(symbols: &[&str]) -> RankedChunk {
    RankedChunk {
        chunk: stored_chunk("f.sol::C::f::1", symbols),
        rrf_score: single(0.5),
        vector_rank: Some(1),
        fts_rank: None,
    }
}

fn near(distance: f32, id: &str) -> SearchResult {
    SearchResult { distance: single(distance), chunk: stored_chunk(id, &[]) }
}

fn text_hit(score: f32, id: &str) -> FtsResult {
    FtsResult { score: single(score), chunk: stored_chunk(id, &[]) }
}

#[test]
fn rrf_ranks_dual_channel_hits_above_single_channel_leaders() {
    let vector = vec![near(0.1, "a"), near(0.2, "b")];
    let fts = vec![text_hit(9.0, "c"), text_hit(5.0, "b")];

    let fused = fuse_rrf(vector, fts, 3);
    // `b` is #2 in both channels: 1/62 + 1/62 > 1/61 of either leader.
    assert_eq!(fused[0].chunk.id, "b");
    assert_eq!(fused[0].vector_rank, Some(2));
    assert_eq!(fused[0].fts_rank, Some(2));
    assert_eq!(fused.len(), 3);
    // Single-channel hits keep their channel rank and lose the other.
    let a = fused.iter().find(|r| r.chunk.id == "a").expect("a fused");
    assert_eq!((a.vector_rank, a.fts_rank), (Some(1), None));
}

#[test]
fn harvests_plain_member_and_lowlevel_symbols() {
    let primary = vec![chunk_with_symbols(&[
        "_checkDeviation",
        "onlyOwner",
        "token.transfer",
        "msg.sender.call{value: amount}",
        "require",
    ])];
    let symbols = harvest_symbols(&primary);
    assert!(symbols.contains(&"_checkDeviation".to_owned()));
    assert!(symbols.contains(&"onlyOwner".to_owned()));
    assert!(symbols.contains(&"token".to_owned()));
    assert!(symbols.contains(&"transfer".to_owned()));
    // Built-ins and globals must not leak into the metadata query.
    assert!(!symbols.contains(&"require".to_owned()));
    assert!(!symbols.contains(&"msg".to_owned()));
}

#[test]
fn dependencies_sorted_same_contract_then_same_file_then_rest() {
    let mut primary = chunk_with_symbols(&[]);
    primary.chunk.contract_name = "Oracle".into();
    primary.chunk.file_path = "contracts/Oracle.sol".into();

    let dep = |contract: &str, file: &str, function: &str| StoredChunk {
        contract_name: contract.into(),
        file_path: file.into(),
        function_name: function.into(),
        ..chunk_with_symbols(&[]).chunk
    };
    let mut deps = vec![
        dep("MockFeed", "mocks/MockFeed.sol", "latestRoundData"),
        dep("OracleLib", "contracts/Oracle.sol", "scale"),
        dep("Oracle", "contracts/Oracle.sol", "_checkDeviation"),
    ];

    sort_by_locality(&mut deps, &vec![primary]);
    let order: Vec<&str> = deps.iter().map(|c| c.function_name.as_str()).collect();
    assert_eq!(order, vec!["_checkDeviation", "scale", "latestRoundData"]);
}

#[test]
fn markdown_labels_primary_and_dependency_sections() {
    let context = AssembledContext {
        primary: vec![chunk_with_symbols(&["_helper"])],
        dependencies: vec![StoredChunk {
            function_name: "_helper".into(),
            ..chunk_with_symbols(&[]).chunk
        }],
        expanded_symbols: vec!["_helper".into()],
    };
    let md = context.to_markdown("test query");
    let primary_pos = md.find("[PRIMARY MATCH] `C.f`").expect("primary section");
    let dep_pos = md
        .find("[DEPENDENCY CONTEXT] `C._helper`")
        .expect("dependency section");
    assert!(primary_pos < dep_pos);
    assert!(md.contains("```solidity"));
}

#[test]
fn scores_are_those_of_single_precision() {
    let vector = vec![near(0.1, "a"), near(0.2, "b"), near(0.3, "c")];
    let fts = vec![text_hit(9.0, "c"), text_hit(5.0, "d"), text_hit(4.0, "a")];
    let fused = fuse_rrf(vector, fts, 10);
    let share = |rank: usize| 1.0f32 / (60.0f32 + rank as f32);
    for hit in &fused {
        let mut expected = 0.0f32;
        if let Some(rank) = hit.vector_rank {
            expected += share(rank);
        }
        if let Some(rank) = hit.fts_rank {
            expected += share(rank);
        }
        assert_eq!(hit.rrf_score.bits, expected.to_bits(), "{}", hit.chunk.id);
    }
    // Equal scores stand in the order of their ids.
    let order: Vec<&str> = fused.iter().map(|r| r.chunk.id.as_str()).collect();
    assert_eq!(order, vec!["a", "c", "b", "d"]);
}

#[test]
fn only_the_best_are_kept() {
    let vector = (0..8).map(|i| near(i as f32, &format!("v{i}"))).collect();
    let fused = fuse_rrf(vector, Vec::new(), 3);
    let order: Vec<&str> = fused.iter().map(|r| r.chunk.id.as_str()).collect();
    assert_eq!(order, vec!["v0", "v1", "v2"]);
    assert!(fuse_rrf(vec![near(1.0, "a")], Vec::new(), 0).is_empty());
    assert!(fuse_rrf(Vec::new(), Vec::new(), 5).is_empty());
}

#[test]
fn a_chunk_found_twice_by_one_search_counts_twice_and_keeps_its_last_rank() {
    let mut again = near(0.2, "a");
    again.chunk.function_name = "other".into();
    let fused = fuse_rrf(vec![near(0.1, "a"), again], Vec::new(), 5);
    assert_eq!(fused.len(), 1);
    assert_eq!(fused[0].vector_rank, Some(2));
    assert_eq!(fused[0].chunk.function_name, "f");
    let expected = 1.0f32 / 61.0f32 + 1.0f32 / 62.0f32;
    assert_eq!(fused[0].rrf_score.bits, expected.to_bits());
}

#[test]
fn two_ranks_within_the_first_sixty_one_beat_one_first_rank() {
    let mut vector: Vec<SearchResult> = (0..60).map(|i| near(i as f32, &format!("v{i:02}"))).collect();
    vector.push(near(60.0, "both"));
    let mut fts: Vec<FtsResult> = (0..60).map(|i| text_hit(99.0 - i as f32, &format!("t{i:02}"))).collect();
    fts.push(text_hit(1.0, "both"));
    let fused = fuse_rrf(vector, fts, 2);
    assert_eq!(fused[0].chunk.id, "both");
    assert_eq!((fused[0].vector_rank, fused[0].fts_rank), (Some(61), Some(61)));
}

#[test]
fn later_ranks_never_share_more() {
    let vector = (0..300).map(|i| near(i as f32, &format!("{i:03}"))).collect();
    let fused = fuse_rrf(vector, Vec::new(), 300);
    for pair in fused.windows(2) {
        assert!(pair[0].rrf_score.bits > pair[1].rrf_score.bits);
    }
}

#[test]
fn harvested_names_are_sorted_and_come_once() {
    let primary = vec![
        chunk_with_symbols(&["b.c", " a ", "a(x).y", "IERC20(pool)", "{value: 1}", "abi.encode"]),
        chunk_with_symbols(&["c", "super.run"]),
    ];
    assert_eq!(harvest_symbols(&primary), vec!["IERC20", "a", "b", "c", "encode", "run"]);
}

#[test]
fn builtins_are_known() {
    for name in ["require", "keccak256", "uint256", "msg", "this", "super", "tx"] {
        assert!(is_builtin(name), "{name}");
    }
    assert!(!is_builtin("transfer"));
    assert!(!is_builtin(""));
    assert!(!is_builtin("Require"));
}

#[test]
fn equally_close_dependencies_keep_their_order() {
    let primary = vec![chunk_with_symbols(&[])];
    let mut first = stored_chunk("1", &[]);
    first.start_line = 9;
    let mut deps = vec![first, stored_chunk("2", &[])];
    sort_by_locality(&mut deps, &primary);
    let order: Vec<&str> = deps.iter().map(|c| c.id.as_str()).collect();
    assert_eq!(order, vec!["1", "2"]);
}

#[test]
fn a_section_is_exact() {
    let chunk = stored_chunk("x", &["a", "b.c"]);
    assert_eq!(
        render_chunk(&chunk, "LABEL", "- Detail\n"),
        "\n## [LABEL] `C.f`\n\n- Source: `f.sol:1-1`\n- Kind: function\n- Detail\n\
         - References: a, b.c\n\n```solidity\nfunction f() {}\n```\n"
    );
    assert_eq!(
        render_chunk(&stored_chunk("x", &[]), "L", ""),
        "\n## [L] `C.f`\n\n- Source: `f.sol:1-1`\n- Kind: function\n\n\
         ```solidity\nfunction f() {}\n```\n"
    );
}

#[test]
fn a_document_is_exact() {
    let mut both = chunk_with_symbols(&[]);
    both.fts_rank = Some(12);
    both.rrf_score = single(1.0 / 61.0 + 1.0 / 72.0);
    let context = AssembledContext {
        primary: vec![both],
        dependencies: Vec::new(),
        expanded_symbols: Vec::new(),
    };
    assert_eq!(
        context.to_markdown("q"),
        "# Retrieved context\n\nQuery: **q**\n\n## [PRIMARY MATCH] `C.f`\n\n\
         - Source: `f.sol:1-1`\n- Kind: function\n\
         - Retrieval: semantic #1, text #12 (RRF 0.0303)\n\n\
         ```solidity\nfunction f() {}\n```\n"
    );
}

#[test]
fn the_supporting_context_is_announced() {
    let context = AssembledContext {
        primary: Vec::new(),
        dependencies: vec![stored_chunk("d", &[])],
        expanded_symbols: Vec::new(),
    };
    assert!(context.to_markdown("q").starts_with(
        "# Retrieved context\n\nQuery: **q**\n\n---\n\nThe following definitions are referenced by \
         the primary matches and are included as supporting context.\n\n## [DEPENDENCY CONTEXT]"
    ));
}

#[test]
fn assembled_dependencies_hold_no_hits() {
    let mut helper = stored_chunk("helper", &[]);
    helper.function_name = "_helper".into();
    let context = assemble(
        FirstPass {
            primary: vec![chunk_with_symbols(&["_helper"])],
            symbols: vec!["_helper".into()],
        },
        vec![stored_chunk("f.sol::C::f::1", &[]), helper, stored_chunk("also", &[])],
    );
    let ids: Vec<&str> = context.dependencies.iter().map(|c| c.id.as_str()).collect();
    assert_eq!(ids, vec!["helper", "also"]);
    assert_eq!(context.expanded_symbols, vec!["_helper"]);
    assert_eq!(context.primary.len(), 1);
}

#[test]
fn auxiliary_paths_are_excluded_by_default() {
    assert!(!RetrievalOptions::default().include_auxiliary);
    assert_eq!(
        excluded_segments(RetrievalOptions::default()),
        vec!["mocks/", "mock/", "tests/", "test/", "interfaces/"]
    );
    assert!(excluded_segments(RetrievalOptions { include_auxiliary: true }).is_empty());
    assert!(is_auxiliary_path("contracts/mocks/Feed.sol"));
    assert!(is_auxiliary_path("test/Vault.t.sol"));
    assert!(!is_auxiliary_path("contracts/Vault.sol"));
    assert!(!is_auxiliary_path("contracts/mocks.sol"));
    // A segment starts where the path does or behind a slash.
    assert!(!is_auxiliary_path("contracts/latest/Oracle.sol"));
    assert!(!is_auxiliary_path("attest/A.sol"));
    assert!(is_auxiliary_path("contracts/latest/test/Oracle.sol"));
    assert!(is_auxiliary_path("/interfaces/A.sol"));
    assert!(!is_auxiliary_path(""));
    assert!(path_holds_segment("a/b/c", "b/"));
    assert!(!path_holds_segment("ab/c", "b/"));
    assert!(path_holds_segment("a", ""));
    assert!(!path_holds_segment("a", "a/"));
}

#[test]
fn graphs_are_made_of_what_is_not_auxiliary() {
    let at = |path: &str| StoredChunk { file_path: path.into(), ..stored_chunk(path, &[]) };
    let chunks = || {
        vec![
            at("contracts/latest/Oracle.sol"),
            at("contracts/mocks/Feed.sol"),
            at("contracts/Vault.sol"),
            at("test/Vault.t.sol"),
        ]
    };
    let paths = |kept: Vec<StoredChunk>| -> Vec<String> {
        kept.into_iter().map(|chunk| chunk.file_path).collect()
    };
    assert_eq!(
        paths(exported_chunks(chunks(), false)),
        vec!["contracts/latest/Oracle.sol", "contracts/Vault.sol"]
    );
    assert_eq!(paths(exported_chunks(chunks(), true)), paths(chunks()));
    assert!(exported_chunks(Vec::new(), false).is_empty());
}

#[test]
fn only_identifiers_are_harvested() {
    let harvest = |symbol: &str| harvest_symbols(&vec![chunk_with_symbols(&[symbol])]);
    assert_eq!(harvest("[a, b].sum"), vec!["sum"]);
    assert_eq!(harvest("pools[0].swap"), vec!["swap"]);
    assert_eq!(harvest("9lives"), Vec::<String>::new());
    assert_eq!(harvest("$fee_1.of(x)"), vec!["$fee_1", "of"]);
    assert_eq!(harvest("a."), vec!["a"]);
}

#[test]
fn each_search_fetches_twice_as_many() {
    let plan = plan_search(5, RetrievalOptions::default());
    assert_eq!(plan.limit, 10);
    assert_eq!(plan.excluded.len(), 5);
    assert_eq!(plan_search(0, RetrievalOptions { include_auxiliary: true }).limit, 0);
    assert_eq!(MAX_DEPENDENCY_CHUNKS, 24);
}

#[test]
fn the_first_pass_fuses_and_harvests() {
    let mut hit = near(0.1, "a");
    hit.chunk.referenced_symbols = vec!["token.transfer".into(), "require".into()];
    let pass = first_pass(vec![hit, near(0.2, "b")], vec![text_hit(1.0, "b")], 1);
    // Only the symbols of what was kept are looked up.
    assert_eq!(pass.primary[0].chunk.id, "b");
    assert!(pass.symbols.is_empty());
    let mut hit = near(0.1, "a");
    hit.chunk.referenced_symbols = vec!["token.transfer".into(), "require".into()];
    let pass = first_pass(vec![hit], Vec::new(), 5);
    assert_eq!(pass.symbols, vec!["token", "transfer"]);
}

#[test]
fn ranks_are_counted_one_by_one() {
    let mut hit = RankedChunk {
        chunk: stored_chunk("a", &[]),
        rrf_score: single(0.0),
        vector_rank: None,
        fts_rank: None,
    };
    hit.apply_rank(3, astral::retrieval::Channel::Fts);
    assert_eq!(hit.rrf_score.bits, (1.0f32 / 63.0f32).to_bits());
    assert_eq!((hit.vector_rank, hit.fts_rank), (None, Some(3)));
}
