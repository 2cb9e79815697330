//! Identity and embedding text of chunks.
use astral::chunker::{
    chunk, chunk_all, embedding_text, kind_label, truncate_on_char_boundary,
    MAX_CODE_CHARS_FOR_EMBEDDING,
};
use astral::parser::{DefinitionKind, FunctionChunk};

fn sample_function() -> FunctionChunk {
    FunctionChunk {
        file_path: "contracts/Vault.sol".into(),
        contract_name: "Vault".into(),
        function_name: "withdraw".into(),
        code_content: "function withdraw() external { /* ... */ }".into(),
        referenced_symbols: vec!["balances".into(), "msg.sender.call".into()],
        kind: DefinitionKind::Function,
        start_line: 11,
        end_line: 16,
    }
}

#[test]
fn id_is_stable_and_unique_per_definition() {
    let chunk = chunk(sample_function());
    assert_eq!(chunk.id, "contracts/Vault.sol::Vault::withdraw::11");
}

#[test]
fn embedding_text_leads_with_description() {
    let chunk = chunk(sample_function());
    let text = &chunk.embedding_text;
    assert!(text.starts_with("Solidity function `withdraw` in contract `Vault`"));
    assert!(text.contains("References: balances, msg.sender.call."));
    assert!(text.contains("function withdraw()"));
}

#[test]
fn oversized_code_is_truncated_only_in_embedding_text() {
    let mut function = sample_function();
    function.code_content = "я".repeat(MAX_CODE_CHARS_FOR_EMBEDDING); // 2 bytes each
    let chunk = chunk(function.clone());
    assert!(chunk.embedding_text.len() < function.code_content.len() + 200);
    assert_eq!(chunk.source.code_content, function.code_content);
}

#[test]
fn embedding_text_is_exact() {
    assert_eq!(
        embedding_text(&sample_function()),
        "Solidity function `withdraw` in contract `Vault` (file contracts/Vault.sol).\n\
         References: balances, msg.sender.call.\n\
         Code:\nfunction withdraw() external { /* ... */ }"
    );
}

#[test]
fn references_are_left_out_where_there_are_none() {
    let mut function = sample_function();
    function.referenced_symbols = Vec::new();
    function.kind = DefinitionKind::FallbackOrReceive;
    assert_eq!(kind_label(&function), "fallback/receive function");
    assert_eq!(
        embedding_text(&function),
        "Solidity fallback/receive function `withdraw` in contract `Vault` \
         (file contracts/Vault.sol).\nCode:\nfunction withdraw() external { /* ... */ }"
    );
}

#[test]
fn long_code_is_cut_to_the_limit_in_bytes() {
    let mut function = sample_function();
    function.code_content = "я".repeat(MAX_CODE_CHARS_FOR_EMBEDDING);
    let text = embedding_text(&function);
    let code = text.split("Code:\n").nth(1).expect("code section");
    assert_eq!(code, "я".repeat(MAX_CODE_CHARS_FOR_EMBEDDING / 2));
}

#[test]
fn truncation_ends_between_characters() {
    assert_eq!(truncate_on_char_boundary("hello", 10), "hello");
    assert_eq!(truncate_on_char_boundary("hello", 3), "hel");
    assert_eq!(truncate_on_char_boundary("яя", 3), "я");
    assert_eq!(truncate_on_char_boundary("яя", 1), "");
    assert_eq!(truncate_on_char_boundary("a😀b", 4), "a");
    assert_eq!(truncate_on_char_boundary("a😀b", 5), "a😀");
    assert_eq!(truncate_on_char_boundary("", 0), "");
}

#[test]
fn overloaded_functions_have_different_ids() {
    let mut other = sample_function();
    other.start_line = 20;
    let chunks = chunk_all(vec![sample_function(), other, sample_function()]);
    assert_eq!(chunks.len(), 3);
    assert_ne!(chunks[0].id, chunks[1].id);
    assert_eq!(chunks[0].id, chunks[2].id);
    assert_eq!(chunks[1].id, "contracts/Vault.sol::Vault::withdraw::20");
}

#[test]
fn kinds_are_named_in_prose() {
    let mut function = sample_function();
    assert_eq!(kind_label(&function), "function");
    function.kind = DefinitionKind::Constructor;
    assert_eq!(kind_label(&function), "constructor");
    function.kind = DefinitionKind::Modifier;
    assert_eq!(kind_label(&function), "modifier");
}
