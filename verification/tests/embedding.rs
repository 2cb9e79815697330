//! What is made of the vectors of the model.
use astral::chunker::{chunk, SemanticChunk};
use astral::embedding::{embedding_texts, first_vector, prepare_vectors, table_schema, Prepared};
use astral::float::Single;
use astral::parser::{DefinitionKind, FunctionChunk};
use astral::storage::{chunk_schema, parse_chunk_rows, StorageError};

fn sample(name: &str) -> SemanticChunk {
    chunk(FunctionChunk {
        file_path: "V.sol".into(),
        contract_name: "V".into(),
        function_name: name.into(),
        code_content: format!("function {name}() {{}}"),
        referenced_symbols: vec!["x".into()],
        kind: DefinitionKind::Function,
        start_line: 1,
        end_line: 1,
    })
}

fn zero() -> Single {
    Single { bits: 0 }
}

#[test]
fn the_table_holds_vectors_of_the_model() {
    let schema = table_schema().expect("known model");
    assert_eq!(schema, chunk_schema(384));
    assert_ne!(schema, chunk_schema(383));
}

#[test]
fn each_chunk_is_embedded_by_its_text() {
    let chunks = vec![sample("f"), sample("g")];
    let texts = embedding_texts(&chunks);
    assert_eq!(texts, vec![chunks[0].embedding_text.clone(), chunks[1].embedding_text.clone()]);
    assert!(texts[1].starts_with("Solidity function `g`"));
}

#[test]
fn vectors_of_the_right_size_make_a_batch() {
    let chunks = vec![sample("f"), sample("g")];
    let vectors = vec![vec![zero(); 384], vec![zero(); 384]];
    match prepare_vectors(table_schema().expect("known model"), &chunks, &vectors) {
        Ok(Prepared::Ready(batch)) => {
            let stored = parse_chunk_rows(&batch).expect("readable");
            assert_eq!(stored[1].function_name, "g");
        }
        _ => panic!("no batch"),
    }
}

#[test]
fn other_vectors_make_none() {
    let chunks = vec![sample("f"), sample("g")];
    let short = vec![vec![zero(); 3], vec![zero(); 3]];
    assert!(matches!(prepare_vectors(chunk_schema(384), &chunks, &short), Err(StorageError::Arrow(_))));
    let missing = vec![vec![zero(); 384]];
    assert!(matches!(prepare_vectors(chunk_schema(384), &chunks, &missing), Err(StorageError::Arrow(_))));
    let uneven = vec![vec![zero(); 384], vec![zero(); 2]];
    assert!(matches!(prepare_vectors(chunk_schema(384), &chunks, &uneven), Ok(Prepared::Oversized)));
}

#[test]
fn the_first_vector_is_taken() {
    let one = Single { bits: 1.0f32.to_bits() };
    assert_eq!(first_vector(vec![vec![one, zero()], vec![zero()]]), Some(vec![one, zero()]));
    assert_eq!(first_vector(Vec::new()), None);
}
