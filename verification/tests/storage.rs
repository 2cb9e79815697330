//! Batches, filters and the order of hits.
use std::sync::Arc;

use arrow_array::types::Float32Type;
use arrow_array::{
    ArrayRef, FixedSizeListArray, Float32Array, Int32Array, ListArray, RecordBatch, StringArray,
    UInt32Array,
};
use arrow_schema::{DataType, Field, Schema};
use astral::chunker::{chunk, SemanticChunk};
use astral::columns::Batch;
use astral::export::{parse_batch, ExportError};
use astral::float::Single;
use astral::parser::{DefinitionKind, FunctionChunk};
use astral::storage::{
    batch_fits, build_record_batch, chunk_schema, fts_results, is_solidity_identifier, name_filter,
    parse_chunk_rows, parse_fts_batch, parse_search_batch, path_exclusion_filter, scan_limit,
    search_results, stored_chunks, table_exists, StorageError,
};

fn single(value: f32) -> Single {
    Single { bits: value.to_bits() }
}

fn function(name: &str, symbols: &[&str], line: usize) -> SemanticChunk {
    chunk(FunctionChunk {
        file_path: "contracts/Vault.sol".into(),
        contract_name: "Vault".into(),
        function_name: name.into(),
        code_content: format!("function {name}() {{}}"),
        referenced_symbols: symbols.iter().map(|s| s.to_string()).collect(),
        kind: DefinitionKind::Modifier,
        start_line: line,
        end_line: line + 2,
    })
}

fn texts(values: &[&str]) -> ArrayRef {
    Arc::new(StringArray::from_iter_values(values.iter()))
}

fn numbers(values: &[u32]) -> ArrayRef {
    Arc::new(UInt32Array::from_iter_values(values.iter().copied()))
}

fn measures(values: &[f32]) -> ArrayRef {
    Arc::new(Float32Array::from_iter_values(values.iter().copied()))
}

fn no_symbols(rows: usize) -> ArrayRef {
    let mut builder =
        arrow_array::builder::ListBuilder::new(arrow_array::builder::StringBuilder::new());
    for _ in 0..rows {
        builder.append(true);
    }
    Arc::new(builder.finish())
}

/// The columns of rows with the given ids.
fn columns(ids: &[&str]) -> Vec<(&'static str, ArrayRef)> {
    let same = vec!["x"; ids.len()];
    let lines = vec![1u32; ids.len()];
    vec![
        ("id", texts(ids)),
        ("file_path", texts(&same)),
        ("contract_name", texts(&same)),
        ("function_name", texts(&same)),
        ("code_content", texts(&same)),
        ("kind", texts(&same)),
        ("start_line", numbers(&lines)),
        ("end_line", numbers(&lines)),
        ("referenced_symbols", no_symbols(ids.len())),
    ]
}

fn batch(columns: Vec<(&'static str, ArrayRef)>) -> Batch {
    Batch { records: RecordBatch::try_from_iter(columns).expect("valid batch") }
}

fn hits(measure: &'static str, rows: &[(&str, f32)]) -> Batch {
    let ids: Vec<&str> = rows.iter().map(|r| r.0).collect();
    let values: Vec<f32> = rows.iter().map(|r| r.1).collect();
    let mut all = columns(&ids);
    all.push((measure, measures(&values)));
    batch(all)
}

#[test]
fn written_chunks_come_back() {
    let chunks = vec![
        function("withdraw", &["balances", "msg.sender.call"], 11),
        function("deposit", &[], 20),
        function("ünïcode", &["ж"], 4_294_967_297),
    ];
    let vectors = vec![
        vec![single(0.5), single(-1.0)],
        vec![single(f32::NAN), single(0.0)],
        vec![single(1e-40), single(f32::MAX)],
    ];
    assert!(batch_fits(&chunks, &vectors));
    let batch = match build_record_batch(chunk_schema(2), &chunks, &vectors) {
        Ok(batch) => batch,
        Err(error) => panic!("{error:?}"),
    };
    assert_eq!(batch.records.num_rows(), 3);

    let stored = parse_chunk_rows(&batch).expect("readable");
    assert_eq!(stored.len(), 3);
    assert_eq!(stored[0].id, "contracts/Vault.sol::Vault::withdraw::11");
    assert_eq!(stored[0].file_path, "contracts/Vault.sol");
    assert_eq!(stored[0].contract_name, "Vault");
    assert_eq!(stored[0].function_name, "withdraw");
    assert_eq!(stored[0].code_content, "function withdraw() {}");
    assert_eq!(stored[0].referenced_symbols, vec!["balances", "msg.sender.call"]);
    assert_eq!(stored[0].kind, "modifier");
    assert_eq!((stored[0].start_line, stored[0].end_line), (11, 13));
    assert!(stored[1].referenced_symbols.is_empty());
    assert_eq!(stored[2].function_name, "ünïcode");
    assert_eq!(stored[2].referenced_symbols, vec!["ж"]);
    // Line numbers are kept modulo 2^32.
    assert_eq!((stored[2].start_line, stored[2].end_line), (1, 3));

    let rows = parse_batch(&batch).expect("exportable");
    assert_eq!(rows.len(), 3);
    for (row, vector) in rows.iter().zip(vectors.iter()) {
        assert_eq!(row.vector, *vector);
    }
    assert_eq!(rows[0].referenced_symbols, vec!["balances", "msg.sender.call"]);
    assert_eq!((rows[1].start_line, rows[1].end_line), (20, 22));
}

#[test]
fn the_schema_names_every_column() {
    let schema = chunk_schema(384);
    let names: Vec<&str> = schema.fields().iter().map(|f| f.name().as_str()).collect();
    assert_eq!(
        names,
        vec![
            "id",
            "vector",
            "file_path",
            "contract_name",
            "function_name",
            "code_content",
            "referenced_symbols",
            "kind",
            "start_line",
            "end_line"
        ]
    );
    assert!(schema.fields().iter().all(|f| !f.is_nullable()));
    assert_eq!(*schema.field(0).data_type(), DataType::Utf8);
    assert_eq!(
        *schema.field(1).data_type(),
        DataType::FixedSizeList(Arc::new(Field::new("item", DataType::Float32, true)), 384)
    );
    assert_eq!(
        *schema.field(6).data_type(),
        DataType::List(Arc::new(Field::new("item", DataType::Utf8, true)))
    );
    assert_eq!(*schema.field(8).data_type(), DataType::UInt32);
}

#[test]
fn a_batch_must_fit_its_schema() {
    let chunks = vec![function("f", &[], 1)];
    // The vectors have another size than the schema says.
    let built = build_record_batch(chunk_schema(3), &chunks, &vec![vec![single(1.0)]]);
    assert!(matches!(built, Err(StorageError::Arrow(_))));
    // There are more vectors than chunks.
    let two = vec![vec![single(1.0)], vec![single(2.0)]];
    let built = build_record_batch(chunk_schema(1), &chunks, &two);
    assert!(matches!(built, Err(StorageError::Arrow(_))));
    // Vectors without numbers make no rows.
    let built = build_record_batch(chunk_schema(0), &chunks, &vec![Vec::new()]);
    assert!(matches!(built, Err(StorageError::Arrow(_))));
    // A schema of other columns.
    let other = Arc::new(Schema::new(vec![Field::new("id", DataType::Utf8, false)]));
    let built = build_record_batch(other, &chunks, &vec![vec![single(1.0)]]);
    assert!(matches!(built, Err(StorageError::Arrow(_))));
}

#[test]
fn vectors_of_different_sizes_do_not_fit() {
    let chunks = vec![function("f", &[], 1), function("g", &[], 2)];
    let uneven = vec![vec![single(1.0), single(2.0)], vec![single(3.0)]];
    assert!(!batch_fits(&chunks, &uneven));
    assert!(batch_fits(&Vec::new(), &Vec::new()));
}

#[test]
fn each_missing_column_is_named() {
    for (at, name) in [
        (0, "id"),
        (1, "file_path"),
        (2, "contract_name"),
        (3, "function_name"),
        (4, "code_content"),
        (5, "kind"),
        (6, "start_line"),
        (7, "end_line"),
        (8, "referenced_symbols"),
    ] {
        let mut missing = columns(&["a"]);
        missing.remove(at);
        match parse_chunk_rows(&batch(missing)) {
            Err(StorageError::MalformedColumn(column)) => assert_eq!(column, name),
            _ => panic!("{name} was not missed"),
        }
        let mut wrong = columns(&["a"]);
        wrong[at].1 = Arc::new(Int32Array::from(vec![1]));
        match parse_chunk_rows(&batch(wrong)) {
            Err(StorageError::MalformedColumn(column)) => assert_eq!(column, name),
            _ => panic!("{name} was not noticed"),
        }
    }
}

#[test]
fn lists_of_something_else_are_noticed_where_there_are_rows() {
    let lists = ListArray::from_iter_primitive::<arrow_array::types::Int32Type, _, _>(vec![Some(
        vec![Some(1)],
    )]);
    let mut wrong = columns(&["a"]);
    wrong[8].1 = Arc::new(lists.clone());
    assert!(matches!(
        parse_chunk_rows(&batch(wrong)),
        Err(StorageError::MalformedColumn("referenced_symbols"))
    ));
    let mut empty = columns(&[]);
    empty[8].1 = Arc::new(lists.slice(0, 0));
    assert!(parse_chunk_rows(&batch(empty)).expect("no rows").is_empty());
}

#[test]
fn missing_symbols_are_left_out() {
    let mut builder =
        arrow_array::builder::ListBuilder::new(arrow_array::builder::StringBuilder::new());
    builder.values().append_value("a");
    builder.values().append_null();
    builder.values().append_value("b");
    builder.append(true);
    let mut all = columns(&["x"]);
    all[8].1 = Arc::new(builder.finish());
    let stored = parse_chunk_rows(&batch(all)).expect("readable");
    assert_eq!(stored[0].referenced_symbols, vec!["a", "b"]);
}

#[test]
fn the_measure_is_looked_for_first() {
    assert!(matches!(
        parse_search_batch(&batch(columns(&["a"]))),
        Err(StorageError::MalformedColumn("_distance"))
    ));
    let mut without_id = columns(&["a"]);
    without_id.remove(0);
    assert!(matches!(
        parse_fts_batch(&batch(without_id)),
        Err(StorageError::MalformedColumn("_score"))
    ));
    let found = parse_search_batch(&hits("_distance", &[("a", 0.25), ("b", 0.5)])).expect("hits");
    assert_eq!(found[1].chunk.id, "b");
    assert_eq!(found[1].distance, single(0.5));
}

#[test]
fn the_nearest_come_first() {
    let batches = vec![
        hits("_distance", &[("a", 0.5), ("b", -1.0), ("c", f32::NAN)]),
        hits("_distance", &[("d", 0.25), ("e", 0.5), ("f", -0.0), ("g", 0.0)]),
    ];
    let found = search_results(&batches).expect("hits");
    let order: Vec<&str> = found.iter().map(|h| h.chunk.id.as_str()).collect();
    assert_eq!(order, vec!["b", "f", "g", "d", "a", "e", "c"]);
}

#[test]
fn the_best_scores_come_first() {
    let batches = vec![
        hits("_score", &[("a", 1.5), ("b", 9.0)]),
        hits("_score", &[("c", 1.5), ("d", f32::INFINITY)]),
    ];
    let found = fts_results(&batches).expect("hits");
    let order: Vec<&str> = found.iter().map(|h| h.chunk.id.as_str()).collect();
    assert_eq!(order, vec!["d", "b", "a", "c"]);
}

#[test]
fn the_first_failure_of_several_batches_is_reported() {
    let mut bad = columns(&["a"]);
    bad.remove(7);
    let mut worse = columns(&["a"]);
    worse.remove(0);
    let batches = vec![batch(columns(&["ok"])), batch(bad), batch(worse)];
    assert!(matches!(
        stored_chunks(&batches),
        Err(StorageError::MalformedColumn("end_line"))
    ));
    let batches = vec![batch(columns(&["a", "b"])), batch(columns(&["c"]))];
    let ids: Vec<String> =
        stored_chunks(&batches).expect("readable").into_iter().map(|c| c.id).collect();
    assert_eq!(ids, vec!["a", "b", "c"]);
    assert!(matches!(
        search_results(&batches),
        Err(StorageError::MalformedColumn("_distance"))
    ));
    assert!(matches!(fts_results(&batches), Err(StorageError::MalformedColumn("_score"))));
}

#[test]
fn identifiers_are_told_from_other_names() {
    for name in ["f", "_x", "$y", "A9_$", "balanceOf"] {
        assert!(is_solidity_identifier(name), "{name}");
    }
    for name in ["", "9a", "a.b", "a b", "a'", "é", "aé"] {
        assert!(!is_solidity_identifier(name), "{name}");
    }
}

#[test]
fn path_filters_take_safe_segments_only() {
    assert_eq!(
        path_exclusion_filter(&["mocks/", "a'b", "", "test-1.y"]),
        Some("(file_path NOT LIKE '%mocks/%' AND file_path NOT LIKE '%test-1.y%')".to_owned())
    );
    assert_eq!(path_exclusion_filter(&["x%"]), None);
    assert_eq!(path_exclusion_filter(&[]), None);
}

#[test]
fn underscores_stand_for_themselves_in_path_filters() {
    assert_eq!(
        path_exclusion_filter(&["my_mocks/"]),
        Some(r"(file_path NOT LIKE '%my\_mocks/%' ESCAPE '\')".to_owned())
    );
    assert_eq!(
        path_exclusion_filter(&["test/", "_a__b_"]),
        Some(
            r"(file_path NOT LIKE '%test/%' AND file_path NOT LIKE '%\_a\_\_b\_%' ESCAPE '\')"
                .to_owned()
        )
    );
}

#[test]
fn name_filters_take_identifiers_only() {
    let names = vec!["transfer".to_owned(), "a-b".to_owned(), "Token".to_owned()];
    assert_eq!(
        name_filter(&names, &[]),
        Some(
            "(function_name IN ('transfer', 'Token') OR contract_name IN ('transfer', 'Token'))"
                .to_owned()
        )
    );
    assert_eq!(
        name_filter(&vec!["f".to_owned()], &["mocks/"]),
        Some(
            "(function_name IN ('f') OR contract_name IN ('f')) AND (file_path NOT LIKE '%mocks/%')"
                .to_owned()
        )
    );
    assert_eq!(name_filter(&vec!["x y".to_owned()], &["mocks/"]), None);
    assert_eq!(name_filter(&Vec::new(), &[]), None);
}

#[test]
fn tables_are_found_by_name() {
    let names = vec!["other".to_owned(), "solidity_chunks".to_owned()];
    assert!(table_exists(&names, "solidity_chunks"));
    assert!(!table_exists(&names, "solidity"));
    assert_eq!(scan_limit(0), 1);
    assert_eq!(scan_limit(7), 7);
}

fn vectors(rows: usize) -> ArrayRef {
    let data: Vec<Option<Vec<Option<f32>>>> = (0..rows).map(|_| Some(vec![Some(1.5)])).collect();
    Arc::new(FixedSizeListArray::from_iter_primitive::<Float32Type, _, _>(data, 1))
}

fn exportable(ids: &[&str]) -> Vec<(&'static str, ArrayRef)> {
    let mut all = columns(ids);
    all.push(("vector", vectors(ids.len())));
    all
}

fn export_message(columns: Vec<(&'static str, ArrayRef)>) -> String {
    match parse_batch(&batch(columns)) {
        Ok(_) => panic!("the batch was exported"),
        Err(error) => error.message(),
    }
}

#[test]
fn export_failures_say_what_is_wrong() {
    let without = |name: &str| -> Vec<(&'static str, ArrayRef)> {
        exportable(&["a"]).into_iter().filter(|c| c.0 != name).collect()
    };
    assert_eq!(export_message(without("kind")), "bad or missing string column `kind`");
    assert_eq!(export_message(without("end_line")), "bad or missing uint column `end_line`");
    assert_eq!(export_message(without("vector")), "bad or missing vector column");
    assert_eq!(
        export_message(without("referenced_symbols")),
        "bad or missing referenced_symbols column"
    );
    let mut wrong = without("vector");
    let integers: Vec<Option<Vec<Option<i32>>>> = vec![Some(vec![Some(1)])];
    wrong.push((
        "vector",
        Arc::new(FixedSizeListArray::from_iter_primitive::<arrow_array::types::Int32Type, _, _>(
            integers, 1,
        )),
    ));
    assert_eq!(export_message(wrong), "bad vector value at row 0");
    let mut wrong = without("referenced_symbols");
    let integers: Vec<Option<Vec<Option<i32>>>> = vec![Some(vec![Some(1)])];
    wrong.push((
        "referenced_symbols",
        Arc::new(ListArray::from_iter_primitive::<arrow_array::types::Int32Type, _, _>(integers)),
    ));
    assert_eq!(export_message(wrong), "bad referenced_symbols value at row 0");
    assert_eq!(ExportError::VectorValue(17).message(), "bad vector value at row 17");
}

#[test]
fn exported_rows_hold_their_vectors() {
    let rows = parse_batch(&batch(exportable(&["a", "b"]))).expect("exportable");
    assert_eq!(rows.len(), 2);
    assert_eq!(rows[1].id, "b");
    assert_eq!(rows[1].vector, vec![single(1.5)]);
}
