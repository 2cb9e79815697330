//! Promises of the table: what a filter lets through, what a row holds, and in what
//! order hits come.
use arrow_schema::SchemaRef;
use vstd::prelude::*;
use vstd::string::*;
use vstd::utf8::*;

use crate::chunker::{SemanticChunk, SemanticChunkView};
use crate::columns::{
    all_present, as_numbers, as_texts, batch_columns, batch_rows, by_name, column_at, field_names,
    flattened, schema_fields, total_bytes, vector_bits, Batch, ColumnData,
};
use crate::export::{export_rows, parse_batch, AnalysisRow, ExportError, ExportErrorView};
use crate::float::{order_key, Single};
use crate::laws::retrieval::{builtins_belong_to_the_language, is_name};
use crate::laws::sorting::{sorting_orders, sorting_permutes};
use crate::ordered::viewed;
use crate::parser::{kind_name, DefinitionKind};
use crate::storage::{
    all_chunk_rows, all_hit_rows, ascending_keys, batch_limits, batch_views, best_first,
    build_record_batch, chunk_columns, chunk_fields, chunk_rows, chunk_schema, column_fits,
    descending_keys, escaped, exclusion, exclusion_filter, exclusions, fts_results, hit_rows,
    identifiers_hold_no_quotes, is_path_char, is_path_segment, is_solidity_identifier,
    lemma_column_by_name, lemma_escaped_chars, lemma_flattened_len, like, malformed, name_filter,
    names_filter, nearest_first, parse_chunk_rows, parse_fts_batch, parse_search_batch,
    path_exclusion_filter, path_segments_hold_no_quotes, patterns_match_paths_with_the_segment,
    present, quoted, scan_limit, search_results, stored_chunks, stored_of, str_views, symbol_lists,
    table_exists, written_chunks_are_read_back, FtsResult, HitView, SearchResult, StorageError,
    StoredChunk, StoredChunkView,
};
use crate::text::{contains_text, decimal, joined, views};

verus! {

// ---------------------------------------------------------------- conditions

/// A segment that a filter can hold: letters, digits, slashes, underscores, dashes and
/// dots.
pub open spec fn is_usable(segment: Seq<char>) -> bool {
    &&& segment.len() > 0
    &&& forall|i: int|
        0 <= i < segment.len() ==> {
            let code = (#[trigger] segment[i]) as int;
            ||| 65 <= code <= 90
            ||| 97 <= code <= 122
            ||| 47 <= code <= 57
            ||| code == 95 || code == 45 || code == 46
        }
}

/// Conditions that all have to hold.
pub open spec fn all_of(conditions: Seq<Seq<char>>) -> Seq<char>
    decreases conditions.len(),
{
    if conditions.len() == 0 {
        Seq::empty()
    } else if conditions.len() == 1 {
        conditions[0]
    } else {
        conditions[0] + " AND "@ + all_of(conditions.drop_first())
    }
}

/// A condition says that the path does not match a pattern. The pattern ends with its
/// literal, and has a backslash in it only where the condition says what that is for.
pub open spec fn denies(condition: Seq<char>, pattern: Seq<char>) -> bool {
    &&& !pattern.contains('\'')
    &&& {
        ||| !pattern.contains('\\') && condition == "file_path NOT LIKE '"@ + pattern + "'"@
        ||| condition == "file_path NOT LIKE '"@ + pattern + "' ESCAPE '\\'"@
    }
}

/// A filter says that the path matches none of the patterns.
pub open spec fn denies_all(filter: Seq<char>, patterns: Seq<Seq<char>>) -> bool {
    exists|conditions: Seq<Seq<char>>|
        conditions.len() == patterns.len() && patterns.len() > 0 && filter == "("@
            + #[trigger] all_of(conditions) + ")"@ && forall|i: int|
            0 <= i < patterns.len() ==> denies(conditions[i], #[trigger] patterns[i])
}

proof fn lemma_usable(segment: Seq<char>)
    ensures
        is_path_segment(segment) <==> is_usable(segment),
{
    if is_path_segment(segment) {
        assert forall|i: int| 0 <= i < segment.len() implies ({
            let code = (#[trigger] segment[i]) as int;
            ||| 65 <= code <= 90
            ||| 97 <= code <= 122
            ||| 47 <= code <= 57
            ||| code == 95 || code == 45 || code == 46
        }) by {
            assert(is_path_char(segment[i]));
        }
    }
    if is_usable(segment) {
        assert forall|i: int| 0 <= i < segment.len() implies is_path_char(#[trigger] segment[i]) by {
        }
    }
}

proof fn lemma_all_of(conditions: Seq<Seq<char>>)
    ensures
        joined(conditions, " AND "@) == all_of(conditions),
    decreases conditions.len(),
{
    if conditions.len() > 1 {
        lemma_all_of(conditions.drop_first());
    }
}

proof fn lemma_exclusion(segment: Seq<char>)
    requires
        is_usable(segment),
    ensures
        denies(exclusion(segment), seq!['%'] + escaped(segment) + seq!['%']),
{
    lemma_usable(segment);
    path_segments_hold_no_quotes(segment);
    lemma_escaped_chars(segment);
    patterns_match_paths_with_the_segment(segment, Seq::empty());
    let pattern = seq!['%'] + escaped(segment) + seq!['%'];
    reveal_strlit("file_path NOT LIKE '%");
    reveal_strlit("file_path NOT LIKE '");
    reveal_strlit("%'");
    reveal_strlit("'");
    reveal_strlit(" ESCAPE '\\'");
    reveal_strlit("' ESCAPE '\\'");
    assert(pattern[0] == '%');
    assert(!pattern.contains('\'')) by {
        if pattern.contains('\'') {
            let i = pattern.index_of('\'');
            assert(0 < i < pattern.len() - 1);
            assert(escaped(segment)[i - 1] == '\'');
        }
    }
    assert("file_path NOT LIKE '%"@ =~= "file_path NOT LIKE '"@ + seq!['%']);
    assert("%'"@ =~= seq!['%'] + "'"@);
    if segment.contains('_') {
        assert("'"@ + " ESCAPE '\\'"@ =~= "' ESCAPE '\\'"@);
        assert(exclusion(segment) =~= "file_path NOT LIKE '"@ + pattern + "' ESCAPE '\\'"@);
    } else {
        assert(escaped(segment) == segment);
        assert(!pattern.contains('\\')) by {
            if pattern.contains('\\') {
                let i = pattern.index_of('\\');
                assert(0 < i < pattern.len() - 1);
                assert(segment[i - 1] == '\\');
                assert(is_path_char(segment[i - 1]));
            }
        }
        assert(exclusion(segment) =~= "file_path NOT LIKE '"@ + pattern + "'"@);
    }
}

/// What a filter holds against a path: the patterns that deny it.
proof fn lemma_exclusions(segments: Seq<Seq<char>>) -> (patterns: Seq<Seq<char>>)
    ensures
        patterns.len() == exclusions(segments).len(),
        forall|i: int|
            0 <= i < patterns.len() ==> denies(exclusions(segments)[i], #[trigger] patterns[i]),
        forall|path: Seq<char>| #[trigger]
            is_excluded(segments, path) <==> matches_any(patterns, path),
        patterns.len() == 0 <==> forall|k: int|
            0 <= k < segments.len() ==> !is_usable(#[trigger] segments[k]),
    decreases segments.len(),
{
    if segments.len() == 0 {
        let patterns: Seq<Seq<char>> = Seq::empty();
        assert forall|path: Seq<char>| #[trigger] is_excluded(segments, path) <==> matches_any(
            patterns,
            path,
        ) by {
        }
        patterns
    } else {
        let rest = segments.drop_last();
        let segment = segments.last();
        let before = lemma_exclusions(rest);
        lemma_usable(segment);
        assert forall|k: int| 0 <= k < rest.len() implies segments[k] == #[trigger] rest[k] by {}
        if is_usable(segment) {
            let pattern = seq!['%'] + escaped(segment) + seq!['%'];
            lemma_exclusion(segment);
            let patterns = before.push(pattern);
            assert forall|i: int| 0 <= i < patterns.len() implies denies(
                exclusions(segments)[i],
                #[trigger] patterns[i],
            ) by {
                if i < before.len() {
                    assert(patterns[i] == before[i]);
                }
            }
            assert forall|path: Seq<char>| #[trigger] is_excluded(segments, path) <==> matches_any(
                patterns,
                path,
            ) by {
                patterns_match_paths_with_the_segment(segment, path);
                lemma_excluded_grows(segments, path);
                lemma_matches_grow(before, pattern, path);
                assert(is_excluded(rest, path) <==> matches_any(before, path));
            }
            assert(is_usable(segments[segments.len() - 1]));
            patterns
        } else {
            assert forall|path: Seq<char>| #[trigger] is_excluded(segments, path) <==> matches_any(
                before,
                path,
            ) by {
                lemma_excluded_grows(segments, path);
                assert(is_excluded(rest, path) <==> matches_any(before, path));
            }
            assert forall|k: int|
                0 <= k < segments.len() && is_usable(#[trigger] segments[k]) implies k < rest.len()
                && is_usable(rest[k]) by {
            }
            if before.len() > 0 {
                let k = choose|k: int| 0 <= k < rest.len() && is_usable(#[trigger] rest[k]);
                assert(is_usable(segments[k]));
            }
            before
        }
    }
}

/// A path contains one of the usable segments.
pub open spec fn is_excluded(segments: Seq<Seq<char>>, path: Seq<char>) -> bool {
    exists|k: int|
        0 <= k < segments.len() && is_usable(#[trigger] segments[k]) && contains_text(
            path,
            segments[k],
        )
}

/// A path matches one of the patterns.
pub open spec fn matches_any(patterns: Seq<Seq<char>>, path: Seq<char>) -> bool {
    exists|i: int| 0 <= i < patterns.len() && like(#[trigger] patterns[i], path)
}

proof fn lemma_excluded_grows(segments: Seq<Seq<char>>, path: Seq<char>)
    requires
        segments.len() > 0,
    ensures
        is_excluded(segments, path) <==> is_excluded(segments.drop_last(), path) || is_usable(
            segments.last(),
        ) && contains_text(path, segments.last()),
{
    let rest = segments.drop_last();
    if is_excluded(segments, path) {
        let k = choose|k: int|
            0 <= k < segments.len() && is_usable(#[trigger] segments[k]) && contains_text(
                path,
                segments[k],
            );
        if k < rest.len() {
            assert(is_usable(rest[k]));
        }
    }
    if is_excluded(rest, path) {
        let k = choose|k: int|
            0 <= k < rest.len() && is_usable(#[trigger] rest[k]) && contains_text(path, rest[k]);
        assert(is_usable(segments[k]));
    }
    if is_usable(segments.last()) && contains_text(path, segments.last()) {
        assert(is_usable(segments[segments.len() - 1]));
    }
}

proof fn lemma_matches_grow(patterns: Seq<Seq<char>>, pattern: Seq<char>, path: Seq<char>)
    ensures
        matches_any(patterns.push(pattern), path) <==> matches_any(patterns, path) || like(
            pattern,
            path,
        ),
{
    let all = patterns.push(pattern);
    if matches_any(all, path) {
        let i = choose|i: int| 0 <= i < all.len() && like(#[trigger] all[i], path);
        if i < patterns.len() {
            assert(like(patterns[i], path));
        }
    }
    if matches_any(patterns, path) {
        let i = choose|i: int| 0 <= i < patterns.len() && like(#[trigger] patterns[i], path);
        assert(like(all[i], path));
    }
    if like(pattern, path) {
        assert(like(all[patterns.len() as int], path));
    }
}

/// Read as a condition, a path filter holds of a path if the path contains none of the
/// usable segments, however many there are; there is no filter where none is usable.
pub proof fn path_filters_let_other_paths_through(segments: Seq<Seq<char>>) -> (patterns: Seq<
    Seq<char>,
>)
    ensures
        exclusion_filter(segments) is None <==> forall|k: int|
            0 <= k < segments.len() ==> !is_usable(#[trigger] segments[k]),
        exclusion_filter(segments) is Some ==> denies_all(exclusion_filter(segments)->0, patterns),
        forall|path: Seq<char>|
            !(#[trigger] matches_any(patterns, path)) <==> !is_excluded(segments, path),
{
    let patterns = lemma_exclusions(segments);
    let conditions = exclusions(segments);
    lemma_all_of(conditions);
    if patterns.len() > 0 {
        assert(exclusion_filter(segments)->0 == "("@ + all_of(conditions) + ")"@);
        assert(denies_all(exclusion_filter(segments)->0, patterns));
    }
    assert forall|path: Seq<char>|
        !(#[trigger] matches_any(patterns, path)) <==> !is_excluded(segments, path) by {
        assert(is_excluded(segments, path) <==> matches_any(patterns, path));
    }
    patterns
}

/// A list of literals.
pub open spec fn literals(names: Seq<Seq<char>>) -> Seq<char>
    decreases names.len(),
{
    if names.len() == 0 {
        Seq::empty()
    } else if names.len() == 1 {
        "'"@ + names[0] + "'"@
    } else {
        "'"@ + names[0] + "'"@ + ", "@ + literals(names.drop_first())
    }
}

/// The names among others that can stand in a filter.
pub open spec fn usable_names(names: Seq<Seq<char>>) -> Seq<Seq<char>> {
    names.filter(|name: Seq<char>| is_name(name))
}

proof fn lemma_literals(names: Seq<Seq<char>>, list: Seq<Seq<char>>)
    requires
        list.len() == names.len(),
        forall|i: int| 0 <= i < names.len() ==> #[trigger] list[i] == "'"@ + names[i] + "'"@,
    ensures
        joined(list, ", "@) == literals(names),
    decreases names.len(),
{
    if names.len() > 1 {
        let fewer = names.drop_first();
        let rest = list.drop_first();
        assert forall|i: int| 0 <= i < fewer.len() implies #[trigger] rest[i] == "'"@ + fewer[i]
            + "'"@ by {
            assert(rest[i] == list[i + 1]);
        }
        lemma_literals(fewer, rest);
        assert(joined(list, ", "@) == list[0] + ", "@ + joined(rest, ", "@));
    }
}

proof fn lemma_quoted(names: Seq<Seq<char>>)
    ensures
        quoted(names).len() == usable_names(names).len(),
        forall|i: int|
            0 <= i < quoted(names).len() ==> #[trigger] quoted(names)[i] == "'"@ + usable_names(
                names,
            )[i] + "'"@,
    decreases names.len(),
{
    reveal(Seq::filter);
    if names.len() > 0 {
        lemma_quoted(names.drop_last());
        builtins_belong_to_the_language(names.last());
    }
}

/// Read as a condition, a name filter holds of a row if its function or its contract
/// has one of the names that are identifiers, and its path filter holds too; there is
/// no filter where no name is one.
pub proof fn name_filters_ask_for_functions_and_contracts(
    names: Seq<Seq<char>>,
    segments: Seq<Seq<char>>,
    name: Seq<char>,
)
    ensures
        names_filter(names, segments) is None <==> usable_names(names).len() == 0,
        usable_names(names).contains(name) <==> names.contains(name) && is_name(name),
        is_name(name) ==> !name.contains('\''),
        usable_names(names).len() > 0 && exclusion_filter(segments) is None ==> names_filter(
            names,
            segments,
        ) == Some(
            "(function_name IN ("@ + literals(usable_names(names)) + ") OR contract_name IN ("@
                + literals(usable_names(names)) + "))"@,
        ),
        usable_names(names).len() > 0 && exclusion_filter(segments) is Some ==> names_filter(
            names,
            segments,
        ) == Some(
            "(function_name IN ("@ + literals(usable_names(names)) + ") OR contract_name IN ("@
                + literals(usable_names(names)) + "))"@ + " AND "@ + exclusion_filter(segments)->0,
        ),
{
    lemma_quoted(names);
    lemma_literals(usable_names(names), quoted(names));
    builtins_belong_to_the_language(name);
    let named = |name: Seq<char>| is_name(name);
    if usable_names(names).contains(name) {
        let i = usable_names(names).index_of(name);
        names.lemma_filter_pred(named, i);
        lemma_filtered_from(names, named, i);
    }
    if names.contains(name) && is_name(name) {
        let i = names.index_of(name);
        names.lemma_filter_contains(named, i);
    }
    if is_name(name) {
        identifiers_hold_no_quotes(name);
    }
}

proof fn lemma_filtered_from<T>(items: Seq<T>, wanted: spec_fn(T) -> bool, i: int)
    requires
        0 <= i < items.filter(wanted).len(),
    ensures
        items.contains(items.filter(wanted)[i]),
    decreases items.len(),
{
    reveal(Seq::filter);
    if items.len() > 0 {
        let rest = items.drop_last();
        let item = items.filter(wanted)[i];
        if i < rest.filter(wanted).len() {
            lemma_filtered_from(rest, wanted, i);
            assert(items[rest.index_of(item)] == item);
        } else {
            assert(items[items.len() - 1] == item);
        }
    }
}

// ---------------------------------------------------------------- rows

/// What is stored of a chunk is what it says, each thing for itself.
pub proof fn chunks_are_stored_as_they_are(chunk: SemanticChunkView)
    ensures
        stored_of(chunk).id == chunk.id,
        stored_of(chunk).file_path == chunk.source.file_path,
        stored_of(chunk).contract_name == chunk.source.contract_name,
        stored_of(chunk).function_name == chunk.source.function_name,
        stored_of(chunk).code_content == chunk.source.code_content,
        stored_of(chunk).referenced_symbols == chunk.source.referenced_symbols,
        chunk.source.start_line <= u32::MAX ==> stored_of(chunk).start_line
            == chunk.source.start_line,
        chunk.source.end_line <= u32::MAX ==> stored_of(chunk).end_line == chunk.source.end_line,
        stored_of(chunk).kind == match chunk.source.kind {
            DefinitionKind::Function => "function"@,
            DefinitionKind::Constructor => "constructor"@,
            DefinitionKind::Modifier => "modifier"@,
            DefinitionKind::FallbackOrReceive => "fallback_or_receive"@,
        },
{
}

/// Each column of a written batch holds, row by row, what its name says.
pub proof fn columns_hold_what_their_names_say(
    chunks: Seq<SemanticChunkView>,
    vectors: Seq<Seq<u32>>,
    size: i32,
    i: int,
)
    requires
        0 <= i < chunks.len(),
    ensures
        ({
            let batch = by_name(field_names(chunk_fields(size)), chunk_columns(chunks, vectors));
            let chunk = chunks[i];
            &&& as_texts(column_at(batch, "id"@)) is Some
            &&& as_texts(column_at(batch, "id"@))->0[i] == chunk.id
            &&& as_texts(column_at(batch, "file_path"@)) is Some
            &&& as_texts(column_at(batch, "file_path"@))->0[i] == chunk.source.file_path
            &&& as_texts(column_at(batch, "contract_name"@)) is Some
            &&& as_texts(column_at(batch, "contract_name"@))->0[i] == chunk.source.contract_name
            &&& as_texts(column_at(batch, "function_name"@)) is Some
            &&& as_texts(column_at(batch, "function_name"@))->0[i] == chunk.source.function_name
            &&& as_texts(column_at(batch, "code_content"@)) is Some
            &&& as_texts(column_at(batch, "code_content"@))->0[i] == chunk.source.code_content
            &&& as_texts(column_at(batch, "kind"@)) is Some
            &&& as_texts(column_at(batch, "kind"@))->0[i] == stored_of(chunk).kind
            &&& as_numbers(column_at(batch, "start_line"@)) is Some
            &&& as_numbers(column_at(batch, "start_line"@))->0[i] == chunk.source.start_line as u32
            &&& as_numbers(column_at(batch, "end_line"@)) is Some
            &&& as_numbers(column_at(batch, "end_line"@))->0[i] == chunk.source.end_line as u32
            &&& column_at(batch, "referenced_symbols"@) is TextLists
            &&& column_at(batch, "referenced_symbols"@)->TextLists_0[i] == all_present(
                chunk.source.referenced_symbols,
            )
            &&& column_at(batch, "vector"@) is Vectors
        }),
{
    let names = field_names(chunk_fields(size));
    let data = chunk_columns(chunks, vectors);
    lemma_column_by_name(size, data, 0);
    lemma_column_by_name(size, data, 1);
    lemma_column_by_name(size, data, 2);
    lemma_column_by_name(size, data, 3);
    lemma_column_by_name(size, data, 4);
    lemma_column_by_name(size, data, 5);
    lemma_column_by_name(size, data, 6);
    lemma_column_by_name(size, data, 7);
    lemma_column_by_name(size, data, 8);
    lemma_column_by_name(size, data, 9);
    assert(names[0] == "id"@ && names[1] == "vector"@ && names[2] == "file_path"@);
    assert(names[3] == "contract_name"@ && names[4] == "function_name"@);
    assert(names[5] == "code_content"@ && names[6] == "referenced_symbols"@);
    assert(names[7] == "kind"@ && names[8] == "start_line"@ && names[9] == "end_line"@);
    assert(symbol_lists(chunks)[i] == chunks[i].source.referenced_symbols);
}

/// The symbols of a row are those that are there, in their order.
pub proof fn missing_symbols_are_left_out(
    texts: Seq<Option<Seq<char>>>,
    symbols: Seq<Seq<char>>,
    symbol: Seq<char>,
)
    ensures
        present(Seq::empty()).len() == 0,
        present(texts.push(None)) == present(texts),
        present(texts.push(Some(symbol))) == present(texts).push(symbol),
        present(all_present(symbols)) == symbols,
    decreases symbols.len(),
{
    assert(texts.push(None).drop_last() =~= texts);
    assert(texts.push(Some(symbol)).drop_last() =~= texts);
    if symbols.len() > 0 {
        missing_symbols_are_left_out(texts, symbols.drop_last(), symbol);
        assert(all_present(symbols).drop_last() =~= all_present(symbols.drop_last()));
        assert(symbols.drop_last().push(symbols.last()) =~= symbols);
    } else {
        assert(all_present(symbols).len() == 0);
        assert(present(all_present(symbols)) =~= symbols);
    }
}

/// The columns that rows are read from have the right types.
pub open spec fn is_readable(columns: Map<Seq<char>, ColumnData>, rows: nat) -> bool {
    &&& column_at(columns, "id"@) is Texts
    &&& column_at(columns, "file_path"@) is Texts
    &&& column_at(columns, "contract_name"@) is Texts
    &&& column_at(columns, "function_name"@) is Texts
    &&& column_at(columns, "code_content"@) is Texts
    &&& column_at(columns, "kind"@) is Texts
    &&& column_at(columns, "start_line"@) is Numbers
    &&& column_at(columns, "end_line"@) is Numbers
    &&& column_at(columns, "referenced_symbols"@) is TextLists || rows == 0 && column_at(
        columns,
        "referenced_symbols"@,
    ) is OtherLists
}

/// A batch is read if its columns have the right types, and each row is then what the
/// columns of that name hold in it.
pub proof fn rows_are_read_from_their_columns(
    columns: Map<Seq<char>, ColumnData>,
    rows: nat,
    i: int,
)
    ensures
        chunk_rows(columns, rows) is Ok <==> is_readable(columns, rows),
        is_readable(columns, rows) ==> (chunk_rows(columns, rows)->Ok_0).len() == rows,
        is_readable(columns, rows) && 0 <= i < rows ==> {
            let row = chunk_rows(columns, rows)->Ok_0[i];
            &&& row.id == column_at(columns, "id"@)->Texts_0[i]
            &&& row.file_path == column_at(columns, "file_path"@)->Texts_0[i]
            &&& row.contract_name == column_at(columns, "contract_name"@)->Texts_0[i]
            &&& row.function_name == column_at(columns, "function_name"@)->Texts_0[i]
            &&& row.code_content == column_at(columns, "code_content"@)->Texts_0[i]
            &&& row.kind == column_at(columns, "kind"@)->Texts_0[i]
            &&& row.start_line == column_at(columns, "start_line"@)->Numbers_0[i]
            &&& row.end_line == column_at(columns, "end_line"@)->Numbers_0[i]
            &&& i < column_at(columns, "referenced_symbols"@)->TextLists_0.len()
                ==> row.referenced_symbols == present(
                column_at(columns, "referenced_symbols"@)->TextLists_0[i],
            )
        },
{
    if is_readable(columns, rows) {
        assert(malformed(columns, rows) is None);
    }
}

/// The rows of further batches follow those of earlier ones, and one batch that cannot
/// be read is enough for an error.
pub proof fn batches_are_read_one_after_the_other(
    batches: Seq<(Map<Seq<char>, ColumnData>, nat)>,
    columns: Map<Seq<char>, ColumnData>,
    rows: nat,
    measure: Seq<char>,
)
    ensures
        all_chunk_rows(Seq::empty()) == Ok::<Seq<StoredChunkView>, Seq<char>>(Seq::empty()),
        all_chunk_rows(batches.push((columns, rows))) is Ok <==> all_chunk_rows(batches) is Ok
            && chunk_rows(columns, rows) is Ok,
        all_chunk_rows(batches.push((columns, rows))) is Ok ==> all_chunk_rows(
            batches.push((columns, rows)),
        )->Ok_0 == all_chunk_rows(batches)->Ok_0 + chunk_rows(columns, rows)->Ok_0,
        all_hit_rows(Seq::empty(), measure) == Ok::<Seq<HitView>, Seq<char>>(Seq::empty()),
        all_hit_rows(batches.push((columns, rows)), measure) is Ok <==> all_hit_rows(
            batches,
            measure,
        ) is Ok && hit_rows(columns, rows, measure) is Ok,
        all_hit_rows(batches.push((columns, rows)), measure) is Ok ==> all_hit_rows(
            batches.push((columns, rows)),
            measure,
        )->Ok_0 == all_hit_rows(batches, measure)->Ok_0 + hit_rows(columns, rows, measure)->Ok_0,
{
    assert(batches.push((columns, rows)).drop_last() =~= batches);
}

/// A hit is a row with what the search measured for it.
pub proof fn hits_are_rows_with_their_measures(
    columns: Map<Seq<char>, ColumnData>,
    rows: nat,
    measure: Seq<char>,
    i: int,
)
    ensures
        hit_rows(columns, rows, measure) is Ok <==> is_readable(columns, rows) && column_at(
            columns,
            measure,
        ) is Singles,
        hit_rows(columns, rows, measure) is Ok ==> (hit_rows(columns, rows, measure)->Ok_0).len()
            == rows,
        hit_rows(columns, rows, measure) is Ok && 0 <= i < rows ==> {
            let hit = hit_rows(columns, rows, measure)->Ok_0[i];
            &&& hit.chunk == chunk_rows(columns, rows)->Ok_0[i]
            &&& hit.measure == column_at(columns, measure)->Singles_0[i]
        },
{
    rows_are_read_from_their_columns(columns, rows, i);
}

/// A batch is exported if its rows can be read and its vectors are numbers, and each
/// row is then exported with its vector.
pub proof fn rows_are_exported_with_their_vectors(
    columns: Map<Seq<char>, ColumnData>,
    rows: nat,
    i: int,
)
    ensures
        export_rows(columns, rows) is Ok <==> is_readable(columns, rows) && (column_at(
            columns,
            "vector"@,
        ) is Vectors || rows == 0 && column_at(columns, "vector"@) is OtherVectors),
        export_rows(columns, rows) is Ok ==> (export_rows(columns, rows)->Ok_0).len() == rows,
        export_rows(columns, rows) is Ok && 0 <= i < rows ==> {
            let row = export_rows(columns, rows)->Ok_0[i];
            &&& row.chunk == chunk_rows(columns, rows)->Ok_0[i]
            &&& i < column_at(columns, "vector"@)->Vectors_0.len() ==> row.vector == column_at(
                columns,
                "vector"@,
            )->Vectors_0[i]
        },
{
    rows_are_read_from_their_columns(columns, rows, i);
}

// ---------------------------------------------------------------- order of hits

/// One single-precision number, given by its bits, is smaller than another: negative
/// ones are smaller than the others, and the farther from zero the smaller.
pub open spec fn is_smaller(a: u32, b: u32) -> bool {
    if a >= 0x8000_0000 && b >= 0x8000_0000 {
        a > b
    } else if a >= 0x8000_0000 {
        true
    } else if b >= 0x8000_0000 {
        false
    } else {
        a < b
    }
}

/// Sorting hits loses none of them, and adds none.
pub proof fn all_hits_are_kept(hits: Seq<HitView>, sorted: Seq<HitView>)
    requires
        nearest_first(hits, sorted) || best_first(hits, sorted),
    ensures
        sorted.to_multiset() == hits.to_multiset(),
        sorted.len() == hits.len(),
{
    if nearest_first(hits, sorted) {
        sorting_permutes::<u32, HitView>(ascending_keys(hits), hits, sorted);
    } else {
        sorting_permutes::<u32, HitView>(descending_keys(hits), hits, sorted);
    }
}

/// Hits of the vector search come nearest first: none stands behind a farther one, and
/// as near ones stay as they were.
pub proof fn nearer_hits_come_first(hits: Seq<HitView>, sorted: Seq<HitView>, i: int, j: int)
    requires
        nearest_first(hits, sorted),
        0 <= i < j < sorted.len(),
    ensures
        !is_smaller(sorted[j].measure, sorted[i].measure),
        sorted[i].measure == sorted[j].measure ==> exists|a: int, b: int|
            0 <= a < b < hits.len() && #[trigger] hits[a] == sorted[i] && #[trigger] hits[b]
                == sorted[j],
{
    let keys = ascending_keys(hits);
    let (a, b) = sorting_orders::<u32, HitView>(keys, hits, sorted, i, j);
    assert(keys[a] == order_key(hits[a].measure) as u32);
    assert(keys[b] == order_key(hits[b].measure) as u32);
    if sorted[i].measure == sorted[j].measure {
        assert(hits[a] == sorted[i] && hits[b] == sorted[j]);
    }
}

/// Hits of the text search come best first.
pub proof fn better_hits_come_first(hits: Seq<HitView>, sorted: Seq<HitView>, i: int, j: int)
    requires
        best_first(hits, sorted),
        0 <= i < j < sorted.len(),
    ensures
        !is_smaller(sorted[i].measure, sorted[j].measure),
        sorted[i].measure == sorted[j].measure ==> exists|a: int, b: int|
            0 <= a < b < hits.len() && #[trigger] hits[a] == sorted[i] && #[trigger] hits[b]
                == sorted[j],
{
    let keys = descending_keys(hits);
    let (a, b) = sorting_orders::<u32, HitView>(keys, hits, sorted, i, j);
    assert(keys[a] == (0xffff_ffff - order_key(hits[a].measure)) as u32);
    assert(keys[b] == (0xffff_ffff - order_key(hits[b].measure)) as u32);
    if sorted[i].measure == sorted[j].measure {
        assert(hits[a] == sorted[i] && hits[b] == sorted[j]);
    }
}

// ---------------------------------------------------------------- the calls

/// Asking for a path filter answers with a condition that holds of a path if it
/// contains none of the usable segments, and with nothing where none is usable.
pub proof fn filtering_paths_answers_with_all_segments(
    segments: &[&str],
    filter: Option<String>,
) -> (patterns: Seq<Seq<char>>)
    requires
        call_ensures(path_exclusion_filter, (segments,), filter),
    ensures
        filter is None <==> forall|k: int|
            0 <= k < segments@.len() ==> !is_usable((#[trigger] segments@[k])@),
        filter is Some ==> denies_all(filter->0@, patterns),
        forall|path: Seq<char>|
            !(#[trigger] matches_any(patterns, path)) <==> forall|k: int|
                0 <= k < segments@.len() && is_usable((#[trigger] segments@[k])@)
                    ==> !contains_text(path, segments@[k]@),
{
    let all = str_views(segments@);
    assert forall|k: int| 0 <= k < segments@.len() implies all[k] == (#[trigger] segments@[k])@ by {
    }
    let patterns = path_filters_let_other_paths_through(all);
    if filter is None {
        assert forall|k: int| 0 <= k < segments@.len() implies !is_usable(
            (#[trigger] segments@[k])@,
        ) by {
            assert(!is_usable(all[k]));
        }
    }
    if forall|k: int| 0 <= k < segments@.len() ==> !is_usable((#[trigger] segments@[k])@) {
        assert forall|k: int| 0 <= k < all.len() implies !is_usable(#[trigger] all[k]) by {
            assert(!is_usable(segments@[k]@));
        }
    }
    assert forall|path: Seq<char>|
        !(#[trigger] matches_any(patterns, path)) <==> forall|k: int|
            0 <= k < segments@.len() && is_usable((#[trigger] segments@[k])@) ==> !contains_text(
                path,
                segments@[k]@,
            ) by {
        if is_excluded(all, path) {
            let k = choose|k: int|
                0 <= k < all.len() && is_usable(#[trigger] all[k]) && contains_text(path, all[k]);
            assert(is_usable(segments@[k]@));
        } else {
            assert forall|k: int|
                0 <= k < segments@.len() && is_usable(
                    (#[trigger] segments@[k])@,
                ) implies !contains_text(path, segments@[k]@) by {
                assert(is_usable(all[k]));
            }
        }
    }
    patterns
}

/// Asking for a name filter answers with a condition on function and contract names,
/// together with the path filter.
pub proof fn filtering_names_answers_with_all_names(
    names: &Vec<String>,
    segments: &[&str],
    filter: Option<String>,
    paths: Option<String>,
)
    requires
        call_ensures(name_filter, (names, segments), filter),
        call_ensures(path_exclusion_filter, (segments,), paths),
    ensures
        ({
            let usable = views(names@).filter(|name: Seq<char>| is_name(name));
            let named = "(function_name IN ("@ + literals(usable) + ") OR contract_name IN ("@
                + literals(usable) + "))"@;
            &&& filter is None <==> usable.len() == 0
            &&& usable.len() > 0 && paths is None ==> filter->0@ == named
            &&& usable.len() > 0 && paths is Some ==> filter->0@ == named + " AND "@ + paths->0@
        }),
{
    name_filters_ask_for_functions_and_contracts(
        views(names@),
        str_views(segments@),
        Seq::empty(),
    );
}

/// Reading a batch answers with its rows, if its columns can be read.
pub proof fn reading_answers_with_the_rows(
    batch: &Batch,
    chunks: Result<Vec<StoredChunk>, StorageError>,
)
    requires
        call_ensures(parse_chunk_rows, (batch,), chunks),
    ensures
        chunks is Ok <==> is_readable(batch_columns(*batch), batch_rows(*batch)),
        chunks is Ok ==> Ok::<Seq<StoredChunkView>, Seq<char>>(viewed(chunks->Ok_0@)) == chunk_rows(
            batch_columns(*batch),
            batch_rows(*batch),
        ),
{
    rows_are_read_from_their_columns(batch_columns(*batch), batch_rows(*batch), 0);
}

/// A search answers with all hits, nearest first.
pub proof fn searching_answers_nearest_first(
    batches: &Vec<Batch>,
    hits: Result<Vec<SearchResult>, StorageError>,
)
    requires
        call_ensures(search_results, (batches,), hits),
    ensures
        ({
            let rows = all_hit_rows(batch_views(batches@), "_distance"@);
            &&& hits is Ok <==> rows is Ok
            &&& hits is Ok ==> viewed(hits->Ok_0@).to_multiset() == (rows->Ok_0).to_multiset()
            &&& hits is Ok ==> forall|i: int, j: int|
                0 <= i < j < hits->Ok_0@.len() ==> !is_smaller(
                    (#[trigger] viewed(hits->Ok_0@)[j]).measure,
                    (#[trigger] viewed(hits->Ok_0@)[i]).measure,
                )
        }),
{
    let rows = all_hit_rows(batch_views(batches@), "_distance"@);
    if hits is Ok {
        let sorted = viewed(hits->Ok_0@);
        all_hits_are_kept(rows->Ok_0, sorted);
        assert forall|i: int, j: int| 0 <= i < j < sorted.len() implies !is_smaller(
            (#[trigger] sorted[j]).measure,
            (#[trigger] sorted[i]).measure,
        ) by {
            nearer_hits_come_first(rows->Ok_0, sorted, i, j);
        }
    }
}

/// A text search answers with all hits, best first.
pub proof fn searching_text_answers_best_first(
    batches: &Vec<Batch>,
    hits: Result<Vec<FtsResult>, StorageError>,
)
    requires
        call_ensures(fts_results, (batches,), hits),
    ensures
        ({
            let rows = all_hit_rows(batch_views(batches@), "_score"@);
            &&& hits is Ok <==> rows is Ok
            &&& hits is Ok ==> viewed(hits->Ok_0@).to_multiset() == (rows->Ok_0).to_multiset()
            &&& hits is Ok ==> forall|i: int, j: int|
                0 <= i < j < hits->Ok_0@.len() ==> !is_smaller(
                    (#[trigger] viewed(hits->Ok_0@)[i]).measure,
                    (#[trigger] viewed(hits->Ok_0@)[j]).measure,
                )
        }),
{
    let rows = all_hit_rows(batch_views(batches@), "_score"@);
    if hits is Ok {
        let sorted = viewed(hits->Ok_0@);
        all_hits_are_kept(rows->Ok_0, sorted);
        assert forall|i: int, j: int| 0 <= i < j < sorted.len() implies !is_smaller(
            (#[trigger] sorted[i]).measure,
            (#[trigger] sorted[j]).measure,
        ) by {
            better_hits_come_first(rows->Ok_0, sorted, i, j);
        }
    }
}

/// Reading several batches answers with the rows of all of them.
pub proof fn reading_batches_answers_with_all_rows(
    batches: &Vec<Batch>,
    chunks: Result<Vec<StoredChunk>, StorageError>,
)
    requires
        call_ensures(stored_chunks, (batches,), chunks),
    ensures
        chunks is Ok <==> all_chunk_rows(batch_views(batches@)) is Ok,
        chunks is Ok ==> all_chunk_rows(batch_views(batches@))->Ok_0 == viewed(chunks->Ok_0@),
{
}

/// Exporting a batch answers with its rows and their vectors.
pub proof fn exporting_a_batch_answers_with_its_rows(
    batch: &Batch,
    rows: Result<Vec<AnalysisRow>, ExportError>,
    i: int,
)
    requires
        call_ensures(parse_batch, (batch,), rows),
    ensures
        ({
            let columns = batch_columns(*batch);
            let count = batch_rows(*batch);
            &&& rows is Ok <==> is_readable(columns, count) && (column_at(columns, "vector"@)
                is Vectors || count == 0 && column_at(columns, "vector"@) is OtherVectors)
            &&& rows is Ok ==> rows->Ok_0@.len() == count
            &&& rows is Ok && 0 <= i < count ==> viewed(rows->Ok_0@)[i].chunk == chunk_rows(
                columns,
                count,
            )->Ok_0[i]
            &&& rows is Ok && 0 <= i < count && i < column_at(columns, "vector"@)->Vectors_0.len()
                ==> viewed(rows->Ok_0@)[i].vector == column_at(columns, "vector"@)->Vectors_0[i]
        }),
{
    rows_are_exported_with_their_vectors(batch_columns(*batch), batch_rows(*batch), i);
    if rows is Ok {
        assert(viewed(rows->Ok_0@).len() == rows->Ok_0@.len());
    }
}

/// Writing answers with a batch from which the chunks are read back as they were.
pub proof fn what_is_written_is_read_back(
    schema: SchemaRef,
    chunks: &Vec<SemanticChunk>,
    vectors: &Vec<Vec<Single>>,
    batch: Batch,
    read: Result<Vec<StoredChunk>, StorageError>,
    size: i32,
    i: int,
)
    requires
        schema_fields(*schema) == chunk_fields(size),
        call_ensures(
            build_record_batch,
            (schema, chunks, vectors),
            Ok::<Batch, StorageError>(batch),
        ),
        call_ensures(parse_chunk_rows, (&batch,), read),
        0 <= i < chunks@.len(),
    ensures
        read is Ok,
        read->Ok_0@.len() == chunks@.len(),
        ({
            let row = viewed(read->Ok_0@)[i];
            let chunk = viewed(chunks@)[i];
            &&& row.id == chunk.id
            &&& row.file_path == chunk.source.file_path
            &&& row.contract_name == chunk.source.contract_name
            &&& row.function_name == chunk.source.function_name
            &&& row.code_content == chunk.source.code_content
            &&& row.referenced_symbols == chunk.source.referenced_symbols
            &&& chunk.source.start_line <= u32::MAX ==> row.start_line == chunk.source.start_line
            &&& chunk.source.end_line <= u32::MAX ==> row.end_line == chunk.source.end_line
        }),
{
    let all = viewed(chunks@);
    let bits = vector_bits(vectors@);
    written_chunks_are_read_back(all, bits, size);
    chunks_are_stored_as_they_are(all[i]);
    assert(all.len() == chunks@.len());
    let rows = viewed(read->Ok_0@);
    assert(rows.len() == read->Ok_0@.len());
    assert(rows[i] == stored_of(all[i]));
}

/// A batch that cannot be read is answered with the name of a column that is missing or
/// of another type than is read from it.
pub proof fn errors_name_a_column_that_cannot_be_read(
    columns: Map<Seq<char>, ColumnData>,
    rows: nat,
)
    ensures
        chunk_rows(columns, rows) is Err ==> {
            let name = chunk_rows(columns, rows)->Err_0;
            ||| (name == "id"@ || name == "file_path"@ || name == "contract_name"@ || name
                == "function_name"@ || name == "code_content"@ || name == "kind"@) && !(column_at(
                columns,
                name,
            ) is Texts)
            ||| (name == "start_line"@ || name == "end_line"@) && !(column_at(columns, name)
                is Numbers)
            ||| name == "referenced_symbols"@ && !(column_at(columns, name) is TextLists)
        },
{
}

/// An export that fails says which column or value it was.
pub proof fn export_errors_say_what_cannot_be_exported(
    columns: Map<Seq<char>, ColumnData>,
    rows: nat,
)
    ensures
        export_rows(columns, rows) is Err ==> match export_rows(columns, rows)->Err_0 {
            ExportErrorView::TextColumn(name) => (name == "id"@ || name == "file_path"@ || name
                == "contract_name"@ || name == "function_name"@ || name == "code_content"@ || name
                == "kind"@) && !(column_at(columns, name) is Texts),
            ExportErrorView::NumberColumn(name) => (name == "start_line"@ || name == "end_line"@)
                && !(column_at(columns, name) is Numbers),
            ExportErrorView::VectorColumn => !(column_at(columns, "vector"@) is Vectors)
                && !(column_at(columns, "vector"@) is OtherVectors),
            ExportErrorView::SymbolColumn => !(column_at(columns, "referenced_symbols"@)
                is TextLists) && !(column_at(columns, "referenced_symbols"@) is OtherLists),
            ExportErrorView::VectorValue(row) => row == 0 && rows > 0 && column_at(
                columns,
                "vector"@,
            ) is OtherVectors,
            ExportErrorView::SymbolValue(row) => row == 0 && rows > 0 && column_at(
                columns,
                "referenced_symbols"@,
            ) is OtherLists,
        },
{
}

/// The message of an export error says what it is and names the column or the row.
pub proof fn export_messages_name_the_place(error: &ExportError, text: String)
    requires
        call_ensures(ExportError::message, (error,), text),
    ensures
        match error@ {
            ExportErrorView::TextColumn(name) => text@ == "bad or missing string column `"@ + name
                + "`"@,
            ExportErrorView::NumberColumn(name) => text@ == "bad or missing uint column `"@ + name
                + "`"@,
            ExportErrorView::VectorColumn => text@ == "bad or missing vector column"@,
            ExportErrorView::SymbolColumn => text@ == "bad or missing referenced_symbols column"@,
            ExportErrorView::VectorValue(row) => text@ == "bad vector value at row "@ + decimal(
                row,
            ),
            ExportErrorView::SymbolValue(row) => text@
                == "bad referenced_symbols value at row "@ + decimal(row),
        },
{
}

/// The table has a text for everything that a chunk is known by, a list of texts for
/// its symbols, numbers for its lines and a vector of the given size; nothing in it can
/// be missing.
pub proof fn the_table_has_a_column_for_everything(dim: usize, schema: SchemaRef, i: int)
    requires
        call_ensures(chunk_schema, (dim,), schema),
        dim <= i32::MAX,
    ensures
        ({
            let fields = schema_fields(*schema);
            let names = field_names(fields);
            &&& fields.len() == 10
            &&& names[0] == "id"@ && names[1] == "vector"@ && names[2] == "file_path"@
            &&& names[3] == "contract_name"@ && names[4] == "function_name"@
            &&& names[5] == "code_content"@ && names[6] == "referenced_symbols"@
            &&& names[7] == "kind"@ && names[8] == "start_line"@ && names[9] == "end_line"@
            &&& 0 <= i < 10 ==> !fields[i].nullable
            &&& 0 <= i < 10 && i != 1 && i != 6 && i < 8 ==> fields[i].data is Text
            &&& 8 <= i < 10 ==> fields[i].data is Number
            &&& fields[1].data is Vector && fields[1].data->Vector_1 == dim
            &&& (*fields[1].data->Vector_0).data is Single
            &&& fields[6].data is List && (*fields[6].data->List_0).data is Text
            &&& (*fields[1].data->Vector_0).name == "item"@
            &&& (*fields[6].data->List_0).name == "item"@
            &&& (*fields[1].data->Vector_0).nullable && (*fields[6].data->List_0).nullable
        }),
{
}

/// Asking for a table answers whether its name is among the existing ones.
pub proof fn tables_are_found_by_their_names(
    existing: &Vec<String>,
    name: &str,
    found: bool,
)
    requires
        call_ensures(table_exists, (existing, name), found),
    ensures
        found <==> exists|i: int| 0 <= i < existing@.len() && (#[trigger] existing@[i])@ == name@,
{
    let all = views(existing@);
    if found {
        let i = all.index_of(name@);
        assert(existing@[i]@ == name@);
    }
    if exists|i: int| 0 <= i < existing@.len() && (#[trigger] existing@[i])@ == name@ {
        let i = choose|i: int| 0 <= i < existing@.len() && (#[trigger] existing@[i])@ == name@;
        assert(all[i] == name@);
    }
}

/// A scan asks for all rows, and for one at least.
pub proof fn scans_ask_for_all_rows(total: usize, limit: usize)
    requires
        call_ensures(scan_limit, (total,), limit),
    ensures
        limit >= total,
        limit >= 1,
        limit == total || limit == 1,
{
}

/// Asking for an identifier answers by its characters.
pub proof fn identifiers_are_told_by_their_characters(text: &str, found: bool)
    requires
        call_ensures(is_solidity_identifier, (text,), found),
    ensures
        found <==> is_name(text@),
{
    builtins_belong_to_the_language(text@);
}

/// Bytes are counted text by text, and lists are put one behind the other.
pub proof fn bytes_and_lists_add_up<T>(
    texts: Seq<Seq<char>>,
    text: Seq<char>,
    rows: Seq<Seq<T>>,
    row: Seq<T>,
)
    ensures
        total_bytes(Seq::empty()) == 0,
        total_bytes(texts.push(text)) == total_bytes(texts) + encode_utf8(text).len(),
        flattened::<T>(Seq::empty()).len() == 0,
        flattened(rows.push(row)) == flattened(rows) + row,
{
    assert(texts.push(text).drop_last() =~= texts);
    assert(rows.push(row).drop_last() =~= rows);
}

/// Chunks with vectors of one size fit into a batch unless a column has more than two
/// gibibytes of text, there are more than two to the thirty-first symbols, or memory
/// cannot hold the vectors.
pub proof fn batches_are_refused_for_their_size_only(
    chunks: Seq<SemanticChunkView>,
    vectors: Seq<Seq<u32>>,
    size: nat,
)
    requires
        size <= i32::MAX,
        forall|i: int| 0 <= i < vectors.len() ==> (#[trigger] vectors[i]).len() == size,
        4 * (vectors.len() * size) + 64 <= isize::MAX,
        total_bytes(chunks.map_values(|c: SemanticChunkView| c.id)) <= 0x7fff_ffff,
        total_bytes(chunks.map_values(|c: SemanticChunkView| c.source.file_path)) <= 0x7fff_ffff,
        total_bytes(chunks.map_values(|c: SemanticChunkView| c.source.contract_name))
            <= 0x7fff_ffff,
        total_bytes(chunks.map_values(|c: SemanticChunkView| c.source.function_name))
            <= 0x7fff_ffff,
        total_bytes(chunks.map_values(|c: SemanticChunkView| c.source.code_content))
            <= 0x7fff_ffff,
        total_bytes(chunks.map_values(|c: SemanticChunkView| kind_name(c.source.kind)))
            <= 0x7fff_ffff,
        total_bytes(
            flattened(chunks.map_values(|c: SemanticChunkView| c.source.referenced_symbols)),
        ) <= 0x7fff_ffff,
        flattened(chunks.map_values(|c: SemanticChunkView| c.source.referenced_symbols)).len()
            <= 0x7fff_ffff,
    ensures
        batch_limits(chunks, vectors),
{
    lemma_flattened_len(vectors, size);
    assert(symbol_lists(chunks) =~= chunks.map_values(
        |c: SemanticChunkView| c.source.referenced_symbols,
    ));
    let columns = chunk_columns(chunks, vectors);
    assert forall|i: int| 0 <= i < 10 implies column_fits(#[trigger] columns[i]) by {
        assert(column_fits(columns[0]) && column_fits(columns[1]) && column_fits(columns[2]));
        assert(column_fits(columns[3]) && column_fits(columns[4]) && column_fits(columns[5]));
        assert(column_fits(columns[6]) && column_fits(columns[7]) && column_fits(columns[8]));
        assert(column_fits(columns[9]));
    }
    if vectors.len() > 0 {
        assert(vectors[0].len() == size);
    } else {
        assert(vectors.len() * size == 0) by (nonlinear_arith)
            requires
                vectors.len() == 0,
        ;
    }
}

/// Reading a batch of hits answers with its rows and what was measured for them.
pub proof fn reading_hits_answers_with_rows_and_measures(
    batch: &Batch,
    near: Result<Vec<SearchResult>, StorageError>,
    text: Result<Vec<FtsResult>, StorageError>,
    i: int,
)
    requires
        call_ensures(parse_search_batch, (batch,), near),
        call_ensures(parse_fts_batch, (batch,), text),
    ensures
        ({
            let columns = batch_columns(*batch);
            let rows = batch_rows(*batch);
            &&& near is Ok <==> is_readable(columns, rows) && column_at(columns, "_distance"@)
                is Singles
            &&& text is Ok <==> is_readable(columns, rows) && column_at(columns, "_score"@)
                is Singles
            &&& near is Ok ==> near->Ok_0@.len() == rows
            &&& text is Ok ==> text->Ok_0@.len() == rows
            &&& near is Ok && 0 <= i < rows ==> viewed(near->Ok_0@)[i] == (HitView {
                measure: column_at(columns, "_distance"@)->Singles_0[i],
                chunk: chunk_rows(columns, rows)->Ok_0[i],
            })
            &&& text is Ok && 0 <= i < rows ==> viewed(text->Ok_0@)[i] == (HitView {
                measure: column_at(columns, "_score"@)->Singles_0[i],
                chunk: chunk_rows(columns, rows)->Ok_0[i],
            })
        }),
{
    let columns = batch_columns(*batch);
    let rows = batch_rows(*batch);
    hits_are_rows_with_their_measures(columns, rows, "_distance"@, i);
    hits_are_rows_with_their_measures(columns, rows, "_score"@, i);
    if near is Ok {
        assert(viewed(near->Ok_0@).len() == near->Ok_0@.len());
    }
    if text is Ok {
        assert(viewed(text->Ok_0@).len() == text->Ok_0@.len());
    }
}

} // verus!
