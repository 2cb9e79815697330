//! Stored chunks: the table's schema, the batches that go into it, the rows that
//! come back, and the filters and orders of its searches.
use std::sync::Arc;

use arrow_schema::{ArrowError, SchemaRef};
use vstd::prelude::*;
use vstd::string::*;
use vstd::utf8::*;

use crate::chunker::{SemanticChunk, SemanticChunkView};
use crate::columns::{
    all_present, append_text, as_lists, as_numbers, as_singles, as_texts, batch_columns, batch_rows,
    bits_of, by_name, close_list, closed_lists, column_at, column_data, columns_data, count_rows,
    field_names, field_views, finish_lists, fits_schema, flattened, grouped, item_field, list_type,
    list_view, new_batch, new_field, new_schema, new_text_lists, number_column, open_list,
    read_lists, read_numbers, read_singles, read_texts, row_count, scalar_type, schema_fields,
    text_column, text_view, texts_in, total_bytes, type_of, vector_bits, vector_column, vector_type,
    Batch, Column, ColumnData, FieldView, Scalar, TypeView,
};
use crate::float::{order_key, Single};
use crate::ordered::{lemma_sorted_views, stable_sort, stably_sorted, viewed};
use crate::parser::kind_name;
use crate::text::{chars_of, contains_text, is_digit, join, joined, occurs_at, same_text, views};

verus! {

/// Why chunks could not be stored or read back.
#[derive(Debug)]
pub enum StorageError {
    /// The embedding model failed.
    Embedding(anyhow::Error),
    /// The record batch could not be built.
    Arrow(ArrowError),
    /// A column of a stored row is missing or has the wrong type.
    MalformedColumn(&'static str),
}

/// A chunk as it is read back from the table.
#[derive(Debug)]
pub struct StoredChunk {
    pub id: String,
    pub file_path: String,
    pub contract_name: String,
    pub function_name: String,
    pub code_content: String,
    pub referenced_symbols: Vec<String>,
    pub kind: String,
    pub start_line: u32,
    pub end_line: u32,
}

/// What a [`StoredChunk`] says.
#[verifier::ext_equal]
pub struct StoredChunkView {
    pub id: Seq<char>,
    pub file_path: Seq<char>,
    pub contract_name: Seq<char>,
    pub function_name: Seq<char>,
    pub code_content: Seq<char>,
    pub referenced_symbols: Seq<Seq<char>>,
    pub kind: Seq<char>,
    pub start_line: u32,
    pub end_line: u32,
}

impl View for StoredChunk {
    type V = StoredChunkView;

    open spec fn view(&self) -> StoredChunkView {
        StoredChunkView {
            id: self.id@,
            file_path: self.file_path@,
            contract_name: self.contract_name@,
            function_name: self.function_name@,
            code_content: self.code_content@,
            referenced_symbols: views(self.referenced_symbols@),
            kind: self.kind@,
            start_line: self.start_line,
            end_line: self.end_line,
        }
    }
}

impl Clone for StoredChunk {
    fn clone(&self) -> (copy: Self)
        ensures
            copy@ == self@,
    {
        let copy = StoredChunk {
            id: self.id.clone(),
            file_path: self.file_path.clone(),
            contract_name: self.contract_name.clone(),
            function_name: self.function_name.clone(),
            code_content: self.code_content.clone(),
            referenced_symbols: self.referenced_symbols.clone(),
            kind: self.kind.clone(),
            start_line: self.start_line,
            end_line: self.end_line,
        };
        assert(views(copy.referenced_symbols@) =~= views(self.referenced_symbols@));
        copy
    }
}

/// A hit of the vector search.
#[derive(Debug)]
pub struct SearchResult {
    /// Distance from the query vector; smaller is more similar.
    pub distance: Single,
    pub chunk: StoredChunk,
}

/// A hit of the full-text search.
#[derive(Debug)]
pub struct FtsResult {
    /// Relevance; larger is better.
    pub score: Single,
    pub chunk: StoredChunk,
}

/// What a hit says: the bit pattern of its measure, and its chunk.
#[verifier::ext_equal]
pub struct HitView {
    pub measure: u32,
    pub chunk: StoredChunkView,
}

impl View for SearchResult {
    type V = HitView;

    open spec fn view(&self) -> HitView {
        HitView { measure: self.distance.bits, chunk: self.chunk@ }
    }
}

impl View for FtsResult {
    type V = HitView;

    open spec fn view(&self) -> HitView {
        HitView { measure: self.score.bits, chunk: self.chunk@ }
    }
}

// ---------------------------------------------------------------- schema

/// The field of a text column.
pub open spec fn text_field(name: Seq<char>) -> FieldView {
    FieldView { name, data: TypeView::Text, nullable: false, annotated: false }
}

/// The field of a number column.
pub open spec fn number_field(name: Seq<char>) -> FieldView {
    FieldView { name, data: TypeView::Number, nullable: false, annotated: false }
}

/// The columns of the table, for vectors of the given size.
pub open spec fn chunk_fields(size: i32) -> Seq<FieldView> {
    seq![
        text_field("id"@),
        FieldView {
            name: "vector"@,
            data: TypeView::Vector(Box::new(item_field(TypeView::Single)), size),
            nullable: false,
            annotated: false,
        },
        text_field("file_path"@),
        text_field("contract_name"@),
        text_field("function_name"@),
        text_field("code_content"@),
        FieldView {
            name: "referenced_symbols"@,
            data: TypeView::List(Box::new(item_field(TypeView::Text))),
            nullable: false,
            annotated: false,
        },
        text_field("kind"@),
        number_field("start_line"@),
        number_field("end_line"@),
    ]
}

/// The schema of the table, for vectors of `dim` numbers.
pub fn chunk_schema(dim: usize) -> (schema: SchemaRef)
    ensures
        schema_fields(*schema) == chunk_fields(dim as i32),
{
    let mut fields = Vec::new();
    fields.push(new_field("id", scalar_type(Scalar::Text), false));
    let single = new_field("item", scalar_type(Scalar::Single), true);
    fields.push(new_field("vector", vector_type(single, dim as i32), false));
    fields.push(new_field("file_path", scalar_type(Scalar::Text), false));
    fields.push(new_field("contract_name", scalar_type(Scalar::Text), false));
    fields.push(new_field("function_name", scalar_type(Scalar::Text), false));
    fields.push(new_field("code_content", scalar_type(Scalar::Text), false));
    let symbol = new_field("item", scalar_type(Scalar::Text), true);
    fields.push(new_field("referenced_symbols", list_type(symbol), false));
    fields.push(new_field("kind", scalar_type(Scalar::Text), false));
    fields.push(new_field("start_line", scalar_type(Scalar::Number), false));
    fields.push(new_field("end_line", scalar_type(Scalar::Number), false));
    assert(field_views(fields@) =~= chunk_fields(dim as i32));
    Arc::new(new_schema(fields))
}

// ---------------------------------------------------------------- filters

/// A letter of the English alphabet.
pub open spec fn is_letter(c: char) -> bool {
    'a' <= c <= 'z' || 'A' <= c <= 'Z'
}

/// A character that can start an identifier.
pub open spec fn starts_identifier(c: char) -> bool {
    is_letter(c) || c == '_' || c == '$'
}

/// A character that can stand in an identifier.
pub open spec fn continues_identifier(c: char) -> bool {
    starts_identifier(c) || is_digit(c)
}

/// A name that could be a Solidity identifier.
pub open spec fn is_identifier(name: Seq<char>) -> bool {
    &&& name.len() > 0
    &&& starts_identifier(name[0])
    &&& forall|i: int| 1 <= i < name.len() ==> continues_identifier(#[trigger] name[i])
}

fn char_is_letter(c: char) -> (letter: bool)
    ensures
        letter == is_letter(c),
{
    ('a' <= c && c <= 'z') || ('A' <= c && c <= 'Z')
}

fn char_is_digit(c: char) -> (found: bool)
    ensures
        found == is_digit(c),
{
    '0' <= c && c <= '9'
}

/// Whether a name could be a Solidity identifier, and so can stand in a literal of
/// a filter.
pub fn is_solidity_identifier(s: &str) -> (found: bool)
    ensures
        found == is_identifier(s@),
{
    let chars = chars_of(s);
    if chars.len() == 0 {
        return false;
    }
    let first = chars[0];
    if !(char_is_letter(first) || first == '_' || first == '$') {
        return false;
    }
    let mut i: usize = 1;
    while i < chars.len()
        invariant
            chars@ == s@,
            1 <= i <= chars.len(),
            forall|j: int| 1 <= j < i ==> continues_identifier(#[trigger] chars@[j]),
        decreases chars.len() - i,
    {
        let c = chars[i];
        if !(char_is_letter(c) || char_is_digit(c) || c == '_' || c == '$') {
            assert(!continues_identifier(s@[i as int]));
            return false;
        }
        i += 1;
    }
    true
}

/// A character that can stand in a path segment of a filter.
pub open spec fn is_path_char(c: char) -> bool {
    is_letter(c) || is_digit(c) || c == '/' || c == '_' || c == '-' || c == '.'
}

/// A path segment that can stand in a literal of a filter.
pub open spec fn is_path_segment(segment: Seq<char>) -> bool {
    &&& segment.len() > 0
    &&& forall|i: int| 0 <= i < segment.len() ==> is_path_char(#[trigger] segment[i])
}

fn text_is_path_segment(s: &str) -> (found: bool)
    ensures
        found == is_path_segment(s@),
{
    let chars = chars_of(s);
    let mut i: usize = 0;
    while i < chars.len()
        invariant
            chars@ == s@,
            i <= chars.len(),
            forall|j: int| 0 <= j < i ==> is_path_char(#[trigger] chars@[j]),
        decreases chars.len() - i,
    {
        let c = chars[i];
        if !(char_is_letter(c) || char_is_digit(c) || c == '/' || c == '_' || c == '-' || c == '.') {
            assert(!is_path_char(s@[i as int]));
            return false;
        }
        i += 1;
    }
    chars.len() > 0
}

/// What texts say.
pub open spec fn str_views(texts: Seq<&str>) -> Seq<Seq<char>> {
    texts.map_values(|text: &str| text@)
}

/// A segment as it stands in a pattern: an underscore, which would match any
/// character, has a backslash before it.
pub open spec fn escaped(segment: Seq<char>) -> Seq<char>
    decreases segment.len(),
{
    if segment.len() == 0 {
        Seq::empty()
    } else if segment[0] == '_' {
        seq!['\\', '_'] + escaped(segment.drop_first())
    } else {
        seq![segment[0]] + escaped(segment.drop_first())
    }
}

/// The predicate that excludes paths with a segment. A pattern without a backslash
/// needs no `ESCAPE` clause.
pub open spec fn exclusion(segment: Seq<char>) -> Seq<char> {
    let predicate = "file_path NOT LIKE '%"@ + escaped(segment) + "%'"@;
    if segment.contains('_') {
        predicate + " ESCAPE '\\'"@
    } else {
        predicate
    }
}

/// The predicate that excludes paths with a segment.
fn segment_exclusion(segment: &str) -> (predicate: String)
    ensures
        predicate@ == exclusion(segment@),
{
    let chars = chars_of(segment);
    let mut predicate = "file_path NOT LIKE '%".to_owned();
    let ghost start = predicate@;
    assert(chars@.skip(0) =~= segment@);
    let mut marked = false;
    let mut i: usize = 0;
    while i < chars.len()
        invariant
            chars@ == segment@,
            i <= chars.len(),
            predicate@ + escaped(segment@.skip(i as int)) == start + escaped(segment@),
            marked == segment@.take(i as int).contains('_'),
        decreases chars.len() - i,
    {
        let c = chars[i];
        let ghost rest = segment@.skip(i as int);
        let ghost before = predicate@;
        assert(rest[0] == c);
        assert(rest.drop_first() =~= segment@.skip(i + 1));
        assert(segment@.take(i + 1) =~= segment@.take(i as int).push(c));
        if c == '_' {
            marked = true;
            predicate.push('\\');
            assert(segment@.take(i + 1)[i as int] == '_');
        }
        assert(segment@.take(i as int).contains('_') ==> segment@.take(i + 1).contains('_')) by {
            if segment@.take(i as int).contains('_') {
                assert(segment@.take(i + 1)[segment@.take(i as int).index_of('_')] == '_');
            }
        }
        predicate.push(c);
        assert(predicate@ + escaped(segment@.skip(i + 1)) =~= before + escaped(rest));
        i += 1;
    }
    assert(segment@.take(i as int) =~= segment@);
    assert(predicate@ =~= start + escaped(segment@));
    predicate.append("%'");
    if marked {
        predicate.append(" ESCAPE '\\'");
    }
    predicate
}

/// The predicates that exclude the segments which can stand in a literal.
pub open spec fn exclusions(segments: Seq<Seq<char>>) -> Seq<Seq<char>>
    decreases segments.len(),
{
    if segments.len() == 0 {
        Seq::empty()
    } else {
        let before = exclusions(segments.drop_last());
        if is_path_segment(segments.last()) {
            before.push(exclusion(segments.last()))
        } else {
            before
        }
    }
}

/// The filter that excludes paths with any of the segments.
pub open spec fn exclusion_filter(segments: Seq<Seq<char>>) -> Option<Seq<char>> {
    let predicates = exclusions(segments);
    if predicates.len() == 0 {
        None
    } else {
        Some("("@ + joined(predicates, " AND "@) + ")"@)
    }
}

/// The filter that excludes rows whose path holds any of the segments, if any of
/// them can be excluded.
pub fn path_exclusion_filter(segments: &[&str]) -> (filter: Option<String>)
    ensures
        text_view(filter) == exclusion_filter(str_views(segments@)),
{
    let ghost all = str_views(segments@);
    let mut predicates: Vec<String> = Vec::new();
    assert(views(predicates@) =~= exclusions(all.take(0)));
    let mut i: usize = 0;
    while i < segments.len()
        invariant
            all == str_views(segments@),
            i <= segments.len(),
            views(predicates@) == exclusions(all.take(i as int)),
        decreases segments.len() - i,
    {
        let segment = segments[i];
        let ghost before = views(predicates@);
        assert(all.take(i + 1).drop_last() =~= all.take(i as int));
        if text_is_path_segment(segment) {
            let predicate = segment_exclusion(segment);
            let ghost said = predicate@;
            predicates.push(predicate);
            assert(views(predicates@) =~= before.push(said));
        }
        i += 1;
    }
    assert(all.take(i as int) =~= all);
    if predicates.len() == 0 {
        None
    } else {
        let mut filter = "(".to_owned();
        let list = join(&predicates, " AND ");
        filter.append(list.as_str());
        filter.append(")");
        Some(filter)
    }
}

/// The names that could be identifiers, in quotes.
pub open spec fn quoted(names: Seq<Seq<char>>) -> Seq<Seq<char>>
    decreases names.len(),
{
    if names.len() == 0 {
        Seq::empty()
    } else {
        let before = quoted(names.drop_last());
        if is_identifier(names.last()) {
            before.push("'"@ + names.last() + "'"@)
        } else {
            before
        }
    }
}

/// The filter for definitions with one of the names, outside the excluded paths.
/// There is none where no name could be an identifier.
pub open spec fn names_filter(names: Seq<Seq<char>>, segments: Seq<Seq<char>>) -> Option<Seq<char>> {
    let list = joined(quoted(names), ", "@);
    let named = "(function_name IN ("@ + list + ") OR contract_name IN ("@ + list + "))"@;
    if quoted(names).len() == 0 {
        None
    } else {
        match exclusion_filter(segments) {
            Some(exclusion) => Some(named + " AND "@ + exclusion),
            None => Some(named),
        }
    }
}

/// The filter for chunks whose function or contract has one of the names, outside
/// the excluded paths.
pub fn name_filter(names: &Vec<String>, exclude_path_segments: &[&str]) -> (filter: Option<String>)
    ensures
        text_view(filter) == names_filter(views(names@), str_views(exclude_path_segments@)),
{
    let ghost all = views(names@);
    let mut list: Vec<String> = Vec::new();
    assert(views(list@) =~= quoted(all.take(0)));
    let mut i: usize = 0;
    while i < names.len()
        invariant
            all == views(names@),
            i <= names.len(),
            views(list@) == quoted(all.take(i as int)),
        decreases names.len() - i,
    {
        let ghost before = views(list@);
        assert(all.take(i + 1).drop_last() =~= all.take(i as int));
        if is_solidity_identifier(names[i].as_str()) {
            let mut name = "'".to_owned();
            name.append(names[i].as_str());
            name.append("'");
            let ghost said = name@;
            list.push(name);
            assert(views(list@) =~= before.push(said));
        }
        i += 1;
    }
    assert(all.take(i as int) =~= all);
    if list.len() == 0 {
        return None;
    }
    let text = join(&list, ", ");
    let mut filter = "(function_name IN (".to_owned();
    filter.append(text.as_str());
    filter.append(") OR contract_name IN (");
    filter.append(text.as_str());
    filter.append("))");
    if let Some(exclusion) = path_exclusion_filter(exclude_path_segments) {
        filter.append(" AND ");
        filter.append(exclusion.as_str());
    }
    Some(filter)
}

/// A name that could be an identifier cannot end the literal that it stands in.
pub proof fn identifiers_hold_no_quotes(name: Seq<char>)
    requires
        is_identifier(name),
    ensures
        !name.contains('\''),
{
    assert forall|i: int| 0 <= i < name.len() implies #[trigger] name[i] != '\'' by {
        if i > 0 {
            assert(continues_identifier(name[i]));
        }
    }
}

/// A path segment of a filter cannot end the literal that it stands in, and brings
/// no `%` of its own.
pub proof fn path_segments_hold_no_quotes(segment: Seq<char>)
    requires
        is_path_segment(segment),
    ensures
        !escaped(segment).contains('\''),
        !escaped(segment).contains('%'),
{
    assert forall|i: int| 0 <= i < segment.len() implies #[trigger] segment[i] != '\'' && segment[i]
        != '%' by {
        assert(is_path_char(segment[i]));
    }
    lemma_escaped_chars(segment);
}

/// Escaping brings nothing but backslashes.
pub proof fn lemma_escaped_chars(segment: Seq<char>)
    ensures
        forall|i: int|
            0 <= i < escaped(segment).len() ==> #[trigger] escaped(segment)[i] == '\\'
                || segment.contains(escaped(segment)[i]),
    decreases segment.len(),
{
    if segment.len() > 0 {
        let rest = segment.drop_first();
        lemma_escaped_chars(rest);
        let width: int = if segment[0] == '_' {
            2
        } else {
            1
        };
        assert forall|i: int| 0 <= i < escaped(segment).len() implies #[trigger] escaped(segment)[i]
            == '\\' || segment.contains(escaped(segment)[i]) by {
            if i < width {
                assert(segment[0] == '_' && i == 0 || escaped(segment)[i] == segment[0]);
            } else {
                let c = escaped(rest)[i - width];
                assert(escaped(segment)[i] == c);
                if rest.contains(c) {
                    assert(segment[rest.index_of(c) + 1] == c);
                }
            }
        }
    }
}

/// A text matches a pattern of SQL's `LIKE`: `%` stands for any text, `_` for any
/// character, a character behind a backslash for itself, as all others do.
pub open spec fn like(pattern: Seq<char>, text: Seq<char>) -> bool
    decreases pattern.len(),
{
    if pattern.len() == 0 {
        text.len() == 0
    } else if pattern[0] == '%' {
        exists|k: int| 0 <= k <= text.len() && like(pattern.drop_first(), #[trigger] text.skip(k))
    } else if text.len() == 0 {
        false
    } else if pattern[0] == '_' {
        like(pattern.drop_first(), text.drop_first())
    } else if pattern[0] == '\\' && pattern.len() > 1 {
        text[0] == pattern[1] && like(pattern.skip(2), text.drop_first())
    } else {
        text[0] == pattern[0] && like(pattern.drop_first(), text.drop_first())
    }
}

/// A text matches an escaped segment with `%` behind it if it starts with the
/// segment.
proof fn lemma_like_prefix(segment: Seq<char>, text: Seq<char>)
    requires
        forall|i: int| 0 <= i < segment.len() ==> is_path_char(#[trigger] segment[i]),
    ensures
        like(escaped(segment) + seq!['%'], text) == occurs_at(text, segment, 0),
    decreases segment.len(),
{
    let pattern = escaped(segment) + seq!['%'];
    if segment.len() == 0 {
        let end = text.len() as int;
        assert(pattern.drop_first() =~= Seq::empty());
        assert(text.skip(end).len() == 0);
        assert(like(pattern.drop_first(), text.skip(end)));
        assert(text.subrange(0, 0) =~= segment);
    } else {
        let rest = segment.drop_first();
        assert forall|i: int| 0 <= i < rest.len() implies is_path_char(#[trigger] rest[i]) by {
            assert(rest[i] == segment[i + 1]);
        }
        assert(is_path_char(segment[0]));
        if text.len() > 0 {
            let tail = text.drop_first();
            lemma_like_prefix(rest, tail);
            if segment[0] == '_' {
                assert(pattern.skip(2) =~= escaped(rest) + seq!['%']);
            } else {
                assert(pattern.drop_first() =~= escaped(rest) + seq!['%']);
            }
            if occurs_at(tail, rest, 0) && text[0] == segment[0] {
                assert(text.subrange(0, segment.len() as int) =~= segment) by {
                    assert forall|i: int| 0 <= i < segment.len() implies text[i] == segment[i] by {
                        if i > 0 {
                            assert(tail.subrange(0, rest.len() as int)[i - 1] == rest[i - 1]);
                        }
                    }
                }
            }
            if occurs_at(text, segment, 0) {
                let start = text.subrange(0, segment.len() as int);
                assert(start[0] == text[0]);
                assert(tail.subrange(0, rest.len() as int) =~= rest) by {
                    assert forall|i: int| 0 <= i < rest.len() implies tail[i] == rest[i] by {
                        assert(start[i + 1] == text[i + 1]);
                    }
                }
            }
        }
    }
}

/// The pattern in the predicate that excludes a segment matches the paths that
/// hold the segment, and no others.
pub proof fn patterns_match_paths_with_the_segment(segment: Seq<char>, path: Seq<char>)
    requires
        is_path_segment(segment),
    ensures
        like(seq!['%'] + escaped(segment) + seq!['%'], path) == contains_text(path, segment),
        !segment.contains('_') ==> escaped(segment) == segment,
{
    let pattern = seq!['%'] + escaped(segment) + seq!['%'];
    let rest = escaped(segment) + seq!['%'];
    assert(pattern.drop_first() =~= rest);
    assert forall|k: int| 0 <= k <= path.len() implies #[trigger] like(rest, path.skip(k))
        == occurs_at(path, segment, k) by {
        lemma_like_prefix(segment, path.skip(k));
        if k + segment.len() <= path.len() {
            assert(path.skip(k).subrange(0, segment.len() as int) =~= path.subrange(
                k,
                k + segment.len(),
            ));
        }
    }
    if contains_text(path, segment) {
        let k = choose|k: int| occurs_at(path, segment, k);
        assert(like(pattern.drop_first(), path.skip(k)));
    }
    if like(pattern, path) {
        let k = choose|k: int|
            0 <= k <= path.len() && like(pattern.drop_first(), #[trigger] path.skip(k));
        assert(like(rest, path.skip(k)));
        assert(occurs_at(path, segment, k));
    }
    lemma_plain_escaped(segment);
}

/// A segment without underscores stands in a pattern as it is.
proof fn lemma_plain_escaped(segment: Seq<char>)
    ensures
        !segment.contains('_') ==> escaped(segment) == segment,
    decreases segment.len(),
{
    if segment.len() > 0 && !segment.contains('_') {
        let rest = segment.drop_first();
        assert(!rest.contains('_')) by {
            if rest.contains('_') {
                assert(segment[rest.index_of('_') + 1] == '_');
            }
        }
        lemma_plain_escaped(rest);
        assert(segment[0] != '_');
        assert(seq![segment[0]] + rest =~= segment);
    }
}

// ---------------------------------------------------------------- writing

/// The size of the vectors of a batch: that of the first one.
pub open spec fn vector_size(vectors: Seq<Seq<u32>>) -> i32 {
    if vectors.len() == 0 {
        0
    } else {
        vectors[0].len() as i32
    }
}

/// The symbols of each chunk.
pub open spec fn symbol_lists(chunks: Seq<SemanticChunkView>) -> Seq<Seq<Seq<char>>> {
    chunks.map_values(|chunk: SemanticChunkView| chunk.source.referenced_symbols)
}

/// The columns of a batch of chunks with their vectors.
pub open spec fn chunk_columns(
    chunks: Seq<SemanticChunkView>,
    vectors: Seq<Seq<u32>>,
) -> Seq<ColumnData> {
    let size = vector_size(vectors);
    seq![
        ColumnData::Texts(chunks.map_values(|c: SemanticChunkView| c.id)),
        ColumnData::Vectors(grouped(flattened(vectors), size as nat), size),
        ColumnData::Texts(chunks.map_values(|c: SemanticChunkView| c.source.file_path)),
        ColumnData::Texts(chunks.map_values(|c: SemanticChunkView| c.source.contract_name)),
        ColumnData::Texts(chunks.map_values(|c: SemanticChunkView| c.source.function_name)),
        ColumnData::Texts(chunks.map_values(|c: SemanticChunkView| c.source.code_content)),
        ColumnData::TextLists(
            symbol_lists(chunks).map_values(|symbols: Seq<Seq<char>>| all_present(symbols)),
        ),
        ColumnData::Texts(chunks.map_values(|c: SemanticChunkView| kind_name(c.source.kind))),
        ColumnData::Numbers(chunks.map_values(|c: SemanticChunkView| c.source.start_line as u32)),
        ColumnData::Numbers(chunks.map_values(|c: SemanticChunkView| c.source.end_line as u32)),
    ]
}

/// A column's texts take no more bytes than an offset can count.
pub open spec fn column_fits(data: ColumnData) -> bool {
    data matches ColumnData::Texts(texts) ==> total_bytes(texts) <= i32::MAX
}

/// What a batch can hold: the texts of no column take more bytes than an offset
/// can count, and the vectors come to the same size each.
pub open spec fn batch_limits(chunks: Seq<SemanticChunkView>, vectors: Seq<Seq<u32>>) -> bool {
    &&& forall|i: int| 0 <= i < 10 ==> column_fits(#[trigger] chunk_columns(chunks, vectors)[i])
    &&& total_bytes(flattened(symbol_lists(chunks))) <= i32::MAX
    &&& flattened(symbol_lists(chunks)).len() <= i32::MAX
    &&& vector_size(vectors) >= 0
    &&& flattened(vectors).len() == vectors.len() * vector_size(vectors)
    &&& 4 * (vectors.len() * vector_size(vectors)) + 64 <= isize::MAX
}

/// The columns of a batch of chunks that are copied field by field.
struct Fields {
    ids: Vec<String>,
    file_paths: Vec<String>,
    contracts: Vec<String>,
    functions: Vec<String>,
    code: Vec<String>,
    kinds: Vec<String>,
    start_lines: Vec<u32>,
    end_lines: Vec<u32>,
}

impl Fields {
    /// The fields of the first `n` chunks.
    spec fn gathers(&self, chunks: Seq<SemanticChunkView>, n: int) -> bool {
        &&& self.ids.len() == self.file_paths.len() == self.contracts.len() == self.functions.len()
            == self.code.len() == self.kinds.len() == self.start_lines.len()
            == self.end_lines.len() == n
        &&& forall|i: int|
            #![trigger chunks[i]]
            0 <= i < n ==> {
                &&& self.ids@[i]@ == chunks[i].id
                &&& self.file_paths@[i]@ == chunks[i].source.file_path
                &&& self.contracts@[i]@ == chunks[i].source.contract_name
                &&& self.functions@[i]@ == chunks[i].source.function_name
                &&& self.code@[i]@ == chunks[i].source.code_content
                &&& self.kinds@[i]@ == kind_name(chunks[i].source.kind)
                &&& self.start_lines@[i] == chunks[i].source.start_line as u32
                &&& self.end_lines@[i] == chunks[i].source.end_line as u32
            }
    }

    /// Copies the fields of chunks.
    fn gather(chunks: &Vec<SemanticChunk>) -> (fields: Fields)
        ensures
            fields.gathers(viewed(chunks@), chunks.len() as int),
    {
        let mut ids: Vec<String> = Vec::new();
        let mut file_paths: Vec<String> = Vec::new();
        let mut contracts: Vec<String> = Vec::new();
        let mut functions: Vec<String> = Vec::new();
        let mut code: Vec<String> = Vec::new();
        let mut kinds: Vec<String> = Vec::new();
        let mut start_lines: Vec<u32> = Vec::new();
        let mut end_lines: Vec<u32> = Vec::new();
        let ghost all = viewed(chunks@);
        let mut i: usize = 0;
        while i < chunks.len()
            invariant
                i <= chunks.len(),
                all == viewed(chunks@),
                ids.len() == file_paths.len() == contracts.len() == functions.len() == code.len()
                    == kinds.len() == start_lines.len() == end_lines.len() == i,
                forall|j: int| 0 <= j < i ==> ids@[j]@ == (#[trigger] all[j]).id,
                forall|j: int| 0 <= j < i ==> file_paths@[j]@ == (#[trigger] all[j]).source.file_path,
                forall|j: int|
                    0 <= j < i ==> contracts@[j]@ == (#[trigger] all[j]).source.contract_name,
                forall|j: int|
                    0 <= j < i ==> functions@[j]@ == (#[trigger] all[j]).source.function_name,
                forall|j: int| 0 <= j < i ==> code@[j]@ == (#[trigger] all[j]).source.code_content,
                forall|j: int| 0 <= j < i ==> kinds@[j]@ == kind_name((#[trigger] all[j]).source.kind),
                forall|j: int|
                    0 <= j < i ==> start_lines@[j] == (#[trigger] all[j]).source.start_line as u32,
                forall|j: int|
                    0 <= j < i ==> end_lines@[j] == (#[trigger] all[j]).source.end_line as u32,
            decreases chunks.len() - i,
        {
            let chunk = &chunks[i];
            assert(all[i as int] == chunk@);
            ids.push(chunk.id.clone());
            file_paths.push(chunk.source.file_path.clone());
            contracts.push(chunk.source.contract_name.clone());
            functions.push(chunk.source.function_name.clone());
            code.push(chunk.source.code_content.clone());
            kinds.push(chunk.source.kind.as_str().to_owned());
            start_lines.push(
                #[verifier::truncate]
                (chunk.source.start_line as u32),
            );
            end_lines.push(
                #[verifier::truncate]
                (chunk.source.end_line as u32),
            );
            i += 1;
        }
        Fields { ids, file_paths, contracts, functions, code, kinds, start_lines, end_lines }
    }
}

/// What was gathered are the columns.
proof fn lemma_gathered(fields: Fields, chunks: Seq<SemanticChunkView>, vectors: Seq<Seq<u32>>)
    requires
        fields.gathers(chunks, chunks.len() as int),
    ensures
        ({
            let columns = chunk_columns(chunks, vectors);
            &&& columns[0] == ColumnData::Texts(views(fields.ids@))
            &&& columns[2] == ColumnData::Texts(views(fields.file_paths@))
            &&& columns[3] == ColumnData::Texts(views(fields.contracts@))
            &&& columns[4] == ColumnData::Texts(views(fields.functions@))
            &&& columns[5] == ColumnData::Texts(views(fields.code@))
            &&& columns[7] == ColumnData::Texts(views(fields.kinds@))
            &&& columns[8] == ColumnData::Numbers(fields.start_lines@)
            &&& columns[9] == ColumnData::Numbers(fields.end_lines@)
        }),
{
    assert(views(fields.ids@) =~= chunks.map_values(|c: SemanticChunkView| c.id));
    assert(views(fields.file_paths@) =~= chunks.map_values(
        |c: SemanticChunkView| c.source.file_path,
    ));
    assert(views(fields.contracts@) =~= chunks.map_values(
        |c: SemanticChunkView| c.source.contract_name,
    ));
    assert(views(fields.functions@) =~= chunks.map_values(
        |c: SemanticChunkView| c.source.function_name,
    ));
    assert(views(fields.code@) =~= chunks.map_values(|c: SemanticChunkView| c.source.code_content));
    assert(views(fields.kinds@) =~= chunks.map_values(
        |c: SemanticChunkView| kind_name(c.source.kind),
    ));
    assert(fields.start_lines@ =~= chunks.map_values(
        |c: SemanticChunkView| c.source.start_line as u32,
    ));
    assert(fields.end_lines@ =~= chunks.map_values(
        |c: SemanticChunkView| c.source.end_line as u32,
    ));
}

/// Bytes of texts put together.
proof fn lemma_total_bytes(a: Seq<Seq<char>>, b: Seq<Seq<char>>)
    ensures
        total_bytes(a + b) == total_bytes(a) + total_bytes(b),
    decreases b.len(),
{
    if b.len() == 0 {
        assert(a + b =~= a);
    } else {
        assert((a + b).drop_last() =~= a + b.drop_last());
        lemma_total_bytes(a, b.drop_last());
    }
}

/// The rows up to one, and the part of it, are a prefix of all.
proof fn lemma_flattened_prefix<T>(rows: Seq<Seq<T>>, i: int, j: int)
    requires
        0 <= i < rows.len(),
        0 <= j <= rows[i].len(),
    ensures
        ({
            let part = flattened(rows.take(i)) + rows[i].take(j);
            &&& part.len() <= flattened(rows).len()
            &&& flattened(rows) == part + flattened(rows).skip(part.len() as int)
        }),
    decreases rows.len(),
{
    let part = flattened(rows.take(i)) + rows[i].take(j);
    let last = rows.len() - 1;
    let before = rows.drop_last();
    if i == last {
        assert(rows.take(i) =~= before);
        assert(flattened(rows) =~= part + flattened(rows).skip(part.len() as int)) by {
            assert(rows.last() =~= rows[i].take(j) + rows[i].skip(j));
        }
    } else {
        lemma_flattened_prefix(before, i, j);
        assert(before.take(i) =~= rows.take(i));
        assert(flattened(rows) =~= part + flattened(rows).skip(part.len() as int));
    }
}

/// Texts of a prefix take no more bytes.
proof fn lemma_prefix_bytes(rows: Seq<Seq<Seq<char>>>, i: int, j: int)
    requires
        0 <= i < rows.len(),
        0 <= j <= rows[i].len(),
    ensures
        total_bytes(flattened(rows.take(i)) + rows[i].take(j)) <= total_bytes(flattened(rows)),
        (flattened(rows.take(i)) + rows[i].take(j)).len() <= flattened(rows).len(),
{
    lemma_flattened_prefix(rows, i, j);
    let part = flattened(rows.take(i)) + rows[i].take(j);
    lemma_total_bytes(part, flattened(rows).skip(part.len() as int));
}

/// The column of the symbols of chunks.
fn symbol_column(chunks: &Vec<SemanticChunk>) -> (column: Column)
    requires
        total_bytes(flattened(symbol_lists(viewed(chunks@)))) <= i32::MAX,
        flattened(symbol_lists(viewed(chunks@))).len() <= i32::MAX,
    ensures
        column_data(column) == ColumnData::TextLists(
            symbol_lists(viewed(chunks@)).map_values(
                |symbols: Seq<Seq<char>>| all_present(symbols),
            ),
        ),
{
    let ghost lists = symbol_lists(viewed(chunks@));
    let mut builder = new_text_lists();
    let mut i: usize = 0;
    assert(lists.take(0) =~= Seq::<Seq<Seq<char>>>::empty());
    while i < chunks.len()
        invariant
            i <= chunks.len(),
            lists == symbol_lists(viewed(chunks@)),
            total_bytes(flattened(lists)) <= i32::MAX,
            flattened(lists).len() <= i32::MAX,
            closed_lists(builder) == lists.take(i as int),
            open_list(builder) == Seq::<Seq<char>>::empty(),
        decreases chunks.len() - i,
    {
        let symbols = &chunks[i].source.referenced_symbols;
        assert(lists[i as int] == views(symbols@));
        let mut j: usize = 0;
        assert(lists[i as int].take(0) =~= Seq::<Seq<char>>::empty());
        while j < symbols.len()
            invariant
                i < chunks.len(),
                j <= symbols.len(),
                lists == symbol_lists(viewed(chunks@)),
                lists[i as int] == views(symbols@),
                total_bytes(flattened(lists)) <= i32::MAX,
                closed_lists(builder) == lists.take(i as int),
                open_list(builder) == lists[i as int].take(j as int),
            decreases symbols.len() - j,
        {
            proof {
                lemma_prefix_bytes(lists, i as int, j + 1);
                assert(lists[i as int].take(j + 1) =~= lists[i as int].take(j as int).push(
                    symbols@[j as int]@,
                ));
                assert(texts_in(builder).push(symbols@[j as int]@) =~= flattened(
                    lists.take(i as int),
                ) + lists[i as int].take(j + 1));
            }
            append_text(&mut builder, symbols[j].as_str());
            j += 1;
        }
        proof {
            assert(lists[i as int].take(j as int) =~= lists[i as int]);
            lemma_prefix_bytes(lists, i as int, j as int);
        }
        close_list(&mut builder);
        assert(lists.take(i + 1) =~= lists.take(i as int).push(lists[i as int]));
        i += 1;
    }
    assert(lists.take(i as int) =~= lists);
    finish_lists(builder)
}

/// The batch of chunks and their vectors, under the given schema.
pub fn build_record_batch(
    schema: SchemaRef,
    chunks: &Vec<SemanticChunk>,
    vectors: &Vec<Vec<Single>>,
) -> (batch: Result<Batch, StorageError>)
    requires
        batch_limits(viewed(chunks@), vector_bits(vectors@)),
    ensures
        batch is Ok == fits_schema(
            schema_fields(*schema),
            chunk_columns(viewed(chunks@), vector_bits(vectors@)),
        ),
        batch matches Ok(b) ==> batch_columns(b) == by_name(
            field_names(schema_fields(*schema)),
            chunk_columns(viewed(chunks@), vector_bits(vectors@)),
        ),
        batch matches Ok(b) ==> batch_rows(b) == chunks.len(),
        batch matches Err(e) ==> e is Arrow,
{
    let ghost all = viewed(chunks@);
    let ghost columns = chunk_columns(all, vector_bits(vectors@));
    let size: i32 = if vectors.len() == 0 {
        0
    } else {
        #[verifier::truncate]
        (vectors[0].len() as i32)
    };
    let fields = Fields::gather(chunks);
    proof {
        lemma_gathered(fields, all, vector_bits(vectors@));
        assert(column_fits(columns[0]));
        assert(column_fits(columns[2]));
        assert(column_fits(columns[3]));
        assert(column_fits(columns[4]));
        assert(column_fits(columns[5]));
        assert(column_fits(columns[7]));
    }
    let mut built: Vec<Column> = Vec::new();
    built.push(text_column(&fields.ids));
    built.push(vector_column(vectors, size));
    built.push(text_column(&fields.file_paths));
    built.push(text_column(&fields.contracts));
    built.push(text_column(&fields.functions));
    built.push(text_column(&fields.code));
    built.push(symbol_column(chunks));
    built.push(text_column(&fields.kinds));
    built.push(number_column(&fields.start_lines));
    built.push(number_column(&fields.end_lines));
    assert(columns_data(built@) =~= columns);
    match new_batch(schema, built) {
        Ok(batch) => Ok(batch),
        Err(error) => Err(StorageError::Arrow(error)),
    }
}

// ---------------------------------------------------------------- limits

/// Whether texts take no more bytes than an offset can count.
fn texts_fit(texts: &Vec<String>) -> (fit: bool)
    ensures
        fit == (total_bytes(views(texts@)) <= i32::MAX),
{
    let ghost all = views(texts@);
    let mut total: u128 = 0;
    let mut i: usize = 0;
    assert(total_bytes(all.take(0)) == 0);
    while i < texts.len()
        invariant
            i <= texts.len(),
            all == views(texts@),
            total == total_bytes(all.take(i as int)),
            total <= i32::MAX,
        decreases texts.len() - i,
    {
        total = total + texts[i].as_str().as_bytes().len() as u128;
        proof {
            assert(all.take(i + 1).drop_last() =~= all.take(i as int));
            assert(all.take(i + 1) + all.skip(i + 1) =~= all);
            lemma_total_bytes(all.take(i + 1), all.skip(i + 1));
        }
        if total > 0x7fff_ffff {
            return false;
        }
        i += 1;
    }
    assert(all.take(i as int) =~= all);
    true
}

/// The symbols of all chunks, one after the other.
fn all_symbols(chunks: &Vec<SemanticChunk>) -> (symbols: Vec<String>)
    ensures
        views(symbols@) == flattened(symbol_lists(viewed(chunks@))),
{
    let ghost lists = symbol_lists(viewed(chunks@));
    let mut symbols: Vec<String> = Vec::new();
    let mut i: usize = 0;
    assert(views(symbols@) =~= flattened(lists.take(0)));
    while i < chunks.len()
        invariant
            i <= chunks.len(),
            lists == symbol_lists(viewed(chunks@)),
            views(symbols@) == flattened(lists.take(i as int)),
        decreases chunks.len() - i,
    {
        let list = &chunks[i].source.referenced_symbols;
        assert(lists[i as int] == views(list@));
        let mut j: usize = 0;
        assert(flattened(lists.take(i as int)) + lists[i as int].take(0) =~= flattened(
            lists.take(i as int),
        ));
        while j < list.len()
            invariant
                i < chunks.len(),
                j <= list.len(),
                lists[i as int] == views(list@),
                views(symbols@) == flattened(lists.take(i as int)) + lists[i as int].take(j as int),
            decreases list.len() - j,
        {
            let ghost before = views(symbols@);
            symbols.push(list[j].clone());
            assert(views(symbols@) =~= before.push(list@[j as int]@));
            assert(before.push(list@[j as int]@) =~= flattened(lists.take(i as int))
                + lists[i as int].take(j + 1));
            j += 1;
        }
        assert(lists[i as int].take(j as int) =~= lists[i as int]);
        assert(lists.take(i + 1).drop_last() =~= lists.take(i as int));
        i += 1;
    }
    assert(lists.take(i as int) =~= lists);
    symbols
}

/// Whether the vectors come to the size of the first one each.
fn vectors_fit(vectors: &Vec<Vec<Single>>) -> (fit: bool)
    ensures
        fit == ({
            let rows = vector_bits(vectors@);
            &&& vector_size(rows) >= 0
            &&& flattened(rows).len() == rows.len() * vector_size(rows)
            &&& 4 * (rows.len() * vector_size(rows)) + 64 <= isize::MAX
        }),
{
    let ghost rows = vector_bits(vectors@);
    let size: i32 = if vectors.len() == 0 {
        0
    } else {
        #[verifier::truncate]
        (vectors[0].len() as i32)
    };
    assert(size == vector_size(rows));
    if size < 0 {
        return false;
    }
    let mut total: u128 = 0;
    let mut i: usize = 0;
    assert(flattened(rows.take(0)).len() == 0);
    while i < vectors.len()
        invariant
            i <= vectors.len(),
            rows == vector_bits(vectors@),
            total == flattened(rows.take(i as int)).len(),
            total <= i * usize::MAX,
        decreases vectors.len() - i,
    {
        assert(i * usize::MAX + usize::MAX == (i + 1) * usize::MAX) by (nonlinear_arith);
        assert((i + 1) * usize::MAX <= usize::MAX * usize::MAX) by (nonlinear_arith)
            requires
                i + 1 <= usize::MAX,
        ;
        assert(usize::MAX * usize::MAX <= 0xffff_ffff_ffff_ffff * 0xffff_ffff_ffff_ffff)
            by (nonlinear_arith)
            requires
                usize::MAX <= 0xffff_ffff_ffff_ffff,
        ;
        total = total + vectors[i].len() as u128;
        assert(rows.take(i + 1).drop_last() =~= rows.take(i as int));
        assert(rows[i as int].len() == vectors@[i as int].len());
        i += 1;
    }
    assert(rows.take(i as int) =~= rows);
    assert(vectors.len() * size <= 0xffff_ffff_ffff_ffff * 0x7fff_ffff) by (nonlinear_arith)
        requires
            0 <= size <= 0x7fff_ffff,
            0 <= vectors.len() <= 0xffff_ffff_ffff_ffff,
    ;
    let expected: u128 = vectors.len() as u128 * size as u128;
    total == expected && 4 * expected + 64 <= isize::MAX as u128
}

/// Whether a batch can hold the chunks and their vectors.
pub fn batch_fits(chunks: &Vec<SemanticChunk>, vectors: &Vec<Vec<Single>>) -> (fits: bool)
    ensures
        fits == batch_limits(viewed(chunks@), vector_bits(vectors@)),
{
    let ghost columns = chunk_columns(viewed(chunks@), vector_bits(vectors@));
    let fields = Fields::gather(chunks);
    let symbols = all_symbols(chunks);
    let texts = texts_fit(&fields.ids) && texts_fit(&fields.file_paths) && texts_fit(
        &fields.contracts,
    ) && texts_fit(&fields.functions) && texts_fit(&fields.code) && texts_fit(&fields.kinds);
    proof {
        lemma_gathered(fields, viewed(chunks@), vector_bits(vectors@));
        if texts {
            assert forall|i: int| 0 <= i < 10 implies column_fits(#[trigger] columns[i]) by {}
        } else {
            assert(!column_fits(columns[0]) || !column_fits(columns[2]) || !column_fits(columns[3])
                || !column_fits(columns[4]) || !column_fits(columns[5]) || !column_fits(
                columns[7],
            ));
        }
    }
    texts && texts_fit(&symbols) && symbols.len() <= 0x7fff_ffff && vectors_fit(vectors)
}

// ---------------------------------------------------------------- reading

/// The texts of a list that are there.
pub open spec fn present(texts: Seq<Option<Seq<char>>>) -> Seq<Seq<char>>
    decreases texts.len(),
{
    if texts.len() == 0 {
        Seq::empty()
    } else {
        let before = present(texts.drop_last());
        match texts.last() {
            Some(text) => before.push(text),
            None => before,
        }
    }
}

/// The first column, in the order of reading, from which chunks cannot be read.
pub open spec fn malformed(columns: Map<Seq<char>, ColumnData>, rows: nat) -> Option<Seq<char>> {
    if as_texts(column_at(columns, "id"@)) is None {
        Some("id"@)
    } else if as_texts(column_at(columns, "file_path"@)) is None {
        Some("file_path"@)
    } else if as_texts(column_at(columns, "contract_name"@)) is None {
        Some("contract_name"@)
    } else if as_texts(column_at(columns, "function_name"@)) is None {
        Some("function_name"@)
    } else if as_texts(column_at(columns, "code_content"@)) is None {
        Some("code_content"@)
    } else if as_texts(column_at(columns, "kind"@)) is None {
        Some("kind"@)
    } else if as_numbers(column_at(columns, "start_line"@)) is None {
        Some("start_line"@)
    } else if as_numbers(column_at(columns, "end_line"@)) is None {
        Some("end_line"@)
    } else if as_lists(column_at(columns, "referenced_symbols"@)) is None {
        Some("referenced_symbols"@)
    } else if rows > 0 && column_at(columns, "referenced_symbols"@) is OtherLists {
        Some("referenced_symbols"@)
    } else {
        None
    }
}

/// The text of a row.
pub open spec fn text_at(columns: Map<Seq<char>, ColumnData>, name: Seq<char>, row: int) -> Seq<char> {
    as_texts(column_at(columns, name))->0[row]
}

/// The number of a row.
pub open spec fn number_at(columns: Map<Seq<char>, ColumnData>, name: Seq<char>, row: int) -> u32 {
    as_numbers(column_at(columns, name))->0[row]
}

/// The texts of the list of a row.
pub open spec fn list_at(columns: Map<Seq<char>, ColumnData>, name: Seq<char>, row: int) -> Seq<
    Seq<char>,
> {
    present(as_lists(column_at(columns, name))->0[row]->0)
}

/// The chunk of a row.
pub open spec fn stored_row(columns: Map<Seq<char>, ColumnData>, row: int) -> StoredChunkView {
    StoredChunkView {
        id: text_at(columns, "id"@, row),
        file_path: text_at(columns, "file_path"@, row),
        contract_name: text_at(columns, "contract_name"@, row),
        function_name: text_at(columns, "function_name"@, row),
        code_content: text_at(columns, "code_content"@, row),
        referenced_symbols: list_at(columns, "referenced_symbols"@, row),
        kind: text_at(columns, "kind"@, row),
        start_line: number_at(columns, "start_line"@, row),
        end_line: number_at(columns, "end_line"@, row),
    }
}

/// The chunks of a batch, or the column from which they cannot be read.
pub open spec fn chunk_rows(columns: Map<Seq<char>, ColumnData>, rows: nat) -> Result<
    Seq<StoredChunkView>,
    Seq<char>,
> {
    match malformed(columns, rows) {
        Some(name) => Err(name),
        None => Ok(Seq::new(rows, |row: int| stored_row(columns, row))),
    }
}

/// The outcome of reading says what the columns say.
pub open spec fn reads_as<T: View>(
    outcome: Result<Vec<T>, StorageError>,
    meant: Result<Seq<T::V>, Seq<char>>,
) -> bool {
    match outcome {
        Ok(items) => meant == Ok::<Seq<T::V>, Seq<char>>(viewed(items@)),
        Err(error) => error is MalformedColumn && meant == Err::<Seq<T::V>, Seq<char>>(
            error->MalformedColumn_0@,
        ),
    }
}

fn texts_of(batch: &Batch, name: &'static str) -> (texts: Result<Vec<String>, StorageError>)
    ensures
        texts matches Ok(list) ==> as_texts(column_at(batch_columns(*batch), name@)) == Some(
            views(list@),
        ) && list.len() == batch_rows(*batch),
        texts matches Err(e) ==> as_texts(column_at(batch_columns(*batch), name@)) is None && e
            == StorageError::MalformedColumn(name),
{
    match read_texts(batch, name) {
        Some(list) => Ok(list),
        None => Err(StorageError::MalformedColumn(name)),
    }
}

fn numbers_of(batch: &Batch, name: &'static str) -> (numbers: Result<Vec<u32>, StorageError>)
    ensures
        numbers matches Ok(list) ==> as_numbers(column_at(batch_columns(*batch), name@)) == Some(
            list@,
        ) && list.len() == batch_rows(*batch),
        numbers matches Err(e) ==> as_numbers(column_at(batch_columns(*batch), name@)) is None && e
            == StorageError::MalformedColumn(name),
{
    match read_numbers(batch, name) {
        Some(list) => Ok(list),
        None => Err(StorageError::MalformedColumn(name)),
    }
}

/// The texts of a list that are there.
pub fn present_texts(texts: &Vec<Option<String>>) -> (list: Vec<String>)
    ensures
        views(list@) == present(texts@.map_values(|text: Option<String>| text_view(text))),
{
    let ghost all = texts@.map_values(|text: Option<String>| text_view(text));
    let mut list: Vec<String> = Vec::new();
    let mut i: usize = 0;
    assert(views(list@) =~= present(all.take(0)));
    while i < texts.len()
        invariant
            i <= texts.len(),
            all == texts@.map_values(|text: Option<String>| text_view(text)),
            views(list@) == present(all.take(i as int)),
        decreases texts.len() - i,
    {
        let ghost before = views(list@);
        assert(all.take(i + 1).drop_last() =~= all.take(i as int));
        if let Some(text) = &texts[i] {
            list.push(text.clone());
            assert(views(list@) =~= before.push(text@));
        }
        i += 1;
    }
    assert(all.take(i as int) =~= all);
    list
}

/// No row of a list column can be read where its items are not texts, and every
/// row where they are.
pub proof fn lemma_list_rows(data: ColumnData, row: int)
    requires
        as_lists(data) is Some,
        0 <= row < as_lists(data)->0.len(),
    ensures
        (as_lists(data)->0[row] is None) == (data is OtherLists),
{
    match data {
        ColumnData::TextLists(rows) => {
            assert(rows.map_values(|row: Seq<Option<Seq<char>>>| Some(row))[row] is Some);
        },
        _ => {},
    }
}

/// The chunks of a batch, row by row.
pub fn parse_chunk_rows(batch: &Batch) -> (chunks: Result<Vec<StoredChunk>, StorageError>)
    ensures
        reads_as(chunks, chunk_rows(batch_columns(*batch), batch_rows(*batch))),
{
    let ghost columns = batch_columns(*batch);
    let ids = texts_of(batch, "id")?;
    let file_paths = texts_of(batch, "file_path")?;
    let contracts = texts_of(batch, "contract_name")?;
    let functions = texts_of(batch, "function_name")?;
    let code = texts_of(batch, "code_content")?;
    let kinds = texts_of(batch, "kind")?;
    let start_lines = numbers_of(batch, "start_line")?;
    let end_lines = numbers_of(batch, "end_line")?;
    let symbols = match read_lists(batch, "referenced_symbols") {
        Some(lists) => lists,
        None => return Err(StorageError::MalformedColumn("referenced_symbols")),
    };
    let rows = count_rows(batch);
    let mut chunks: Vec<StoredChunk> = Vec::new();
    let mut row: usize = 0;
    while row < rows
        invariant
            row <= rows == batch_rows(*batch),
            columns == batch_columns(*batch),
            rows == ids.len() == file_paths.len() == contracts.len() == functions.len()
                == code.len() == kinds.len() == start_lines.len() == end_lines.len()
                == symbols.len(),
            as_texts(column_at(columns, "id"@)) == Some(views(ids@)),
            as_texts(column_at(columns, "file_path"@)) == Some(views(file_paths@)),
            as_texts(column_at(columns, "contract_name"@)) == Some(views(contracts@)),
            as_texts(column_at(columns, "function_name"@)) == Some(views(functions@)),
            as_texts(column_at(columns, "code_content"@)) == Some(views(code@)),
            as_texts(column_at(columns, "kind"@)) == Some(views(kinds@)),
            as_numbers(column_at(columns, "start_line"@)) == Some(start_lines@),
            as_numbers(column_at(columns, "end_line"@)) == Some(end_lines@),
            as_lists(column_at(columns, "referenced_symbols"@)) == Some(
                symbols@.map_values(|list: Option<Vec<Option<String>>>| list_view(list)),
            ),
            row > 0 ==> !(column_at(columns, "referenced_symbols"@) is OtherLists),
            viewed(chunks@) == Seq::new(row as nat, |i: int| stored_row(columns, i)),
        decreases rows - row,
    {
        let ghost before = viewed(chunks@);
        let ghost lists = symbols@.map_values(
            |list: Option<Vec<Option<String>>>| list_view(list),
        );
        assert(lists[row as int] == list_view(symbols@[row as int]));
        proof {
            lemma_list_rows(column_at(columns, "referenced_symbols"@), row as int);
        }
        let referenced_symbols = match &symbols[row] {
            Some(texts) => present_texts(texts),
            None => {
                assert(column_at(columns, "referenced_symbols"@) is OtherLists);
                return Err(StorageError::MalformedColumn("referenced_symbols"));
            },
        };
        let chunk = StoredChunk {
            id: ids[row].clone(),
            file_path: file_paths[row].clone(),
            contract_name: contracts[row].clone(),
            function_name: functions[row].clone(),
            code_content: code[row].clone(),
            referenced_symbols,
            kind: kinds[row].clone(),
            start_line: start_lines[row],
            end_line: end_lines[row],
        };
        assert(chunk@ =~= stored_row(columns, row as int));
        let ghost said = chunk@;
        chunks.push(chunk);
        assert(viewed(chunks@) =~= before.push(said));
        assert(viewed(chunks@) =~= Seq::new((row + 1) as nat, |i: int| stored_row(columns, i)));
        row += 1;
    }
    Ok(chunks)
}

/// The hits of a batch with the measure in the named column, or the column from
/// which they cannot be read. The measure is looked for first.
pub open spec fn hit_rows(
    columns: Map<Seq<char>, ColumnData>,
    rows: nat,
    name: Seq<char>,
) -> Result<Seq<HitView>, Seq<char>> {
    match as_singles(column_at(columns, name)) {
        None => Err(name),
        Some(measures) => match chunk_rows(columns, rows) {
            Err(bad) => Err(bad),
            Ok(chunks) => Ok(
                Seq::new(rows, |i: int| HitView { measure: measures[i], chunk: chunks[i] }),
            ),
        },
    }
}

/// The hits of a batch of the vector search.
pub fn parse_search_batch(batch: &Batch) -> (hits: Result<Vec<SearchResult>, StorageError>)
    ensures
        reads_as(hits, hit_rows(batch_columns(*batch), batch_rows(*batch), "_distance"@)),
{
    let distances = match read_singles(batch, "_distance") {
        Some(list) => list,
        None => return Err(StorageError::MalformedColumn("_distance")),
    };
    let chunks = parse_chunk_rows(batch)?;
    let ghost rows = viewed(chunks@);
    assert(rows.len() == batch_rows(*batch));
    let mut hits: Vec<SearchResult> = Vec::new();
    for chunk in it: chunks
        invariant
            it.seq() == chunks@,
            rows == viewed(chunks@),
            distances.len() == chunks.len(),
            viewed(hits@) == Seq::new(
                it.index() as nat,
                |i: int| HitView { measure: bits_of(distances@)[i], chunk: rows[i] },
            ),
    {
        let ghost before = viewed(hits@);
        let row: usize = hits.len();
        assert(before.len() == it.index());
        let hit = SearchResult { distance: distances[row], chunk };
        let ghost said = hit@;
        assert(rows[row as int] == chunks@[row as int]@);
        hits.push(hit);
        assert(viewed(hits@) =~= before.push(said));
        assert(viewed(hits@) =~= Seq::new(
            (it.index() + 1) as nat,
            |i: int| HitView { measure: bits_of(distances@)[i], chunk: rows[i] },
        ));
    }
    Ok(hits)
}

/// The hits of a batch of the full-text search.
pub fn parse_fts_batch(batch: &Batch) -> (hits: Result<Vec<FtsResult>, StorageError>)
    ensures
        reads_as(hits, hit_rows(batch_columns(*batch), batch_rows(*batch), "_score"@)),
{
    let scores = match read_singles(batch, "_score") {
        Some(list) => list,
        None => return Err(StorageError::MalformedColumn("_score")),
    };
    let chunks = parse_chunk_rows(batch)?;
    let ghost rows = viewed(chunks@);
    assert(rows.len() == batch_rows(*batch));
    let mut hits: Vec<FtsResult> = Vec::new();
    for chunk in it: chunks
        invariant
            it.seq() == chunks@,
            rows == viewed(chunks@),
            scores.len() == chunks.len(),
            viewed(hits@) == Seq::new(
                it.index() as nat,
                |i: int| HitView { measure: bits_of(scores@)[i], chunk: rows[i] },
            ),
    {
        let ghost before = viewed(hits@);
        let row: usize = hits.len();
        assert(before.len() == it.index());
        let hit = FtsResult { score: scores[row], chunk };
        let ghost said = hit@;
        assert(rows[row as int] == chunks@[row as int]@);
        hits.push(hit);
        assert(viewed(hits@) =~= before.push(said));
        assert(viewed(hits@) =~= Seq::new(
            (it.index() + 1) as nat,
            |i: int| HitView { measure: bits_of(scores@)[i], chunk: rows[i] },
        ));
    }
    Ok(hits)
}

// ---------------------------------------------------------------- batches

/// The columns and the number of rows of batches.
pub open spec fn batch_views(batches: Seq<Batch>) -> Seq<(Map<Seq<char>, ColumnData>, nat)> {
    batches.map_values(|batch: Batch| (batch_columns(batch), batch_rows(batch)))
}

/// Rows in front of more rows, or the first thing that went wrong.
pub open spec fn followed<T>(
    before: Result<Seq<T>, Seq<char>>,
    more: Result<Seq<T>, Seq<char>>,
) -> Result<Seq<T>, Seq<char>> {
    match before {
        Err(name) => Err(name),
        Ok(first) => match more {
            Err(name) => Err(name),
            Ok(rest) => Ok(first + rest),
        },
    }
}

/// The chunks of all batches, or the first column from which they cannot be read.
pub open spec fn all_chunk_rows(batches: Seq<(Map<Seq<char>, ColumnData>, nat)>) -> Result<
    Seq<StoredChunkView>,
    Seq<char>,
>
    decreases batches.len(),
{
    if batches.len() == 0 {
        Ok(Seq::empty())
    } else {
        followed(
            all_chunk_rows(batches.drop_last()),
            chunk_rows(batches.last().0, batches.last().1),
        )
    }
}

/// The hits of all batches, or the first column from which they cannot be read.
pub open spec fn all_hit_rows(
    batches: Seq<(Map<Seq<char>, ColumnData>, nat)>,
    name: Seq<char>,
) -> Result<Seq<HitView>, Seq<char>>
    decreases batches.len(),
{
    if batches.len() == 0 {
        Ok(Seq::empty())
    } else {
        followed(
            all_hit_rows(batches.drop_last(), name),
            hit_rows(batches.last().0, batches.last().1, name),
        )
    }
}

/// A failure in one batch is the failure of all.
proof fn lemma_chunk_failure(
    batches: Seq<(Map<Seq<char>, ColumnData>, nat)>,
    i: int,
    name: Seq<char>,
)
    requires
        0 < i <= batches.len(),
        all_chunk_rows(batches.take(i)) == Err::<Seq<StoredChunkView>, Seq<char>>(name),
    ensures
        all_chunk_rows(batches) == Err::<Seq<StoredChunkView>, Seq<char>>(name),
    decreases batches.len(),
{
    if i == batches.len() {
        assert(batches.take(i) =~= batches);
    } else {
        assert(batches.drop_last().take(i) =~= batches.take(i));
        lemma_chunk_failure(batches.drop_last(), i, name);
    }
}

/// A failure in one batch is the failure of all.
proof fn lemma_hit_failure(
    batches: Seq<(Map<Seq<char>, ColumnData>, nat)>,
    measure: Seq<char>,
    i: int,
    name: Seq<char>,
)
    requires
        0 < i <= batches.len(),
        all_hit_rows(batches.take(i), measure) == Err::<Seq<HitView>, Seq<char>>(name),
    ensures
        all_hit_rows(batches, measure) == Err::<Seq<HitView>, Seq<char>>(name),
    decreases batches.len(),
{
    if i == batches.len() {
        assert(batches.take(i) =~= batches);
    } else {
        assert(batches.drop_last().take(i) =~= batches.take(i));
        lemma_hit_failure(batches.drop_last(), measure, i, name);
    }
}

/// The chunks of all batches, in order.
pub fn stored_chunks(batches: &Vec<Batch>) -> (chunks: Result<Vec<StoredChunk>, StorageError>)
    ensures
        reads_as(chunks, all_chunk_rows(batch_views(batches@))),
{
    let ghost all = batch_views(batches@);
    let mut chunks: Vec<StoredChunk> = Vec::new();
    let mut i: usize = 0;
    assert(viewed(chunks@) =~= Seq::<StoredChunkView>::empty());
    while i < batches.len()
        invariant
            i <= batches.len(),
            all == batch_views(batches@),
            all_chunk_rows(all.take(i as int)) == Ok::<Seq<StoredChunkView>, Seq<char>>(
                viewed(chunks@),
            ),
        decreases batches.len() - i,
    {
        let ghost before = viewed(chunks@);
        assert(all.take(i + 1).drop_last() =~= all.take(i as int));
        match parse_chunk_rows(&batches[i]) {
            Ok(mut rows) => {
                let ghost more = viewed(rows@);
                let ghost first = chunks@;
                let ghost second = rows@;
                chunks.append(&mut rows);
                assert(chunks@ =~= first + second);
                assert(viewed(chunks@) =~= before + more);
            },
            Err(error) => {
                proof {
                    lemma_chunk_failure(all, i + 1, error->MalformedColumn_0@);
                }
                return Err(error);
            },
        }
        i += 1;
    }
    assert(all.take(i as int) =~= all);
    Ok(chunks)
}

/// The sort keys for ascending measures.
pub open spec fn ascending_keys(hits: Seq<HitView>) -> Seq<u32> {
    hits.map_values(|hit: HitView| order_key(hit.measure) as u32)
}

/// The sort keys for descending measures.
pub open spec fn descending_keys(hits: Seq<HitView>) -> Seq<u32> {
    hits.map_values(|hit: HitView| (0xffff_ffff - order_key(hit.measure)) as u32)
}

/// `sorted` holds the hits by ascending measure, and equal ones in their order.
pub open spec fn nearest_first(hits: Seq<HitView>, sorted: Seq<HitView>) -> bool {
    stably_sorted::<u32, HitView>(ascending_keys(hits), hits, sorted)
}

/// `sorted` holds the hits by descending measure, and equal ones in their order.
pub open spec fn best_first(hits: Seq<HitView>, sorted: Seq<HitView>) -> bool {
    stably_sorted::<u32, HitView>(descending_keys(hits), hits, sorted)
}

/// The hits of the vector search, nearest first.
pub fn search_results(batches: &Vec<Batch>) -> (hits: Result<Vec<SearchResult>, StorageError>)
    ensures
        match hits {
            Ok(sorted) => {
                let rows = all_hit_rows(batch_views(batches@), "_distance"@);
                rows is Ok && nearest_first(rows->Ok_0, viewed(sorted@))
            },
            Err(error) => error is MalformedColumn && all_hit_rows(
                batch_views(batches@),
                "_distance"@,
            ) == Err::<Seq<HitView>, Seq<char>>(error->MalformedColumn_0@),
        },
{
    let ghost all = batch_views(batches@);
    let mut hits: Vec<SearchResult> = Vec::new();
    let mut keys: Vec<u32> = Vec::new();
    let mut i: usize = 0;
    assert(viewed(hits@) =~= Seq::<HitView>::empty());
    while i < batches.len()
        invariant
            i <= batches.len(),
            all == batch_views(batches@),
            all_hit_rows(all.take(i as int), "_distance"@) == Ok::<Seq<HitView>, Seq<char>>(
                viewed(hits@),
            ),
        decreases batches.len() - i,
    {
        let ghost before = viewed(hits@);
        assert(all.take(i + 1).drop_last() =~= all.take(i as int));
        match parse_search_batch(&batches[i]) {
            Ok(mut rows) => {
                let ghost more = viewed(rows@);
                let ghost first = hits@;
                let ghost second = rows@;
                hits.append(&mut rows);
                assert(hits@ =~= first + second);
                assert(viewed(hits@) =~= before + more);
            },
            Err(error) => {
                proof {
                    lemma_hit_failure(all, "_distance"@, i + 1, error->MalformedColumn_0@);
                }
                return Err(error);
            },
        }
        i += 1;
    }
    assert(all.take(i as int) =~= all);
    let mut j: usize = 0;
    while j < hits.len()
        invariant
            j <= hits.len(),
            keys.len() == j,
            forall|k: int| 0 <= k < j ==> keys@[k] == order_key(hits@[k].distance.bits),
        decreases hits.len() - j,
    {
        keys.push(hits[j].distance.ascending_key());
        j += 1;
    }
    let ghost unsorted = hits@;
    assert(viewed(keys@) =~= ascending_keys(viewed(unsorted)));
    let sorted = stable_sort(keys, hits);
    proof {
        lemma_sorted_views::<u32, SearchResult>(
            ascending_keys(viewed(unsorted)),
            unsorted,
            sorted@,
        );
        assert(nearest_first(viewed(unsorted), viewed(sorted@)));
    }
    Ok(sorted)
}

/// The hits of the full-text search, best first.
pub fn fts_results(batches: &Vec<Batch>) -> (hits: Result<Vec<FtsResult>, StorageError>)
    ensures
        match hits {
            Ok(sorted) => {
                let rows = all_hit_rows(batch_views(batches@), "_score"@);
                rows is Ok && best_first(rows->Ok_0, viewed(sorted@))
            },
            Err(error) => error is MalformedColumn && all_hit_rows(
                batch_views(batches@),
                "_score"@,
            ) == Err::<Seq<HitView>, Seq<char>>(error->MalformedColumn_0@),
        },
{
    let ghost all = batch_views(batches@);
    let mut hits: Vec<FtsResult> = Vec::new();
    let mut keys: Vec<u32> = Vec::new();
    let mut i: usize = 0;
    assert(viewed(hits@) =~= Seq::<HitView>::empty());
    while i < batches.len()
        invariant
            i <= batches.len(),
            all == batch_views(batches@),
            all_hit_rows(all.take(i as int), "_score"@) == Ok::<Seq<HitView>, Seq<char>>(
                viewed(hits@),
            ),
        decreases batches.len() - i,
    {
        let ghost before = viewed(hits@);
        assert(all.take(i + 1).drop_last() =~= all.take(i as int));
        match parse_fts_batch(&batches[i]) {
            Ok(mut rows) => {
                let ghost more = viewed(rows@);
                let ghost first = hits@;
                let ghost second = rows@;
                hits.append(&mut rows);
                assert(hits@ =~= first + second);
                assert(viewed(hits@) =~= before + more);
            },
            Err(error) => {
                proof {
                    lemma_hit_failure(all, "_score"@, i + 1, error->MalformedColumn_0@);
                }
                return Err(error);
            },
        }
        i += 1;
    }
    assert(all.take(i as int) =~= all);
    let mut j: usize = 0;
    while j < hits.len()
        invariant
            j <= hits.len(),
            keys.len() == j,
            forall|k: int| 0 <= k < j ==> keys@[k] == 0xffff_ffff - order_key(hits@[k].score.bits),
        decreases hits.len() - j,
    {
        keys.push(hits[j].score.descending_key());
        j += 1;
    }
    let ghost unsorted = hits@;
    assert(viewed(keys@) =~= descending_keys(viewed(unsorted)));
    let sorted = stable_sort(keys, hits);
    proof {
        lemma_sorted_views::<u32, FtsResult>(
            descending_keys(viewed(unsorted)),
            unsorted,
            sorted@,
        );
        assert(best_first(viewed(unsorted), viewed(sorted@)));
    }
    Ok(sorted)
}

/// Whether the table is among the existing ones.
pub fn table_exists(existing: &Vec<String>, table_name: &str) -> (found: bool)
    ensures
        found == views(existing@).contains(table_name@),
{
    let ghost all = views(existing@);
    let mut i: usize = 0;
    while i < existing.len()
        invariant
            i <= existing.len(),
            all == views(existing@),
            forall|j: int| 0 <= j < i ==> all[j] != table_name@,
        decreases existing.len() - i,
    {
        assert(all[i as int] == existing@[i as int]@);
        if same_text(existing[i].as_str(), table_name) {
            return true;
        }
        i += 1;
    }
    false
}

/// The limit of a scan of the whole table, which may not be zero.
pub fn scan_limit(total: usize) -> (limit: usize)
    ensures
        limit == if total == 0 {
            1
        } else {
            total
        },
{
    if total == 0 {
        1
    } else {
        total
    }
}

// ---------------------------------------------------------------- laws

/// A chunk as the table gives it back: line numbers are kept modulo `2^32`.
pub open spec fn stored_of(chunk: SemanticChunkView) -> StoredChunkView {
    StoredChunkView {
        id: chunk.id,
        file_path: chunk.source.file_path,
        contract_name: chunk.source.contract_name,
        function_name: chunk.source.function_name,
        code_content: chunk.source.code_content,
        referenced_symbols: chunk.source.referenced_symbols,
        kind: kind_name(chunk.source.kind),
        start_line: chunk.source.start_line as u32,
        end_line: chunk.source.end_line as u32,
    }
}

/// Nothing is lost of a list in which nothing is missing.
proof fn lemma_all_present(texts: Seq<Seq<char>>)
    ensures
        present(all_present(texts)) == texts,
    decreases texts.len(),
{
    if texts.len() > 0 {
        assert(all_present(texts).drop_last() =~= all_present(texts.drop_last()));
        lemma_all_present(texts.drop_last());
        assert(texts.drop_last().push(texts.last()) =~= texts);
    } else {
        assert(present(all_present(texts)) =~= texts);
    }
}

/// The columns of the table have different names.
proof fn lemma_names_differ(size: i32, i: int, j: int)
    requires
        0 <= i < 10,
        0 <= j < 10,
        i != j,
    ensures
        field_names(chunk_fields(size))[i] != field_names(chunk_fields(size))[j],
{
    reveal_strlit("id");
    reveal_strlit("vector");
    reveal_strlit("file_path");
    reveal_strlit("contract_name");
    reveal_strlit("function_name");
    reveal_strlit("code_content");
    reveal_strlit("referenced_symbols");
    reveal_strlit("kind");
    reveal_strlit("start_line");
    reveal_strlit("end_line");
    let names = field_names(chunk_fields(size));
    assert(names[0].len() == 2);
    assert(names[1].len() == 6);
    assert(names[2].len() == 9);
    assert(names[3].len() == 13 && names[3][0] == 'c');
    assert(names[4].len() == 13 && names[4][0] == 'f');
    assert(names[5].len() == 12);
    assert(names[6].len() == 18);
    assert(names[7].len() == 4);
    assert(names[8].len() == 10);
    assert(names[9].len() == 8);
}

/// Each name finds its own column.
pub proof fn lemma_column_by_name(size: i32, columns: Seq<ColumnData>, i: int)
    requires
        columns.len() == 10,
        0 <= i < 10,
    ensures
        ({
            let names = field_names(chunk_fields(size));
            column_at(by_name(names, columns), names[i]) == columns[i]
        }),
{
    let names = field_names(chunk_fields(size));
    assert(names.contains(names[i]));
    names.index_of_first_ensures(names[i]);
    let found = names.index_of_first(names[i])->0;
    if found != i {
        lemma_names_differ(size, found, i);
    }
}

/// Reading a batch of chunks gives back what was written, under the table's schema
/// and for vectors of any size.
pub proof fn written_chunks_are_read_back(
    chunks: Seq<SemanticChunkView>,
    vectors: Seq<Seq<u32>>,
    size: i32,
)
    ensures
        chunk_rows(
            by_name(field_names(chunk_fields(size)), chunk_columns(chunks, vectors)),
            chunks.len(),
        ) == Ok::<Seq<StoredChunkView>, Seq<char>>(
            chunks.map_values(|chunk: SemanticChunkView| stored_of(chunk)),
        ),
{
    let names = field_names(chunk_fields(size));
    let data = chunk_columns(chunks, vectors);
    let columns = by_name(names, data);
    assert forall|i: int| 0 <= i < 10 implies #[trigger] column_at(columns, names[i]) == data[i] by {
        lemma_column_by_name(size, data, i);
    }
    assert(column_at(columns, names[0]) == data[0]);
    assert(column_at(columns, names[2]) == data[2]);
    assert(column_at(columns, names[3]) == data[3]);
    assert(column_at(columns, names[4]) == data[4]);
    assert(column_at(columns, names[5]) == data[5]);
    assert(column_at(columns, names[6]) == data[6]);
    assert(column_at(columns, names[7]) == data[7]);
    assert(column_at(columns, names[8]) == data[8]);
    assert(column_at(columns, names[9]) == data[9]);
    assert(malformed(columns, chunks.len()) is None);
    assert forall|i: int| 0 <= i < chunks.len() implies #[trigger] stored_row(columns, i) == stored_of(
        chunks[i],
    ) by {
        lemma_all_present(chunks[i].source.referenced_symbols);
        assert(symbol_lists(chunks)[i] == chunks[i].source.referenced_symbols);
        assert(list_at(columns, "referenced_symbols"@, i) == chunks[i].source.referenced_symbols);
        assert(stored_row(columns, i) =~= stored_of(chunks[i]));
    }
    assert(Seq::new(chunks.len(), |i: int| stored_row(columns, i)) =~= chunks.map_values(
        |chunk: SemanticChunkView| stored_of(chunk),
    ));
}

/// Rows of one size put together.
pub proof fn lemma_flattened_len<T>(rows: Seq<Seq<T>>, size: nat)
    requires
        forall|i: int| 0 <= i < rows.len() ==> (#[trigger] rows[i]).len() == size,
    ensures
        flattened(rows).len() == rows.len() * size,
    decreases rows.len(),
{
    if rows.len() > 0 {
        lemma_flattened_len(rows.drop_last(), size);
        assert((rows.len() - 1) * size + size == rows.len() * size) by (nonlinear_arith);
    } else {
        assert(0 * size == 0);
    }
}

/// Where an item of rows of one size comes to stand.
proof fn lemma_flattened_at<T>(rows: Seq<Seq<T>>, size: nat, i: int, j: int)
    requires
        forall|k: int| 0 <= k < rows.len() ==> (#[trigger] rows[k]).len() == size,
        0 <= i < rows.len(),
        0 <= j < size,
    ensures
        0 <= i * size + j < flattened(rows).len(),
        flattened(rows)[i * size + j] == rows[i][j],
    decreases rows.len(),
{
    let before = rows.drop_last();
    lemma_flattened_len(before, size);
    if i < rows.len() - 1 {
        lemma_flattened_at(before, size, i, j);
    } else {
        assert(0 <= i * size) by (nonlinear_arith)
            requires
                i >= 0,
        ;
    }
}

/// Rows of one size come apart again as they were.
proof fn lemma_grouped_rows<T>(rows: Seq<Seq<T>>, size: nat)
    requires
        size > 0,
        forall|i: int| 0 <= i < rows.len() ==> (#[trigger] rows[i]).len() == size,
    ensures
        grouped(flattened(rows), size) == rows,
{
    lemma_flattened_len(rows, size);
    let flat = flattened(rows);
    let n = rows.len();
    assert(n * size / size == n) by (nonlinear_arith)
        requires
            size > 0,
    ;
    let again = grouped(flat, size);
    assert forall|i: int| 0 <= i < n implies #[trigger] again[i] == rows[i] by {
        assert(i * size + size == (i + 1) * size) by (nonlinear_arith);
        assert((i + 1) * size <= n * size) by (nonlinear_arith)
            requires
                i + 1 <= n,
        ;
        assert(0 <= i * size) by (nonlinear_arith)
            requires
                i >= 0,
        ;
        assert forall|j: int| 0 <= j < size implies #[trigger] again[i][j] == rows[i][j] by {
            lemma_flattened_at(rows, size, i, j);
        }
        assert(again[i] =~= rows[i]);
    }
    assert(again =~= rows);
}

/// A batch with one vector of the table's size for each chunk fits the table's
/// schema, and holds these vectors.
pub proof fn matching_vectors_fit_the_schema(
    chunks: Seq<SemanticChunkView>,
    vectors: Seq<Seq<u32>>,
    size: i32,
)
    requires
        size > 0,
        vectors.len() == chunks.len() > 0,
        forall|i: int| 0 <= i < vectors.len() ==> (#[trigger] vectors[i]).len() == size,
    ensures
        fits_schema(chunk_fields(size), chunk_columns(chunks, vectors)),
        chunk_columns(chunks, vectors)[1] == ColumnData::Vectors(vectors, size),
{
    assert(vectors[0].len() == size);
    lemma_grouped_rows(vectors, size as nat);
    let fields = chunk_fields(size);
    let columns = chunk_columns(chunks, vectors);
    assert forall|i: int| 0 <= i < columns.len() implies row_count(#[trigger] columns[i])
        == row_count(columns[0]) && type_of(columns[i]) == Some(fields[i].data) by {
        assert(symbol_lists(chunks).len() == chunks.len());
    }
}

} // verus!
