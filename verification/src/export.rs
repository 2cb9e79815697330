//! Rows of the table for offline analysis: every column, with the vectors.
use vstd::prelude::*;
use vstd::string::*;

use crate::chunker::SemanticChunkView;
use crate::columns::{
    as_lists, as_numbers, as_texts, as_vectors, batch_columns, batch_rows, bits_of, by_name,
    column_at, count_rows, field_names, list_view, read_lists, read_numbers, read_texts,
    read_vectors, vector_view, Batch, ColumnData,
};
use crate::float::Single;
use crate::ordered::viewed;
use crate::storage::{
    chunk_columns, chunk_fields, lemma_column_by_name, lemma_list_rows, malformed,
    matching_vectors_fit_the_schema, present_texts, stored_of, stored_row,
    written_chunks_are_read_back, StoredChunkView,
};
use crate::text::{decimal, decimal_text, views};

verus! {

/// A row of the table with its vector.
#[derive(Debug)]
pub struct AnalysisRow {
    pub id: String,
    pub vector: Vec<Single>,
    pub file_path: String,
    pub contract_name: String,
    pub function_name: String,
    pub code_content: String,
    pub referenced_symbols: Vec<String>,
    pub kind: String,
    pub start_line: u32,
    pub end_line: u32,
}

/// What an [`AnalysisRow`] says: the stored chunk, and the bit patterns of its
/// vector.
#[verifier::ext_equal]
pub struct AnalysisRowView {
    pub chunk: StoredChunkView,
    pub vector: Seq<u32>,
}

impl View for AnalysisRow {
    type V = AnalysisRowView;

    open spec fn view(&self) -> AnalysisRowView {
        AnalysisRowView {
            chunk: StoredChunkView {
                id: self.id@,
                file_path: self.file_path@,
                contract_name: self.contract_name@,
                function_name: self.function_name@,
                code_content: self.code_content@,
                referenced_symbols: views(self.referenced_symbols@),
                kind: self.kind@,
                start_line: self.start_line,
                end_line: self.end_line,
            },
            vector: bits_of(self.vector@),
        }
    }
}

/// Why a batch could not be exported.
#[derive(Debug)]
pub enum ExportError {
    /// A text column is missing or has the wrong type.
    TextColumn(&'static str),
    /// A number column is missing or has the wrong type.
    NumberColumn(&'static str),
    /// The vector column is missing or has the wrong type.
    VectorColumn,
    /// The symbol column is missing or has the wrong type.
    SymbolColumn,
    /// The vector of a row does not hold singles.
    VectorValue(usize),
    /// The symbols of a row are not texts.
    SymbolValue(usize),
}

/// What an [`ExportError`] says.
pub enum ExportErrorView {
    TextColumn(Seq<char>),
    NumberColumn(Seq<char>),
    VectorColumn,
    SymbolColumn,
    VectorValue(nat),
    SymbolValue(nat),
}

impl View for ExportError {
    type V = ExportErrorView;

    open spec fn view(&self) -> ExportErrorView {
        match self {
            ExportError::TextColumn(name) => ExportErrorView::TextColumn(name@),
            ExportError::NumberColumn(name) => ExportErrorView::NumberColumn(name@),
            ExportError::VectorColumn => ExportErrorView::VectorColumn,
            ExportError::SymbolColumn => ExportErrorView::SymbolColumn,
            ExportError::VectorValue(row) => ExportErrorView::VectorValue(*row as nat),
            ExportError::SymbolValue(row) => ExportErrorView::SymbolValue(*row as nat),
        }
    }
}

/// An error in words.
pub open spec fn error_words(error: ExportErrorView) -> Seq<char> {
    match error {
        ExportErrorView::TextColumn(name) => "bad or missing string column `"@ + name + "`"@,
        ExportErrorView::NumberColumn(name) => "bad or missing uint column `"@ + name + "`"@,
        ExportErrorView::VectorColumn => "bad or missing vector column"@,
        ExportErrorView::SymbolColumn => "bad or missing referenced_symbols column"@,
        ExportErrorView::VectorValue(row) => "bad vector value at row "@ + decimal(row),
        ExportErrorView::SymbolValue(row) => "bad referenced_symbols value at row "@ + decimal(row),
    }
}

impl ExportError {
    /// The error in words.
    pub fn message(&self) -> (text: String)
        ensures
            text@ == error_words(self@),
    {
        match self {
            ExportError::TextColumn(name) => {
                let mut text = "bad or missing string column `".to_owned();
                text.append(name);
                text.append("`");
                text
            },
            ExportError::NumberColumn(name) => {
                let mut text = "bad or missing uint column `".to_owned();
                text.append(name);
                text.append("`");
                text
            },
            ExportError::VectorColumn => "bad or missing vector column".to_owned(),
            ExportError::SymbolColumn => "bad or missing referenced_symbols column".to_owned(),
            ExportError::VectorValue(row) => {
                let mut text = "bad vector value at row ".to_owned();
                let number = decimal_text(*row as u128);
                text.append(number.as_str());
                text
            },
            ExportError::SymbolValue(row) => {
                let mut text = "bad referenced_symbols value at row ".to_owned();
                let number = decimal_text(*row as u128);
                text.append(number.as_str());
                text
            },
        }
    }
}

/// The first thing, in the order of reading, that keeps a batch from being
/// exported.
pub open spec fn export_error(columns: Map<Seq<char>, ColumnData>, rows: nat) -> Option<
    ExportErrorView,
> {
    if as_texts(column_at(columns, "id"@)) is None {
        Some(ExportErrorView::TextColumn("id"@))
    } else if as_texts(column_at(columns, "file_path"@)) is None {
        Some(ExportErrorView::TextColumn("file_path"@))
    } else if as_texts(column_at(columns, "contract_name"@)) is None {
        Some(ExportErrorView::TextColumn("contract_name"@))
    } else if as_texts(column_at(columns, "function_name"@)) is None {
        Some(ExportErrorView::TextColumn("function_name"@))
    } else if as_texts(column_at(columns, "code_content"@)) is None {
        Some(ExportErrorView::TextColumn("code_content"@))
    } else if as_texts(column_at(columns, "kind"@)) is None {
        Some(ExportErrorView::TextColumn("kind"@))
    } else if as_numbers(column_at(columns, "start_line"@)) is None {
        Some(ExportErrorView::NumberColumn("start_line"@))
    } else if as_numbers(column_at(columns, "end_line"@)) is None {
        Some(ExportErrorView::NumberColumn("end_line"@))
    } else if as_vectors(column_at(columns, "vector"@)) is None {
        Some(ExportErrorView::VectorColumn)
    } else if as_lists(column_at(columns, "referenced_symbols"@)) is None {
        Some(ExportErrorView::SymbolColumn)
    } else if rows > 0 && column_at(columns, "vector"@) is OtherVectors {
        Some(ExportErrorView::VectorValue(0))
    } else if rows > 0 && column_at(columns, "referenced_symbols"@) is OtherLists {
        Some(ExportErrorView::SymbolValue(0))
    } else {
        None
    }
}

/// A row with its vector.
pub open spec fn export_row(columns: Map<Seq<char>, ColumnData>, row: int) -> AnalysisRowView {
    AnalysisRowView {
        chunk: stored_row(columns, row),
        vector: as_vectors(column_at(columns, "vector"@))->0[row]->0,
    }
}

/// The rows of a batch with their vectors, or what keeps them from being read.
pub open spec fn export_rows(columns: Map<Seq<char>, ColumnData>, rows: nat) -> Result<
    Seq<AnalysisRowView>,
    ExportErrorView,
> {
    match export_error(columns, rows) {
        Some(error) => Err(error),
        None => Ok(Seq::new(rows, |row: int| export_row(columns, row))),
    }
}

fn texts_of(batch: &Batch, name: &'static str) -> (texts: Result<Vec<String>, ExportError>)
    ensures
        texts matches Ok(list) ==> as_texts(column_at(batch_columns(*batch), name@)) == Some(
            views(list@),
        ) && list.len() == batch_rows(*batch),
        texts matches Err(e) ==> as_texts(column_at(batch_columns(*batch), name@)) is None && e
            == ExportError::TextColumn(name),
{
    match read_texts(batch, name) {
        Some(list) => Ok(list),
        None => Err(ExportError::TextColumn(name)),
    }
}

fn numbers_of(batch: &Batch, name: &'static str) -> (numbers: Result<Vec<u32>, ExportError>)
    ensures
        numbers matches Ok(list) ==> as_numbers(column_at(batch_columns(*batch), name@)) == Some(
            list@,
        ) && list.len() == batch_rows(*batch),
        numbers matches Err(e) ==> as_numbers(column_at(batch_columns(*batch), name@)) is None && e
            == ExportError::NumberColumn(name),
{
    match read_numbers(batch, name) {
        Some(list) => Ok(list),
        None => Err(ExportError::NumberColumn(name)),
    }
}

/// No row of a vector column can be read where its items are not singles, and
/// every row where they are.
proof fn lemma_vector_rows(data: ColumnData, row: int)
    requires
        as_vectors(data) is Some,
        0 <= row < as_vectors(data)->0.len(),
    ensures
        (as_vectors(data)->0[row] is None) == (data is OtherVectors),
{
    match data {
        ColumnData::Vectors(rows, _) => {
            assert(rows.map_values(|row: Seq<u32>| Some(row))[row] is Some);
        },
        _ => {},
    }
}

/// The rows of a batch with their vectors.
#[verifier::rlimit(30)]
pub fn parse_batch(batch: &Batch) -> (rows: Result<Vec<AnalysisRow>, ExportError>)
    ensures
        match rows {
            Ok(list) => export_rows(batch_columns(*batch), batch_rows(*batch)) == Ok::<
                Seq<AnalysisRowView>,
                ExportErrorView,
            >(viewed(list@)),
            Err(error) => export_rows(batch_columns(*batch), batch_rows(*batch)) == Err::<
                Seq<AnalysisRowView>,
                ExportErrorView,
            >(error@),
        },
{
    let ghost columns = batch_columns(*batch);
    let ids = texts_of(batch, "id")?;
    let file_paths = texts_of(batch, "file_path")?;
    let contracts = texts_of(batch, "contract_name")?;
    let functions = texts_of(batch, "function_name")?;
    let code = texts_of(batch, "code_content")?;
    let kinds = texts_of(batch, "kind")?;
    let start_lines = numbers_of(batch, "start_line")?;
    let end_lines = numbers_of(batch, "end_line")?;
    let vectors = match read_vectors(batch, "vector") {
        Some(list) => list,
        None => return Err(ExportError::VectorColumn),
    };
    let symbols = match read_lists(batch, "referenced_symbols") {
        Some(list) => list,
        None => return Err(ExportError::SymbolColumn),
    };
    let total = count_rows(batch);
    let mut rows: Vec<AnalysisRow> = Vec::new();
    let mut row: usize = 0;
    while row < total
        invariant
            row <= total == batch_rows(*batch),
            columns == batch_columns(*batch),
            total == ids.len() == file_paths.len() == contracts.len() == functions.len()
                == code.len() == kinds.len() == start_lines.len() == end_lines.len()
                == symbols.len() == vectors.len(),
            as_texts(column_at(columns, "id"@)) == Some(views(ids@)),
            as_texts(column_at(columns, "file_path"@)) == Some(views(file_paths@)),
            as_texts(column_at(columns, "contract_name"@)) == Some(views(contracts@)),
            as_texts(column_at(columns, "function_name"@)) == Some(views(functions@)),
            as_texts(column_at(columns, "code_content"@)) == Some(views(code@)),
            as_texts(column_at(columns, "kind"@)) == Some(views(kinds@)),
            as_numbers(column_at(columns, "start_line"@)) == Some(start_lines@),
            as_numbers(column_at(columns, "end_line"@)) == Some(end_lines@),
            as_vectors(column_at(columns, "vector"@)) == Some(
                vectors@.map_values(|vector: Option<Vec<Single>>| vector_view(vector)),
            ),
            as_lists(column_at(columns, "referenced_symbols"@)) == Some(
                symbols@.map_values(|list: Option<Vec<Option<String>>>| list_view(list)),
            ),
            row > 0 ==> !(column_at(columns, "referenced_symbols"@) is OtherLists),
            row > 0 ==> !(column_at(columns, "vector"@) is OtherVectors),
            viewed(rows@) == Seq::new(row as nat, |i: int| export_row(columns, i)),
        decreases total - row,
    {
        let ghost before = viewed(rows@);
        let ghost vector_rows = vectors@.map_values(
            |vector: Option<Vec<Single>>| vector_view(vector),
        );
        let ghost lists = symbols@.map_values(
            |list: Option<Vec<Option<String>>>| list_view(list),
        );
        assert(vector_rows[row as int] == vector_view(vectors@[row as int]));
        assert(lists[row as int] == list_view(symbols@[row as int]));
        proof {
            lemma_vector_rows(column_at(columns, "vector"@), row as int);
            lemma_list_rows(column_at(columns, "referenced_symbols"@), row as int);
        }
        let vector = match &vectors[row] {
            Some(singles) => {
                let copy = singles.clone();
                assert(bits_of(copy@) =~= bits_of(singles@));
                copy
            },
            None => return Err(ExportError::VectorValue(row)),
        };
        let referenced_symbols = match &symbols[row] {
            Some(texts) => present_texts(texts),
            None => return Err(ExportError::SymbolValue(row)),
        };
        let exported = AnalysisRow {
            id: ids[row].clone(),
            vector,
            file_path: file_paths[row].clone(),
            contract_name: contracts[row].clone(),
            function_name: functions[row].clone(),
            code_content: code[row].clone(),
            referenced_symbols,
            kind: kinds[row].clone(),
            start_line: start_lines[row],
            end_line: end_lines[row],
        };
        assert(exported@.chunk =~= stored_row(columns, row as int));
        assert(exported@ =~= export_row(columns, row as int));
        let ghost said = exported@;
        rows.push(exported);
        assert(viewed(rows@) =~= before.push(said));
        assert(viewed(rows@) =~= Seq::new((row + 1) as nat, |i: int| export_row(columns, i)));
        row += 1;
    }
    Ok(rows)
}

/// Exporting a batch of chunks gives back what was written: the chunks, and their
/// vectors.
pub proof fn written_rows_are_exported(
    chunks: Seq<SemanticChunkView>,
    vectors: Seq<Seq<u32>>,
    size: i32,
)
    requires
        size > 0,
        vectors.len() == chunks.len() > 0,
        forall|i: int| 0 <= i < vectors.len() ==> (#[trigger] vectors[i]).len() == size,
    ensures
        export_rows(
            by_name(field_names(chunk_fields(size)), chunk_columns(chunks, vectors)),
            chunks.len(),
        ) == Ok::<Seq<AnalysisRowView>, ExportErrorView>(
            Seq::new(
                chunks.len(),
                |i: int| AnalysisRowView { chunk: stored_of(chunks[i]), vector: vectors[i] },
            ),
        ),
{
    let names = field_names(chunk_fields(size));
    let data = chunk_columns(chunks, vectors);
    let columns = by_name(names, data);
    matching_vectors_fit_the_schema(chunks, vectors, size);
    written_chunks_are_read_back(chunks, vectors, size);
    lemma_column_by_name(size, data, 1);
    assert(names[1] == "vector"@);
    assert(malformed(columns, chunks.len()) is None);
    assert(export_error(columns, chunks.len()) is None);
    let stored = chunks.map_values(|chunk: SemanticChunkView| stored_of(chunk));
    let read = Seq::new(chunks.len(), |row: int| stored_row(columns, row));
    assert(read == stored);
    assert forall|i: int| 0 <= i < chunks.len() implies #[trigger] export_row(columns, i)
        == (AnalysisRowView { chunk: stored_of(chunks[i]), vector: vectors[i] }) by {
        assert(read[i] == stored[i]);
    }
    assert(Seq::new(chunks.len(), |row: int| export_row(columns, row)) =~= Seq::new(
        chunks.len(),
        |i: int| AnalysisRowView { chunk: stored_of(chunks[i]), vector: vectors[i] },
    ));
}

} // verus!
