//! Embedding of chunks and queries: what the model is given, and what is made of
//! the vectors that it gives back.
use arrow_schema::SchemaRef;
use fastembed::{EmbeddingModel, TextEmbedding};
use vstd::prelude::*;

use crate::chunker::{SemanticChunk, SemanticChunkView};
use crate::columns::{
    batch_columns, batch_rows, bits_of, by_name, field_names, fits_schema, schema_fields,
    vector_bits, vector_view, Batch, FieldView,
};
use crate::float::Single;
use crate::ordered::viewed;
use crate::storage::{
    batch_fits, batch_limits, build_record_batch, chunk_columns, chunk_fields, chunk_rows,
    chunk_schema, stored_of, written_chunks_are_read_back, StorageError, StoredChunkView,
};
use crate::text::views;

verus! {

/// The embedding model: `fastembed::TextEmbedding`.
#[verifier::external_type_specification]
#[verifier::external_body]
pub struct ExTextEmbedding(TextEmbedding);

/// Why texts could not be embedded: `anyhow::Error`.
#[verifier::external_type_specification]
#[verifier::external_body]
pub struct ExError(anyhow::Error);

/// `TextEmbedding::get_model_info` for the model in use, MiniLM-L6: the size of its
/// vectors, which its table of models gives as 384.
#[verifier::external_body]
fn model_size() -> (size: Result<usize, anyhow::Error>)
    ensures
        size is Ok,
        size->Ok_0 == 384,
{
    TextEmbedding::get_model_info(&EmbeddingModel::AllMiniLML6V2).map(|info| info.dim)
}

/// A model may give these vectors, one bit pattern for each number, for these texts.
/// For one model and one list of texts this can hold of several lists of vectors:
/// the numbers rest on the machine that computes them.
pub uninterp spec fn may_embed(
    embedder: TextEmbedding,
    texts: Seq<Seq<char>>,
    vectors: Seq<Seq<u32>>,
) -> bool;

/// `TextEmbedding::embed`, with batches of the default size: vectors that come back
/// are ones that this model may give for these texts. What numbers they hold, how
/// many there are, and whether the model fails, is left unsaid: it rests on the model
/// files that were loaded and on the machine.
#[verifier::external_body]
fn embed(embedder: &mut TextEmbedding, texts: &Vec<String>) -> (vectors: Result<
    Vec<Vec<Single>>,
    anyhow::Error,
>)
    ensures
        vectors is Ok ==> may_embed(*old(embedder), views(texts@), vector_bits(vectors->Ok_0@)),
{
    let vectors = embedder.embed(texts, None)?;
    Ok(
        vectors.into_iter().map(
            |vector| vector.into_iter().map(|value| Single { bits: value.to_bits() }).collect(),
        ).collect(),
    )
}

/// The schema of the table, for the vectors of the model in use.
pub fn table_schema() -> (schema: Result<SchemaRef, StorageError>)
    ensures
        schema is Ok,
        schema_fields(*schema->Ok_0) == chunk_fields(384),
{
    match model_size() {
        Ok(size) => Ok(chunk_schema(size)),
        Err(error) => Err(StorageError::Embedding(error)),
    }
}

/// What is to be written for some chunks.
pub enum Prepared {
    /// There are no chunks.
    Nothing,
    /// The batch to be written.
    Ready(Batch),
    /// A batch cannot hold the chunks and their vectors.
    Oversized,
}

/// The texts for the model, one for each chunk.
pub open spec fn texts_of(chunks: Seq<SemanticChunkView>) -> Seq<Seq<char>> {
    chunks.map_values(|c: SemanticChunkView| c.embedding_text)
}

/// The texts for the model, one for each chunk.
pub fn embedding_texts(chunks: &Vec<SemanticChunk>) -> (texts: Vec<String>)
    ensures
        views(texts@) == texts_of(viewed(chunks@)),
{
    let ghost all = viewed(chunks@);
    let mut texts: Vec<String> = Vec::new();
    let mut i: usize = 0;
    while i < chunks.len()
        invariant
            i <= chunks.len(),
            all == viewed(chunks@),
            texts.len() == i,
            forall|j: int| 0 <= j < i ==> (#[trigger] texts@[j])@ == all[j].embedding_text,
        decreases chunks.len() - i,
    {
        assert(all[i as int] == chunks@[i as int]@);
        texts.push(chunks[i].embedding_text.clone());
        i += 1;
    }
    assert(views(texts@) =~= texts_of(all));
    texts
}

/// What is to be written for chunks with these vectors, into a table with these
/// fields: a batch of their columns, if a batch can hold them and their columns fit
/// the fields.
pub open spec fn prepares(
    fields: Seq<FieldView>,
    chunks: Seq<SemanticChunkView>,
    vectors: Seq<Seq<u32>>,
    prepared: Result<Prepared, StorageError>,
) -> bool {
    let columns = chunk_columns(chunks, vectors);
    match prepared {
        Ok(Prepared::Nothing) => false,
        Ok(Prepared::Oversized) => !batch_limits(chunks, vectors),
        Ok(Prepared::Ready(batch)) => {
            &&& batch_limits(chunks, vectors)
            &&& fits_schema(fields, columns)
            &&& batch_columns(batch) == by_name(field_names(fields), columns)
            &&& batch_rows(batch) == chunks.len()
        },
        Err(error) => {
            &&& error is Arrow
            &&& batch_limits(chunks, vectors)
            &&& !fits_schema(fields, columns)
        },
    }
}

/// What is to be written for chunks with the vectors that the model gave for them.
pub fn prepare_vectors(
    schema: SchemaRef,
    chunks: &Vec<SemanticChunk>,
    vectors: &Vec<Vec<Single>>,
) -> (prepared: Result<Prepared, StorageError>)
    ensures
        prepares(schema_fields(*schema), viewed(chunks@), vector_bits(vectors@), prepared),
{
    if !batch_fits(chunks, vectors) {
        return Ok(Prepared::Oversized);
    }
    match build_record_batch(schema, chunks, vectors) {
        Ok(batch) => Ok(Prepared::Ready(batch)),
        Err(error) => Err(error),
    }
}

/// Embeds chunks, and prepares what is to be written for them: the model is given
/// their embedding texts, and what comes of it is prepared from the vectors that it
/// gives. Whatever those are, a batch is read back as the chunks.
pub fn prepare(embedder: &mut TextEmbedding, chunks: &Vec<SemanticChunk>) -> (prepared: Result<
    Prepared,
    StorageError,
>)
    ensures
        chunks.len() == 0 <==> prepared == Ok::<Prepared, StorageError>(Prepared::Nothing),
        chunks.len() > 0 && !(prepared is Err && prepared->Err_0 is Embedding) ==> exists|
            vectors: Seq<Seq<u32>>,
        | #[trigger]
            may_embed(*old(embedder), texts_of(viewed(chunks@)), vectors) && prepares(
                chunk_fields(384),
                viewed(chunks@),
                vectors,
                prepared,
            ),
        prepared matches Ok(Prepared::Ready(batch)) ==> {
            &&& batch_rows(batch) == chunks.len()
            &&& chunk_rows(batch_columns(batch), batch_rows(batch)) == Ok::<
                Seq<StoredChunkView>,
                Seq<char>,
            >(viewed(chunks@).map_values(|chunk: SemanticChunkView| stored_of(chunk)))
        },
{
    if chunks.len() == 0 {
        return Ok(Prepared::Nothing);
    }
    let schema = match table_schema() {
        Ok(schema) => schema,
        Err(error) => return Err(error),
    };
    let texts = embedding_texts(chunks);
    let vectors = match embed(embedder, &texts) {
        Ok(vectors) => vectors,
        Err(error) => return Err(StorageError::Embedding(error)),
    };
    proof {
        written_chunks_are_read_back(viewed(chunks@), vector_bits(vectors@), 384);
    }
    prepare_vectors(schema, chunks, &vectors)
}

/// The first vector, if there is one.
pub fn first_vector(vectors: Vec<Vec<Single>>) -> (vector: Option<Vec<Single>>)
    ensures
        match vector {
            Some(singles) => vectors.len() > 0 && bits_of(singles@) == vector_bits(vectors@)[0],
            None => vectors.len() == 0,
        },
{
    if vectors.len() == 0 {
        return None;
    }
    let copy = vectors[0].clone();
    assert(bits_of(copy@) =~= bits_of(vectors@[0]@));
    Some(copy)
}

/// The first of the vectors, if there is one.
pub open spec fn first_of(vectors: Seq<Seq<u32>>) -> Option<Seq<u32>> {
    if vectors.len() == 0 {
        None
    } else {
        Some(vectors[0])
    }
}

/// Embeds a query: the model is given the query as its one text, and the first of
/// the vectors that it gives is the result. There is none where the model gives none.
pub fn embed_query(embedder: &mut TextEmbedding, query: &str) -> (vector: Result<
    Option<Vec<Single>>,
    StorageError,
>)
    ensures
        match vector {
            Ok(found) => exists|vectors: Seq<Seq<u32>>| #[trigger]
                may_embed(*old(embedder), seq![query@], vectors) && vector_view(found) == first_of(
                    vectors,
                ),
            Err(error) => error is Embedding,
        },
{
    let mut texts: Vec<String> = Vec::new();
    texts.push(query.to_owned());
    assert(views(texts@) =~= seq![query@]);
    match embed(embedder, &texts) {
        Ok(vectors) => {
            let ghost given = vector_bits(vectors@);
            let found = first_vector(vectors);
            assert(vector_view(found) == first_of(given));
            Ok(found)
        },
        Err(error) => Err(StorageError::Embedding(error)),
    }
}

} // verus!
