//! Promises of the embedding: what the model is given, and what is made of its answer.
use arrow_schema::SchemaRef;
use fastembed::TextEmbedding;
use vstd::prelude::*;

use crate::chunker::SemanticChunk;
use crate::columns::{
    batch_columns, batch_rows, by_name, field_names, schema_fields, vector_bits, vector_view,
};
use crate::embedding::{
    embed_query, embedding_texts, first_vector, may_embed, prepare, table_schema, Prepared,
};
use crate::float::Single;
use crate::ordered::viewed;
use crate::storage::{
    chunk_columns, chunk_fields, chunk_rows, stored_of, written_chunks_are_read_back, StorageError,
};
use crate::text::views;

verus! {

/// Preparing chunks gives the model the embedding text of each of them, in their order,
/// and answers with a batch of the chunks and the vectors that the model gave.
pub proof fn preparing_embeds_the_text_of_each_chunk(
    embedder: &mut TextEmbedding,
    chunks: &Vec<SemanticChunk>,
    batch: crate::columns::Batch,
) -> (given: (Seq<Seq<char>>, Seq<Seq<u32>>))
    requires
        call_ensures(
            prepare,
            (embedder, chunks),
            Ok::<Prepared, StorageError>(Prepared::Ready(batch)),
        ),
    ensures
        given.0.len() == chunks@.len(),
        forall|i: int|
            0 <= i < chunks@.len() ==> #[trigger] given.0[i] == chunks@[i]@.embedding_text,
        may_embed(*old(embedder), given.0, given.1),
        batch_rows(batch) == chunks@.len(),
        batch_columns(batch) == by_name(
            field_names(chunk_fields(384)),
            chunk_columns(viewed(chunks@), given.1),
        ),
        chunk_rows(batch_columns(batch), batch_rows(batch)) is Ok,
        forall|i: int|
            0 <= i < chunks@.len() ==> (#[trigger] (chunk_rows(
                batch_columns(batch),
                batch_rows(batch),
            )->Ok_0)[i]).code_content == chunks@[i]@.source.code_content,
{
    let all = viewed(chunks@);
    let texts = crate::embedding::texts_of(all);
    assert(chunks@.len() > 0);
    let vectors = choose|vectors: Seq<Seq<u32>>| #[trigger]
        may_embed(*embedder, texts, vectors) && crate::embedding::prepares(
            chunk_fields(384),
            all,
            vectors,
            Ok::<Prepared, StorageError>(Prepared::Ready(batch)),
        );
    written_chunks_are_read_back(all, vectors, 384);
    assert forall|i: int| 0 <= i < chunks@.len() implies #[trigger] texts[i]
        == chunks@[i]@.embedding_text by {
        assert(all[i] == chunks@[i]@);
    }
    let rows = chunk_rows(batch_columns(batch), batch_rows(batch))->Ok_0;
    assert forall|i: int| 0 <= i < chunks@.len() implies (#[trigger] rows[i]).code_content
        == chunks@[i]@.source.code_content by {
        assert(rows[i] == stored_of(all[i]));
    }
    (texts, vectors)
}

/// Embedding a query gives the model the query itself, and answers with the first of
/// the vectors that the model gave, if there is one.
pub proof fn embedding_a_query_gives_the_query_to_the_model(
    embedder: &mut TextEmbedding,
    query: &str,
    found: Option<Vec<Single>>,
) -> (vectors: Seq<Seq<u32>>)
    requires
        call_ensures(
            embed_query,
            (embedder, query),
            Ok::<Option<Vec<Single>>, StorageError>(found),
        ),
    ensures
        may_embed(*old(embedder), seq![query@], vectors),
        found is None <==> vectors.len() == 0,
        found is Some ==> vector_view(found) == Some(vectors[0]),
{
    choose|vectors: Seq<Seq<u32>>| #[trigger]
        may_embed(*embedder, seq![query@], vectors) && vector_view(found)
            == crate::embedding::first_of(vectors)
}

/// Where there are no chunks, there is nothing to be written; where there are some, there
/// is.
pub proof fn nothing_is_prepared_for_no_chunks_only(
    embedder: &mut TextEmbedding,
    chunks: &Vec<SemanticChunk>,
    prepared: Result<Prepared, StorageError>,
)
    requires
        call_ensures(prepare, (embedder, chunks), prepared),
    ensures
        chunks@.len() == 0 <==> prepared == Ok::<Prepared, StorageError>(Prepared::Nothing),
{
}

/// The texts for the model are the embedding texts of the chunks, in their order, and
/// the table has a vector of 384 numbers for each of them.
pub proof fn texts_are_given_in_order(
    chunks: &Vec<SemanticChunk>,
    texts: Vec<String>,
    schema: Result<SchemaRef, StorageError>,
    i: int,
)
    requires
        call_ensures(embedding_texts, (chunks,), texts),
        call_ensures(table_schema, (), schema),
    ensures
        texts@.len() == chunks@.len(),
        0 <= i < chunks@.len() ==> texts@[i]@ == chunks@[i]@.embedding_text,
        schema is Ok,
        ({
            let fields = schema_fields(*schema->Ok_0);
            &&& field_names(fields)[1] == "vector"@
            &&& fields[1].data is Vector && fields[1].data->Vector_1 == 384
        }),
{
    assert(views(texts@).len() == texts@.len());
    if 0 <= i < chunks@.len() {
        assert(views(texts@)[i] == texts@[i]@);
        assert(viewed(chunks@)[i] == chunks@[i]@);
    }
}

/// The first of some vectors is the one that stands first.
pub proof fn the_first_vector_stands_first(
    vectors: Vec<Vec<Single>>,
    found: Option<Vec<Single>>,
)
    requires
        call_ensures(first_vector, (vectors,), found),
    ensures
        found is None <==> vectors@.len() == 0,
        found is Some ==> vector_view(found) == Some(vector_bits(vectors@)[0]),
{
}

} // verus!
