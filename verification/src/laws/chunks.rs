//! Promises of the chunks: their identity, and what the embedding model reads.
use vstd::prelude::*;
use vstd::string::*;
use vstd::utf8::*;

use crate::chunker::{
    chunk_all, chunk_of, description, embedding_text, fitting, kind_label, kind_words,
    truncate_on_char_boundary, truncation_keeps_the_longest_prefix, SemanticChunk,
};
use crate::parser::{DefinitionKind, FunctionChunk, FunctionChunkView};
use crate::text::{decimal, joined};

verus! {

/// The identity of a chunk is its file, its contract, its function and the line on
/// which it starts; its source goes with it unchanged.
pub proof fn chunks_are_known_by_where_they_stand(function: FunctionChunkView)
    ensures
        chunk_of(function).id == function.file_path + "::"@ + function.contract_name + "::"@
            + function.function_name + "::"@ + decimal(function.start_line as nat),
        chunk_of(function).source == function,
{
}

/// How a kind of definition is called in a sentence.
pub open spec fn is_called(kind: DefinitionKind, words: Seq<char>) -> bool {
    &&& kind == DefinitionKind::Function ==> words == "function"@
    &&& kind == DefinitionKind::Constructor ==> words == "constructor"@
    &&& kind == DefinitionKind::Modifier ==> words == "modifier"@
    &&& kind == DefinitionKind::FallbackOrReceive ==> words == "fallback/receive function"@
}

/// The model reads what the definition is and where it stands, then all that it refers
/// to, and then its code from the start: all of it, or as many characters as fit into
/// four thousand bytes.
pub proof fn the_model_reads_the_description_and_then_the_code(
    function: FunctionChunkView,
    words: Seq<char>,
) -> (kept: int)
    requires
        is_called(function.kind, words),
    ensures
        0 <= kept <= function.code_content.len(),
        encode_utf8(function.code_content.take(kept)).len() <= 4000,
        kept < function.code_content.len() ==> encode_utf8(
            function.code_content.take(kept + 1),
        ).len() > 4000,
        function.referenced_symbols.len() == 0 ==> chunk_of(function).embedding_text
            == "Solidity "@ + words + " `"@ + function.function_name + "` in contract `"@
            + function.contract_name + "` (file "@ + function.file_path + ").\n"@ + "Code:\n"@
            + function.code_content.take(kept),
        function.referenced_symbols.len() > 0 ==> chunk_of(function).embedding_text
            == "Solidity "@ + words + " `"@ + function.function_name + "` in contract `"@
            + function.contract_name + "` (file "@ + function.file_path + ").\n"@
            + "References: "@ + joined(function.referenced_symbols, ", "@) + ".\n"@ + "Code:\n"@
            + function.code_content.take(kept),
{
    truncation_keeps_the_longest_prefix(function.code_content, 4000);
    let prefix = fitting(function.code_content, 4000);
    assert(kind_words(function.kind) == words);
    let text = chunk_of(function).embedding_text;
    if function.referenced_symbols.len() == 0 {
        assert(text =~= description(function) + "Code:\n"@ + prefix);
    } else {
        assert(text =~= description(function) + "References: "@ + joined(
            function.referenced_symbols,
            ", "@,
        ) + ".\n"@ + "Code:\n"@ + prefix);
    }
    prefix.len() as int
}

/// Chunking answers with one chunk for each function, in their order, each known by
/// where it stands and with its source unchanged.
pub proof fn chunking_answers_with_one_chunk_for_each_function(
    functions: Vec<FunctionChunk>,
    chunks: Vec<SemanticChunk>,
    i: int,
    words: Seq<char>,
) -> (kept: int)
    requires
        call_ensures(chunk_all, (functions,), chunks),
        0 <= i < functions@.len(),
        is_called(functions@[i]@.kind, words),
    ensures
        chunks@.len() == functions@.len(),
        ({
            let function = functions@[i]@;
            let chunk = chunks@[i]@;
            let code = function.code_content;
            let start = "Solidity "@ + words + " `"@ + function.function_name + "` in contract `"@
                + function.contract_name + "` (file "@ + function.file_path + ").\n"@;
            &&& chunk.source == function
            &&& chunk.id == function.file_path + "::"@ + function.contract_name + "::"@
                + function.function_name + "::"@ + decimal(function.start_line as nat)
            &&& 0 <= kept <= code.len()
            &&& encode_utf8(code.take(kept)).len() <= 4000
            &&& kept < code.len() ==> encode_utf8(code.take(kept + 1)).len() > 4000
            &&& function.referenced_symbols.len() == 0 ==> chunk.embedding_text == start
                + "Code:\n"@ + code.take(kept)
            &&& function.referenced_symbols.len() > 0 ==> chunk.embedding_text == start
                + "References: "@ + joined(function.referenced_symbols, ", "@) + ".\n"@
                + "Code:\n"@ + code.take(kept)
        }),
{
    assert(chunks@[i]@ == chunk_of(functions@[i]@));
    the_model_reads_the_description_and_then_the_code(functions@[i]@, words)
}

/// Chunking one function answers as chunking many does.
pub proof fn chunking_one_answers_as_chunking_many(
    function: FunctionChunk,
    chunk: SemanticChunk,
    chunks: Vec<SemanticChunk>,
    functions: Vec<FunctionChunk>,
    i: int,
)
    requires
        call_ensures(crate::chunker::chunk, (function,), chunk),
        call_ensures(chunk_all, (functions,), chunks),
        0 <= i < functions@.len(),
        functions@[i]@ == function@,
    ensures
        chunk@ == chunks@[i]@,
{
    assert(chunks@[i]@ == chunk_of(functions@[i]@));
}

/// Truncating answers with the longest start of a text that fits into so many bytes.
pub proof fn truncating_answers_with_the_longest_start(
    text: &str,
    max: usize,
    prefix: &str,
)
    requires
        call_ensures(truncate_on_char_boundary, (text, max), prefix),
    ensures
        prefix@.len() <= text@.len(),
        prefix@ == text@.take(prefix@.len() as int),
        encode_utf8(prefix@).len() <= max,
        prefix@.len() < text@.len() ==> encode_utf8(text@.take(prefix@.len() as int + 1)).len()
            > max,
{
    truncation_keeps_the_longest_prefix(text@, max as int);
}

/// Labels, stored kinds and embedding texts are answered by the kind of a definition.
pub proof fn kinds_are_answered_for_by_name(
    function: &FunctionChunk,
    words: &'static str,
    name: &'static str,
)
    requires
        call_ensures(kind_label, (function,), words),
        call_ensures(DefinitionKind::as_str, (function.kind,), name),
    ensures
        is_called(function.kind, words@),
        function.kind == DefinitionKind::Function ==> name@ == "function"@,
        function.kind == DefinitionKind::Constructor ==> name@ == "constructor"@,
        function.kind == DefinitionKind::Modifier ==> name@ == "modifier"@,
        function.kind == DefinitionKind::FallbackOrReceive ==> name@ == "fallback_or_receive"@,
{
}

/// The embedding text of a function is the one that its chunk has.
pub proof fn embedding_texts_are_those_of_the_chunks(
    function: FunctionChunk,
    text: String,
    chunk: SemanticChunk,
)
    requires
        call_ensures(embedding_text, (&function,), text),
        call_ensures(crate::chunker::chunk, (function,), chunk),
    ensures
        text@ == chunk@.embedding_text,
{
}

} // verus!
