//! Embedding-ready chunks: a stable identity for idempotent re-ingestion, and a
//! text that leads with a description in prose before the code.
use vstd::prelude::*;
use vstd::string::*;
use vstd::utf8::*;

use crate::parser::{DefinitionKind, FunctionChunk, FunctionChunkView};
use crate::text::{
    after_last, decimal, decimal_text, is_digit, join, joined, lemma_bytes_determine_text,
    lemma_decimal, lemma_decimal_injective,
};

verus! {

/// The embedding model reads a bounded window. The code section is capped here,
/// in bytes, so that truncation takes the tail of the code and never the header.
pub const MAX_CODE_CHARS_FOR_EMBEDDING: usize = 4000;

/// A chunk ready for ingestion: what gets embedded plus what gets stored.
#[derive(Debug)]
pub struct SemanticChunk {
    /// Stable identity: `file_path::contract::function::start_line`.
    pub id: String,
    /// Text for the embedding model. The full code stays in `source`.
    pub embedding_text: String,
    pub source: FunctionChunk,
}

/// What a [`SemanticChunk`] says.
#[verifier::ext_equal]
pub struct SemanticChunkView {
    pub id: Seq<char>,
    pub embedding_text: Seq<char>,
    pub source: FunctionChunkView,
}

impl View for SemanticChunk {
    type V = SemanticChunkView;

    open spec fn view(&self) -> SemanticChunkView {
        SemanticChunkView {
            id: self.id@,
            embedding_text: self.embedding_text@,
            source: self.source@,
        }
    }
}

impl Clone for SemanticChunk {
    fn clone(&self) -> (copy: Self)
        ensures
            copy@ == self@,
    {
        SemanticChunk {
            id: self.id.clone(),
            embedding_text: self.embedding_text.clone(),
            source: self.source.clone(),
        }
    }
}

// ---------------------------------------------------------------- meaning

/// The stable identity of a definition.
pub open spec fn chunk_id(function: FunctionChunkView) -> Seq<char> {
    function.file_path + "::"@ + function.contract_name + "::"@ + function.function_name + "::"@
        + decimal(function.start_line as nat)
}

/// How a kind of definition is called in prose.
pub open spec fn kind_words(kind: DefinitionKind) -> Seq<char> {
    match kind {
        DefinitionKind::Function => "function"@,
        DefinitionKind::Constructor => "constructor"@,
        DefinitionKind::Modifier => "modifier"@,
        DefinitionKind::FallbackOrReceive => "fallback/receive function"@,
    }
}

/// The longest prefix of whole characters that takes at most `max` bytes.
pub open spec fn fitting(text: Seq<char>, max: int) -> Seq<char>
    decreases text.len(),
{
    if text.len() == 0 || encode_scalar(text[0] as u32).len() > max {
        Seq::empty()
    } else {
        seq![text[0]] + fitting(text.drop_first(), max - encode_scalar(text[0] as u32).len())
    }
}

/// The line that describes a definition.
pub open spec fn description(function: FunctionChunkView) -> Seq<char> {
    "Solidity "@ + kind_words(function.kind) + " `"@ + function.function_name
        + "` in contract `"@ + function.contract_name + "` (file "@ + function.file_path + ").\n"@
}

/// The line that lists the referenced symbols, if there are any.
pub open spec fn references_line(function: FunctionChunkView) -> Seq<char> {
    if function.referenced_symbols.len() == 0 {
        Seq::empty()
    } else {
        "References: "@ + joined(function.referenced_symbols, ", "@) + ".\n"@
    }
}

/// The text for the embedding model.
pub open spec fn embedding_of(function: FunctionChunkView) -> Seq<char> {
    description(function) + references_line(function) + "Code:\n"@ + fitting(
        function.code_content,
        MAX_CODE_CHARS_FOR_EMBEDDING as int,
    )
}

/// The chunk for a definition.
pub open spec fn chunk_of(function: FunctionChunkView) -> SemanticChunkView {
    SemanticChunkView {
        id: chunk_id(function),
        embedding_text: embedding_of(function),
        source: function,
    }
}

// ---------------------------------------------------------------- chunking

/// No boundary lies inside the first character.
proof fn lemma_first_boundary(text: Seq<char>, index: int)
    requires
        text.len() > 0,
        0 < index < encode_scalar(text[0] as u32).len(),
    ensures
        !is_char_boundary(encode_utf8(text), index),
{
    encode_utf8_valid_utf8(text);
    encode_utf8_first_scalar(text);
    reveal_with_fuel(is_char_boundary, 2);
}

/// Behind the first character the boundaries are those of the rest.
proof fn lemma_rest_boundary(text: Seq<char>, index: int)
    requires
        text.len() > 0,
        encode_scalar(text[0] as u32).len() <= index <= encode_utf8(text).len(),
    ensures
        is_char_boundary(encode_utf8(text), index) == is_char_boundary(
            encode_utf8(text.drop_first()),
            index - encode_scalar(text[0] as u32).len(),
        ),
        encode_scalar(text[0] as u32).len() > 0,
{
    encode_utf8_valid_utf8(text);
    encode_utf8_first_scalar(text);
    assert(pop_first_scalar(encode_utf8(text)) =~= encode_utf8(text.drop_first()));
}

/// The last boundary within `max` bytes is where the longest fitting prefix ends.
proof fn lemma_fitting(text: Seq<char>, max: int, end: int)
    requires
        0 <= end <= max <= encode_utf8(text).len(),
        is_char_boundary(encode_utf8(text), end),
        forall|k: int| end < k <= max ==> !#[trigger] is_char_boundary(encode_utf8(text), k),
    ensures
        encode_utf8(fitting(text, max)) == encode_utf8(text).subrange(0, end),
    decreases text.len(),
{
    let bytes = encode_utf8(text);
    if text.len() == 0 {
        assert(bytes.subrange(0, end) =~= Seq::<u8>::empty());
    } else {
        let head = encode_scalar(text[0] as u32);
        let width = head.len() as int;
        let rest = text.drop_first();
        if width > max {
            if 0 < end {
                lemma_first_boundary(text, end);
            }
            assert(bytes.subrange(0, end) =~= Seq::<u8>::empty());
        } else {
            lemma_rest_boundary(text, width);
            encode_utf8_valid_utf8(rest);
            assert(is_char_boundary(bytes, width));
            assert(width <= end);
            lemma_rest_boundary(text, end);
            assert forall|k: int| end - width < k <= max - width implies !#[trigger] is_char_boundary(
                encode_utf8(rest),
                k,
            ) by {
                lemma_rest_boundary(text, k + width);
                assert(!is_char_boundary(bytes, k + width));
            }
            lemma_fitting(rest, max - width, end - width);
            let tail = fitting(rest, max - width);
            let whole = seq![text[0]] + tail;
            assert(whole.drop_first() =~= tail);
            assert(encode_utf8(whole) == head + encode_utf8(tail));
            assert(head + encode_utf8(rest).subrange(0, end - width) =~= bytes.subrange(0, end));
        }
    }
}

/// A text that fits is its own longest fitting prefix.
proof fn lemma_fits_whole(text: Seq<char>, max: int)
    requires
        encode_utf8(text).len() <= max,
    ensures
        fitting(text, max) == text,
    decreases text.len(),
{
    if text.len() > 0 {
        lemma_fits_whole(text.drop_first(), max - encode_scalar(text[0] as u32).len());
        assert(seq![text[0]] + text.drop_first() =~= text);
    }
}

/// The longest prefix of `s` that takes at most `max_bytes` bytes and ends
/// between characters.
pub fn truncate_on_char_boundary<'a>(s: &'a str, max_bytes: usize) -> (prefix: &'a str)
    ensures
        prefix@ == fitting(s@, max_bytes as int),
{
    let ghost bytes = s.spec_bytes();
    if s.as_bytes().len() <= max_bytes {
        proof {
            lemma_fits_whole(s@, max_bytes as int);
        }
        return s;
    }
    proof {
        encode_utf8_valid_utf8(s@);
    }
    let mut end: usize = max_bytes;
    while !s.is_char_boundary(end)
        invariant
            valid_utf8(bytes),
            bytes == s.spec_bytes(),
            end <= max_bytes < bytes.len(),
            forall|k: int| end < k <= max_bytes ==> !#[trigger] is_char_boundary(bytes, k),
        decreases end,
    {
        assert(end != 0) by {
            is_char_boundary_start_end_of_seq(bytes);
        }
        end -= 1;
    }
    let prefix = s.split_at(end).0;
    proof {
        lemma_fitting(s@, max_bytes as int, end as int);
        lemma_bytes_determine_text(prefix@, fitting(s@, max_bytes as int));
    }
    prefix
}

/// How the kind of a definition is called in prose.
pub fn kind_label(function: &FunctionChunk) -> (words: &'static str)
    ensures
        words@ == kind_words(function.kind),
{
    match function.kind {
        DefinitionKind::Function => "function",
        DefinitionKind::Constructor => "constructor",
        DefinitionKind::Modifier => "modifier",
        DefinitionKind::FallbackOrReceive => "fallback/receive function",
    }
}

/// The text for the embedding model: a description, the references and the code.
pub fn embedding_text(function: &FunctionChunk) -> (text: String)
    ensures
        text@ == embedding_of(function@),
{
    let mut text = "Solidity ".to_owned();
    text.append(kind_label(function));
    text.append(" `");
    text.append(function.function_name.as_str());
    text.append("` in contract `");
    text.append(function.contract_name.as_str());
    text.append("` (file ");
    text.append(function.file_path.as_str());
    text.append(").\n");
    assert(text@ =~= description(function@));
    if function.referenced_symbols.len() > 0 {
        text.append("References: ");
        let list = join(&function.referenced_symbols, ", ");
        text.append(list.as_str());
        text.append(".\n");
    }
    assert(text@ =~= description(function@) + references_line(function@));
    text.append("Code:\n");
    text.append(
        truncate_on_char_boundary(function.code_content.as_str(), MAX_CODE_CHARS_FOR_EMBEDDING),
    );
    text
}

/// The stable identity of a definition.
fn id_text(function: &FunctionChunk) -> (id: String)
    ensures
        id@ == chunk_id(function@),
{
    let mut id = function.file_path.clone();
    id.append("::");
    id.append(function.contract_name.as_str());
    id.append("::");
    id.append(function.function_name.as_str());
    id.append("::");
    let line = decimal_text(function.start_line as u128);
    id.append(line.as_str());
    id
}

/// The chunk for a definition.
pub fn chunk(function: FunctionChunk) -> (chunk: SemanticChunk)
    ensures
        chunk@ == chunk_of(function@),
{
    SemanticChunk {
        id: id_text(&function),
        embedding_text: embedding_text(&function),
        source: function,
    }
}

/// The chunks for a list of definitions, in order.
pub fn chunk_all(functions: Vec<FunctionChunk>) -> (chunks: Vec<SemanticChunk>)
    ensures
        chunks.len() == functions.len(),
        forall|i: int| 0 <= i < functions.len() ==> (#[trigger] chunks@[i])@ == chunk_of(functions@[i]@),
{
    let mut chunks: Vec<SemanticChunk> = Vec::new();
    for function in it: functions
        invariant
            chunks.len() == it.index(),
            it.seq() == functions@,
            forall|i: int| 0 <= i < chunks.len() ==> (#[trigger] chunks@[i])@ == chunk_of(functions@[i]@),
    {
        chunks.push(chunk(function));
    }
    chunks
}

// ---------------------------------------------------------------- laws

/// Chunks of the same definition have the same identity, whatever its code says.
pub proof fn identity_is_stable(a: FunctionChunkView, b: FunctionChunkView)
    requires
        a.file_path == b.file_path,
        a.contract_name == b.contract_name,
        a.function_name == b.function_name,
        a.start_line == b.start_line,
    ensures
        chunk_of(a).id == chunk_of(b).id,
{
}

/// The line tells overloaded functions apart.
pub proof fn overloads_differ(a: FunctionChunkView, b: FunctionChunkView)
    requires
        a.file_path == b.file_path,
        a.contract_name == b.contract_name,
        a.function_name == b.function_name,
        a.start_line != b.start_line,
    ensures
        chunk_of(a).id != chunk_of(b).id,
{
    let front = a.file_path + "::"@ + a.contract_name + "::"@ + a.function_name + "::"@;
    let line_a = decimal(a.start_line as nat);
    let line_b = decimal(b.start_line as nat);
    if chunk_id(a) == chunk_id(b) {
        assert(chunk_id(a).skip(front.len() as int) =~= line_a);
        assert(chunk_id(b).skip(front.len() as int) =~= line_b);
        lemma_decimal_injective(a.start_line as nat, b.start_line as nat);
    }
}

/// A text whose last part holds no colon: what stands behind the last colon is
/// that part.
proof fn lemma_last_part(front: Seq<char>, part: Seq<char>)
    requires
        !part.contains(':'),
        front.len() > 0,
        front.last() == ':',
    ensures
        after_last(front + part, ':') == part,
    decreases part.len(),
{
    if part.len() == 0 {
        assert(front + part =~= front);
        assert(after_last(front, ':') =~= part);
    } else {
        let rest = part.drop_last();
        assert(part.contains(part[part.len() - 1]));
        assert(!rest.contains(':')) by {
            if rest.contains(':') {
                let i = rest.index_of(':');
                assert(part[i] == ':');
            }
        }
        lemma_last_part(front, rest);
        assert((front + part).drop_last() =~= front + rest);
        assert(rest.push(part.last()) =~= part);
    }
}

/// Two texts with equal ends, none of which holds a colon, have equal fronts.
proof fn lemma_split_last(front_a: Seq<char>, part_a: Seq<char>, front_b: Seq<char>, part_b: Seq<char>)
    requires
        front_a + "::"@ + part_a == front_b + "::"@ + part_b,
        !part_a.contains(':'),
        !part_b.contains(':'),
    ensures
        front_a == front_b,
        part_a == part_b,
{
    reveal_strlit("::");
    let whole = front_a + "::"@ + part_a;
    assert((front_a + "::"@).last() == ':');
    assert((front_b + "::"@).last() == ':');
    lemma_last_part(front_a + "::"@, part_a);
    lemma_last_part(front_b + "::"@, part_b);
    assert(whole.take(whole.len() - part_a.len() - 2) =~= front_a);
    assert(whole.take(whole.len() - part_b.len() - 2) =~= front_b);
}

/// Different definitions have different identities, as long as the names of
/// contracts and functions hold no colon.
pub proof fn identity_is_unique(a: FunctionChunkView, b: FunctionChunkView)
    requires
        !a.contract_name.contains(':'),
        !b.contract_name.contains(':'),
        !a.function_name.contains(':'),
        !b.function_name.contains(':'),
        chunk_of(a).id == chunk_of(b).id,
    ensures
        a.file_path == b.file_path,
        a.contract_name == b.contract_name,
        a.function_name == b.function_name,
        a.start_line == b.start_line,
{
    lemma_no_colon(a.start_line as nat);
    lemma_no_colon(b.start_line as nat);
    lemma_split_last(
        a.file_path + "::"@ + a.contract_name + "::"@ + a.function_name,
        decimal(a.start_line as nat),
        b.file_path + "::"@ + b.contract_name + "::"@ + b.function_name,
        decimal(b.start_line as nat),
    );
    lemma_decimal_injective(a.start_line as nat, b.start_line as nat);
    lemma_split_last(
        a.file_path + "::"@ + a.contract_name,
        a.function_name,
        b.file_path + "::"@ + b.contract_name,
        b.function_name,
    );
    lemma_split_last(a.file_path, a.contract_name, b.file_path, b.contract_name);
}

/// Decimal notation holds no colon.
proof fn lemma_no_colon(n: nat)
    ensures
        !decimal(n).contains(':'),
{
    lemma_decimal(n);
    if decimal(n).contains(':') {
        let i = decimal(n).index_of(':');
        assert(is_digit(decimal(n)[i]));
    }
}

/// What is kept of a text is a prefix of it that takes at most `max` bytes, and
/// with one more character it would take more.
pub proof fn truncation_keeps_the_longest_prefix(text: Seq<char>, max: int)
    requires
        max >= 0,
    ensures
        fitting(text, max).len() <= text.len(),
        fitting(text, max) == text.take(fitting(text, max).len() as int),
        encode_utf8(fitting(text, max)).len() <= max,
        fitting(text, max).len() < text.len() ==> encode_utf8(
            text.take(fitting(text, max).len() as int + 1),
        ).len() > max,
    decreases text.len(),
{
    let kept = fitting(text, max);
    if text.len() == 0 {
        assert(kept =~= text.take(0));
    } else {
        let head = encode_scalar(text[0] as u32);
        let rest = text.drop_first();
        if head.len() > max {
            assert(kept =~= text.take(0));
            let one = text.take(1);
            assert(one.drop_first() =~= Seq::<char>::empty());
            assert(encode_utf8(one) =~= head + encode_utf8(one.drop_first()));
        } else {
            truncation_keeps_the_longest_prefix(rest, max - head.len());
            let tail = fitting(rest, max - head.len());
            assert(kept =~= text.take(kept.len() as int));
            assert(kept.drop_first() =~= tail);
            assert(encode_utf8(kept) == head + encode_utf8(tail));
            if kept.len() < text.len() {
                let more = text.take(kept.len() as int + 1);
                assert(more.drop_first() =~= rest.take(tail.len() as int + 1));
                assert(encode_utf8(more) == head + encode_utf8(more.drop_first()));
            }
        }
    }
}

/// The text for the embedding model starts with the description and the
/// references, however long the code is; the stored code is not cut.
pub proof fn the_description_is_never_cut(function: FunctionChunkView)
    ensures
        ({
            let header = description(function) + references_line(function) + "Code:\n"@;
            &&& chunk_of(function).embedding_text.take(header.len() as int) == header
            &&& chunk_of(function).source.code_content == function.code_content
        }),
{
    let header = description(function) + references_line(function) + "Code:\n"@;
    assert(embedding_of(function).take(header.len() as int) =~= header);
}

} // verus!
