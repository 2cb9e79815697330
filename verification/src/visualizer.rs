//! Code topology: definitions, state variables and outside callees as nodes, and
//! the references between them as links.
use vstd::prelude::*;
use vstd::string::*;

use crate::columns::text_view;
use crate::float::{three_plus_twice_root, Double};
use crate::ordered::{
    ascending, lemma_ascending_unique, lemma_zipped, viewed, Key, OrderedMap, OrderedSet,
};
use crate::retrieval::{builtin_names, head_chars, head_of, is_builtin};
use crate::storage::{str_views, StoredChunk, StoredChunkView};
use crate::text::{
    after_last, after_last_mark, before_mark, chars_of, contains_text, find_mark,
    lemma_text_connected, lemma_text_irreflexive, lemma_text_transitive, occurs_at, same_text,
    text_before, text_between, text_contains, text_less, views,
};

verus! {

/// The color of definitions that make low-level calls.
pub const COLOR_LOW_LEVEL: &'static str = "#ff0055";

/// The color of functions.
pub const COLOR_FUNCTION: &'static str = "#4e7cff";

/// The color of constructors.
pub const COLOR_CONSTRUCTOR: &'static str = "#ffd166";

/// The color of modifiers.
pub const COLOR_MODIFIER: &'static str = "#8a2be2";

/// The color of fallback and receive functions.
pub const COLOR_RECEIVE: &'static str = "#ff8c42";

/// The color of state variables.
pub const COLOR_STATE_VAR: &'static str = "#00ffcc";

/// The color of callees without a definition.
pub const COLOR_EXTERNAL_CALL: &'static str = "#94a3b8";

/// The size of state variables: the bit pattern of five.
pub const STATE_VAR_SIZE: u64 = 0x4014_0000_0000_0000;

/// The size of callees without a definition: the bit pattern of six.
pub const EXTERNAL_CALL_SIZE: u64 = 0x4018_0000_0000_0000;

/// The largest size of a definition: the bit pattern of forty.
pub const MAX_SIZE: u64 = 0x4044_0000_0000_0000;

/// A node of the topology.
#[derive(Debug)]
pub struct GraphNode {
    pub id: String,
    pub group: &'static str,
    pub size: Double,
    pub color: &'static str,
    /// Structural threat estimate, from 0 to 10.
    pub risk_score: u8,
}

/// What a [`GraphNode`] says.
#[verifier::ext_equal]
pub struct GraphNodeView {
    pub id: Seq<char>,
    pub group: Seq<char>,
    pub size: u64,
    pub color: Seq<char>,
    pub risk_score: u8,
}

impl View for GraphNode {
    type V = GraphNodeView;

    open spec fn view(&self) -> GraphNodeView {
        GraphNodeView {
            id: self.id@,
            group: self.group@,
            size: self.size.bits,
            color: self.color@,
            risk_score: self.risk_score,
        }
    }
}

impl Clone for GraphNode {
    fn clone(&self) -> (copy: Self)
        ensures
            copy@ == self@,
    {
        GraphNode {
            id: self.id.clone(),
            group: self.group,
            size: self.size,
            color: self.color,
            risk_score: self.risk_score,
        }
    }
}

/// A reference from one node to another.
#[derive(Debug, PartialEq, Eq, PartialOrd, Ord)]
pub struct GraphLink {
    pub source: String,
    pub target: String,
}

impl View for GraphLink {
    type V = (Seq<char>, Seq<char>);

    open spec fn view(&self) -> (Seq<char>, Seq<char>) {
        (self.source@, self.target@)
    }
}

impl Clone for GraphLink {
    fn clone(&self) -> (copy: Self)
        ensures
            copy@ == self@,
    {
        GraphLink { source: self.source.clone(), target: self.target.clone() }
    }
}

/// The order of links: by source, then by target.
pub open spec fn link_before(a: (Seq<char>, Seq<char>), b: (Seq<char>, Seq<char>)) -> bool {
    ||| text_before(a.0, b.0)
    ||| a.0 == b.0 && text_before(a.1, b.1)
}

impl Key for GraphLink {
    open spec fn before(a: (Seq<char>, Seq<char>), b: (Seq<char>, Seq<char>)) -> bool {
        link_before(a, b)
    }

    proof fn irreflexive(a: (Seq<char>, Seq<char>)) {
        lemma_text_irreflexive(a.0);
        lemma_text_irreflexive(a.1);
    }

    proof fn transitive(
        a: (Seq<char>, Seq<char>),
        b: (Seq<char>, Seq<char>),
        c: (Seq<char>, Seq<char>),
    ) {
        if text_before(a.0, b.0) && text_before(b.0, c.0) {
            lemma_text_transitive(a.0, b.0, c.0);
        }
        if text_before(a.1, b.1) && text_before(b.1, c.1) {
            lemma_text_transitive(a.1, b.1, c.1);
        }
    }

    proof fn connected(a: (Seq<char>, Seq<char>), b: (Seq<char>, Seq<char>)) {
        if a.0 != b.0 {
            lemma_text_connected(a.0, b.0);
        }
        if a.1 != b.1 {
            lemma_text_connected(a.1, b.1);
        }
    }

    fn less(&self, other: &Self) -> (less: bool) {
        proof {
            lemma_text_irreflexive(self.source@);
        }
        if same_text(self.source.as_str(), other.source.as_str()) {
            text_less(self.target.as_str(), other.target.as_str())
        } else {
            text_less(self.source.as_str(), other.source.as_str())
        }
    }
}

/// The topology of a codebase.
#[derive(Debug)]
pub struct CodeGraph {
    pub nodes: Vec<GraphNode>,
    pub links: Vec<GraphLink>,
}

// ---------------------------------------------------------------- nodes

/// The id of a member of a contract.
pub open spec fn member_id(contract: Seq<char>, name: Seq<char>) -> Seq<char> {
    contract + "::"@ + name
}

/// The id of a definition's node.
pub open spec fn node_id_of(chunk: StoredChunkView) -> Seq<char> {
    member_id(chunk.contract_name, chunk.function_name)
}

fn member_text(contract: &str, name: &str) -> (id: String)
    ensures
        id@ == member_id(contract@, name@),
{
    let mut id = contract.to_owned();
    id.append("::");
    id.append(name);
    id
}

/// The id of a definition's node.
pub fn node_id(chunk: &StoredChunk) -> (id: String)
    ensures
        id@ == node_id_of(chunk@),
{
    member_text(chunk.contract_name.as_str(), chunk.function_name.as_str())
}

/// The group of a kind of definition.
pub open spec fn group_name(kind: Seq<char>) -> Seq<char> {
    if kind == "constructor"@ {
        "constructor"@
    } else if kind == "modifier"@ {
        "modifier"@
    } else if kind == "fallback_or_receive"@ {
        "receive"@
    } else {
        "function"@
    }
}

/// The group of a definition.
pub fn group_of(chunk: &StoredChunk) -> (group: &'static str)
    ensures
        group@ == group_name(chunk@.kind),
{
    let kind = chunk.kind.as_str();
    if same_text(kind, "constructor") {
        "constructor"
    } else if same_text(kind, "modifier") {
        "modifier"
    } else if same_text(kind, "fallback_or_receive") {
        "receive"
    } else {
        "function"
    }
}

/// How many lines a definition takes: at least one.
pub open spec fn line_count(chunk: StoredChunkView) -> nat {
    if chunk.end_line >= chunk.start_line {
        (chunk.end_line - chunk.start_line + 1) as nat
    } else {
        1
    }
}

/// The bit pattern of the size for a number of lines: `3 + 2 * sqrt(lines)`, and
/// at most forty.
pub open spec fn size_for(lines: nat) -> u64 {
    let size = three_plus_twice_root(lines);
    if size <= MAX_SIZE {
        size as u64
    } else {
        MAX_SIZE
    }
}

/// The lines of a definition can be counted.
pub open spec fn countable(chunk: StoredChunkView) -> bool {
    line_count(chunk) <= u32::MAX
}

/// The size of a definition's node grows with the root of its lines, so that long
/// definitions do not dwarf the others.
pub fn definition_size(chunk: &StoredChunk) -> (size: Double)
    requires
        countable(chunk@),
    ensures
        size.bits == size_for(line_count(chunk@)),
{
    let lines: u32 = if chunk.end_line >= chunk.start_line {
        chunk.end_line - chunk.start_line + 1
    } else {
        1
    };
    Double::from_root(lines).at_most(Double { bits: MAX_SIZE })
}

/// A longer definition has no smaller node.
pub proof fn longer_definitions_are_no_smaller(shorter: nat, longer: nat)
    requires
        0 < shorter <= longer <= u32::MAX,
    ensures
        size_for(shorter) <= size_for(longer) <= MAX_SIZE,
{
    crate::float::lemma_root_monotone(shorter, longer);
    crate::float::lemma_root_positive(shorter);
}

// ---------------------------------------------------------------- calls

/// The texts by which low-level calls are known.
pub open spec fn low_level_marks() -> Seq<Seq<char>> {
    seq![
        ".call("@,
        ".call{"@,
        ".delegatecall("@,
        ".delegatecall{"@,
        ".staticcall("@,
        "selfdestruct("@,
    ]
}

/// The code makes a low-level call.
pub open spec fn calls_low_level(code: Seq<char>) -> bool {
    exists|i: int|
        0 <= i < low_level_marks().len() && contains_text(code, #[trigger] low_level_marks()[i])
}

/// Whether the code makes a low-level call.
pub fn has_low_level_call(code: &str) -> (found: bool)
    ensures
        found == calls_low_level(code@),
{
    let marks = [
        ".call(",
        ".call{",
        ".delegatecall(",
        ".delegatecall{",
        ".staticcall(",
        "selfdestruct(",
    ];
    let ghost all = low_level_marks();
    assert(str_views(marks@) =~= all);
    let mut i: usize = 0;
    while i < 6
        invariant
            i <= 6,
            all == low_level_marks(),
            marks@.len() == 6,
            str_views(marks@) == all,
            forall|j: int| 0 <= j < i ==> !contains_text(code@, #[trigger] all[j]),
        decreases 6 - i,
    {
        assert(str_views(marks@)[i as int] == marks@[i as int]@);
        if text_contains(code, marks[i]) {
            assert(contains_text(code@, low_level_marks()[i as int]));
            return true;
        }
        i += 1;
    }
    false
}

/// The color of a definition: red where it makes low-level calls, else that of its
/// kind.
pub open spec fn color_for(chunk: StoredChunkView) -> Seq<char> {
    if calls_low_level(chunk.code_content) {
        COLOR_LOW_LEVEL@
    } else if chunk.kind == "constructor"@ {
        COLOR_CONSTRUCTOR@
    } else if chunk.kind == "modifier"@ {
        COLOR_MODIFIER@
    } else if chunk.kind == "fallback_or_receive"@ {
        COLOR_RECEIVE@
    } else {
        COLOR_FUNCTION@
    }
}

/// The color of a definition.
pub fn color_of(chunk: &StoredChunk) -> (color: &'static str)
    ensures
        color@ == color_for(chunk@),
{
    let kind = chunk.kind.as_str();
    if has_low_level_call(chunk.code_content.as_str()) {
        COLOR_LOW_LEVEL
    } else if same_text(kind, "constructor") {
        COLOR_CONSTRUCTOR
    } else if same_text(kind, "modifier") {
        COLOR_MODIFIER
    } else if same_text(kind, "fallback_or_receive") {
        COLOR_RECEIVE
    } else {
        COLOR_FUNCTION
    }
}

// ---------------------------------------------------------------- keywords

/// A character of a word.
pub open spec fn is_word_char(c: char) -> bool {
    'a' <= c <= 'z' || 'A' <= c <= 'Z' || '0' <= c <= '9' || c == '_'
}

/// The words of a text: what stands between characters that are none of a word.
/// Between neighbours of that sort stands the empty word.
pub open spec fn words(text: Seq<char>) -> Seq<Seq<char>>
    decreases text.len(),
{
    if text.len() == 0 {
        seq![Seq::empty()]
    } else {
        let before = words(text.drop_last());
        if is_word_char(text.last()) {
            before.drop_last().push(before.last().push(text.last()))
        } else {
            before.push(Seq::empty())
        }
    }
}

/// Some word of the text is among the keywords.
pub open spec fn holds_keyword(text: Seq<char>, keywords: Seq<Seq<char>>) -> bool {
    exists|i: int| 0 <= i < words(text).len() && keywords.contains(#[trigger] words(text)[i])
}

fn is_keyword(word: &str, keywords: &[&str]) -> (found: bool)
    ensures
        found == str_views(keywords@).contains(word@),
{
    let ghost all = str_views(keywords@);
    let mut i: usize = 0;
    while i < keywords.len()
        invariant
            i <= keywords.len(),
            all == str_views(keywords@),
            forall|j: int| 0 <= j < i ==> all[j] != word@,
        decreases keywords.len() - i,
    {
        assert(all[i as int] == keywords@[i as int]@);
        if same_text(keywords[i], word) {
            return true;
        }
        i += 1;
    }
    false
}

/// Some word before the last is among the keywords.
spec fn closes_keyword(list: Seq<Seq<char>>, keywords: Seq<Seq<char>>) -> bool {
    exists|j: int| 0 <= j < list.len() - 1 && keywords.contains(#[trigger] list[j])
}

proof fn lemma_closes(a: Seq<Seq<char>>, b: Seq<Seq<char>>, keywords: Seq<Seq<char>>)
    requires
        a.len() == b.len() > 0,
        a.drop_last() == b.drop_last(),
        closes_keyword(a, keywords),
    ensures
        closes_keyword(b, keywords),
{
    let j = choose|j: int| 0 <= j < a.len() - 1 && keywords.contains(#[trigger] a[j]);
    assert(a.drop_last()[j] == b.drop_last()[j]);
    assert(keywords.contains(b[j]));
}

/// Whether a word of a signature is among the keywords. Only whole words count:
/// `viewer` is not `view`.
pub fn has_keyword(signature: &str, keywords: &[&str]) -> (found: bool)
    ensures
        found == holds_keyword(signature@, str_views(keywords@)),
{
    let chars = chars_of(signature);
    let ghost all = str_views(keywords@);
    let mut word = String::new();
    let mut found = false;
    let mut i: usize = 0;
    assert(chars@.take(0) =~= Seq::<char>::empty());
    while i < chars.len()
        invariant
            i <= chars.len(),
            chars@ == signature@,
            all == str_views(keywords@),
            words(chars@.take(i as int)).len() > 0,
            word@ == words(chars@.take(i as int)).last(),
            found == closes_keyword(words(chars@.take(i as int)), all),
        decreases chars.len() - i,
    {
        let ghost before = words(chars@.take(i as int));
        let ghost after = words(chars@.take(i + 1));
        assert(chars@.take(i + 1).drop_last() =~= chars@.take(i as int));
        let c = chars[i];
        if ('a' <= c && c <= 'z') || ('A' <= c && c <= 'Z') || ('0' <= c && c <= '9') || c == '_' {
            word.push(c);
            assert(after == before.drop_last().push(before.last().push(c)));
            proof {
                assert(after.drop_last() =~= before.drop_last());
                if found {
                    lemma_closes(before, after, all);
                }
                if closes_keyword(after, all) {
                    lemma_closes(after, before, all);
                }
            }
        } else {
            let hit = is_keyword(word.as_str(), keywords);
            assert(after == before.push(Seq::empty()));
            assert((found || hit) == closes_keyword(after, all)) by {
                if hit {
                    assert(all.contains(after[before.len() - 1]));
                } else if found {
                    let j = choose|j: int|
                        0 <= j < before.len() - 1 && all.contains(#[trigger] before[j]);
                    assert(all.contains(after[j]));
                } else if closes_keyword(after, all) {
                    let j = choose|j: int|
                        0 <= j < after.len() - 1 && all.contains(#[trigger] after[j]);
                    if j < before.len() - 1 {
                        assert(all.contains(before[j]));
                    }
                }
            }
            found = found || hit;
            word = String::new();
        }
        i += 1;
    }
    assert(chars@.take(i as int) =~= signature@);
    let hit = is_keyword(word.as_str(), keywords);
    proof {
        let all_words = words(signature@);
        if hit {
            assert(all.contains(all_words[all_words.len() - 1]));
        }
        if found {
            let j = choose|j: int|
                0 <= j < all_words.len() - 1 && all.contains(#[trigger] all_words[j]);
            assert(all.contains(all_words[j]));
        }
    }
    found || hit
}

/// `word` is made of word characters and stands in the text at `i`, with none of
/// them before or behind it.
pub open spec fn stands_alone(text: Seq<char>, word: Seq<char>, i: int) -> bool {
    &&& occurs_at(text, word, i)
    &&& forall|j: int| 0 <= j < word.len() ==> is_word_char(#[trigger] word[j])
    &&& i == 0 || !is_word_char(text[i - 1])
    &&& i + word.len() == text.len() || !is_word_char(text[i + word.len()])
}

/// Where a word of a text stands: the last one at its end, the others before it.
proof fn lemma_word_stands(text: Seq<char>, j: int) -> (i: int)
    requires
        0 <= j < words(text).len(),
    ensures
        stands_alone(text, words(text)[j], i),
        (j == words(text).len() - 1) == (i + words(text)[j].len() == text.len()),
    decreases text.len(),
{
    let word = words(text)[j];
    if text.len() == 0 {
        assert(text.subrange(0, 0) =~= word);
        0
    } else {
        let shorter = text.drop_last();
        let c = text.last();
        let before = words(shorter);
        if j == words(text).len() - 1 {
            if is_word_char(c) {
                lemma_some_word(shorter);
                let i = lemma_word_stands(shorter, before.len() - 1);
                assert(text.subrange(i, text.len() as int) =~= word);
                i
            } else {
                assert(text.subrange(text.len() as int, text.len() as int) =~= word);
                text.len() as int
            }
        } else {
            assert(word == before[j]);
            let i = lemma_word_stands(shorter, j);
            assert(text.subrange(i, i + word.len()) =~= shorter.subrange(i, i + word.len()));
            i
        }
    }
}

/// Every text has a last word, if an empty one.
proof fn lemma_some_word(text: Seq<char>)
    ensures
        words(text).len() > 0,
    decreases text.len(),
{
    if text.len() > 0 {
        lemma_some_word(text.drop_last());
    }
}

/// A text that stands alone is a word: the last one at the end, else one before.
proof fn lemma_alone_is_word(text: Seq<char>, word: Seq<char>, i: int)
    requires
        stands_alone(text, word, i),
    ensures
        i + word.len() == text.len() ==> words(text).last() == word,
        i + word.len() < text.len() ==> exists|j: int|
            0 <= j < words(text).len() - 1 && #[trigger] words(text)[j] == word,
    decreases text.len(),
{
    lemma_some_word(text);
    if text.len() == 0 {
        assert(word =~= Seq::<char>::empty());
    } else {
        let shorter = text.drop_last();
        let c = text.last();
        let before = words(shorter);
        lemma_some_word(shorter);
        if i + word.len() == text.len() {
            if word.len() == 0 {
                assert(word =~= Seq::<char>::empty());
            } else {
                let rest = word.drop_last();
                assert(word.last() == c) by {
                    assert(text.subrange(i, text.len() as int)[word.len() - 1] == c);
                }
                assert(is_word_char(word[word.len() - 1]));
                assert(shorter.subrange(i, i + rest.len()) =~= rest) by {
                    assert(text.subrange(i, i + word.len()) == word);
                }
                lemma_alone_is_word(shorter, rest, i);
                assert(rest.push(c) =~= word);
            }
        } else {
            assert(shorter.subrange(i, i + word.len()) =~= word) by {
                assert(text.subrange(i, i + word.len()) == word);
            }
            assert(stands_alone(shorter, word, i));
            lemma_alone_is_word(shorter, word, i);
            if i + word.len() == shorter.len() {
                assert(words(text)[before.len() - 1] == word);
            } else {
                let j = choose|j: int|
                    0 <= j < before.len() - 1 && #[trigger] before[j] == word;
                assert(words(text)[j] == word);
            }
        }
    }
}

/// A keyword counts where it stands alone, and only there: `viewer` does not hold
/// the keyword `view`.
pub proof fn keywords_are_whole_words(text: Seq<char>, keyword: Seq<char>)
    ensures
        holds_keyword(text, seq![keyword]) <==> exists|i: int| stands_alone(text, keyword, i),
{
    let list = seq![keyword];
    if holds_keyword(text, list) {
        let j = choose|j: int| 0 <= j < words(text).len() && list.contains(#[trigger] words(text)[j]);
        let i = lemma_word_stands(text, j);
        assert(stands_alone(text, keyword, i));
    }
    if exists|i: int| stands_alone(text, keyword, i) {
        let i = choose|i: int| stands_alone(text, keyword, i);
        lemma_alone_is_word(text, keyword, i);
        lemma_some_word(text);
        assert(list[0] == keyword);
        if i + keyword.len() == text.len() {
            assert(list.contains(words(text)[words(text).len() - 1]));
        } else {
            let j = choose|j: int|
                0 <= j < words(text).len() - 1 && #[trigger] words(text)[j] == keyword;
            assert(list.contains(words(text)[j]));
        }
    }
}

// ---------------------------------------------------------------- resolution

/// The positions of the definitions with a name, in order.
pub open spec fn named(chunks: Seq<StoredChunkView>, name: Seq<char>) -> Seq<usize>
    decreases chunks.len(),
{
    if chunks.len() == 0 {
        Seq::empty()
    } else {
        let before = named(chunks.drop_last(), name);
        if chunks.last().function_name == name {
            before.push((chunks.len() - 1) as usize)
        } else {
            before
        }
    }
}

/// Where the definitions with each name stand.
pub struct FunctionIndex {
    positions: OrderedMap<String, Vec<usize>>,
}

impl FunctionIndex {
    /// The index lists all definitions of the chunks.
    pub closed spec fn indexes(&self, chunks: Seq<StoredChunkView>) -> bool {
        &&& self.positions.wf()
        &&& forall|name: Seq<char>| #[trigger]
            self.positions@.dom().contains(name) == (named(chunks, name).len() > 0)
        &&& forall|name: Seq<char>|
            self.positions@.dom().contains(name) ==> #[trigger] self.positions@[name] == named(
                chunks,
                name,
            )
    }

    /// The index of chunks.
    pub fn new(chunks: &Vec<StoredChunk>) -> (index: Self)
        ensures
            index.indexes(viewed(chunks@)),
    {
        let ghost all = viewed(chunks@);
        let mut positions: OrderedMap<String, Vec<usize>> = OrderedMap::new();
        let mut i: usize = 0;
        assert(all.take(0) =~= Seq::<StoredChunkView>::empty());
        while i < chunks.len()
            invariant
                i <= chunks.len(),
                all == viewed(chunks@),
                positions.wf(),
                forall|name: Seq<char>| #[trigger]
                    positions@.dom().contains(name) == (named(all.take(i as int), name).len() > 0),
                forall|name: Seq<char>|
                    positions@.dom().contains(name) ==> #[trigger] positions@[name] == named(
                        all.take(i as int),
                        name,
                    ),
            decreases chunks.len() - i,
        {
            let ghost before = positions@;
            let name = chunks[i].function_name.clone();
            let ghost said = name@;
            assert(all.take(i + 1).drop_last() =~= all.take(i as int));
            assert(all.take(i + 1).last().function_name == said);
            let mut list = match positions.remove(&name) {
                Some(list) => list,
                None => Vec::new(),
            };
            assert(list@ =~= named(all.take(i as int), said));
            list.push(i);
            let ghost listed = list@;
            positions.insert(name, list);
            assert(positions@ =~= before.insert(said, listed));
            i += 1;
        }
        assert(all.take(i as int) =~= all);
        FunctionIndex { positions }
    }
}

/// The named positions are those of chunks with the name.
pub proof fn lemma_named(chunks: Seq<StoredChunkView>, name: Seq<char>)
    requires
        chunks.len() <= usize::MAX,
    ensures
        forall|k: int|
            0 <= k < named(chunks, name).len() ==> 0 <= #[trigger] named(chunks, name)[k]
                < chunks.len() && chunks[named(chunks, name)[k] as int].function_name == name,
        forall|i: int|
            0 <= i < chunks.len() && (#[trigger] chunks[i]).function_name == name ==> named(
                chunks,
                name,
            ).contains(i as usize),
    decreases chunks.len(),
{
    if chunks.len() > 0 {
        let rest = chunks.drop_last();
        lemma_named(rest, name);
        let before = named(rest, name);
        let now = named(chunks, name);
        assert forall|k: int| 0 <= k < now.len() implies 0 <= #[trigger] now[k] < chunks.len()
            && chunks[now[k] as int].function_name == name by {
            if k < before.len() {
                assert(before[k] == now[k]);
                assert(rest[before[k] as int] == chunks[now[k] as int]);
            }
        }
        assert forall|i: int|
            0 <= i < chunks.len() && (#[trigger] chunks[i]).function_name == name implies now.contains(
            i as usize,
        ) by {
            if i < rest.len() {
                assert(rest[i] == chunks[i]);
                let k = before.index_of(i as usize);
                assert(now[k] == i as usize);
            } else {
                assert(now[now.len() - 1] == i as usize);
            }
        }
    }
}

/// The contract defines a function of the name.
pub open spec fn defines(chunks: Seq<StoredChunkView>, contract: Seq<char>, name: Seq<char>) -> bool {
    exists|i: int|
        0 <= i < chunks.len() && (#[trigger] chunks[i]).function_name == name
            && chunks[i].contract_name == contract
}

/// All functions of the name are defined in the same contract.
pub open spec fn one_contract(chunks: Seq<StoredChunkView>, name: Seq<char>) -> bool {
    forall|i: int, j: int|
        0 <= i < chunks.len() && 0 <= j < chunks.len() && (#[trigger] chunks[i]).function_name
            == name && (#[trigger] chunks[j]).function_name == name ==> chunks[i].contract_name
            == chunks[j].contract_name
}

/// The node that a name refers to from within a contract: its own definition, or
/// else the one of the only contract that defines the name.
pub open spec fn looked_up(
    chunks: Seq<StoredChunkView>,
    contract: Seq<char>,
    name: Seq<char>,
) -> Option<Seq<char>> {
    if defines(chunks, contract, name) {
        Some(member_id(contract, name))
    } else if named(chunks, name).len() > 0 && one_contract(chunks, name) {
        Some(member_id(chunks[named(chunks, name)[0] as int].contract_name, name))
    } else {
        None
    }
}

/// The node that a name refers to. A name that several other contracts define is
/// left unresolved.
pub fn lookup(
    name: &str,
    from: &StoredChunk,
    chunks: &Vec<StoredChunk>,
    by_function_name: &FunctionIndex,
) -> (id: Option<String>)
    requires
        by_function_name.indexes(viewed(chunks@)),
    ensures
        text_view(id) == looked_up(viewed(chunks@), from@.contract_name, name@),
{
    let ghost all = viewed(chunks@);
    let ghost places = named(all, name@);
    let key = name.to_owned();
    proof {
        assert(all.len() == chunks.len());
        lemma_named(all, name@);
    }
    let positions = match by_function_name.positions.get(&key) {
        Some(positions) => positions,
        None => {
            assert(!defines(all, from@.contract_name, name@)) by {
                if defines(all, from@.contract_name, name@) {
                    let i = choose|i: int|
                        0 <= i < all.len() && (#[trigger] all[i]).function_name == name@
                            && all[i].contract_name == from@.contract_name;
                    assert(places.contains(i as usize));
                }
            }
            return None;
        },
    };
    assert(positions@ == places);
    let mut i: usize = 0;
    while i < positions.len()
        invariant
            i <= positions.len(),
            all == viewed(chunks@),
            positions@ == places,
            forall|k: int|
                0 <= k < places.len() ==> 0 <= #[trigger] places[k] < all.len()
                    && all[places[k] as int].function_name == name@,
            forall|k: int|
                0 <= k < i ==> all[#[trigger] places[k] as int].contract_name != from@.contract_name,
        decreases positions.len() - i,
    {
        let at = positions[i];
        assert(at == places[i as int]);
        assert(all[at as int] == chunks@[at as int]@);
        if same_text(chunks[at].contract_name.as_str(), from.contract_name.as_str()) {
            assert(all[at as int].function_name == name@);
            return Some(node_id(&chunks[at]));
        }
        i += 1;
    }
    assert(!defines(all, from@.contract_name, name@)) by {
        if defines(all, from@.contract_name, name@) {
            let j = choose|j: int|
                0 <= j < all.len() && (#[trigger] all[j]).function_name == name@
                    && all[j].contract_name == from@.contract_name;
            assert(places.contains(j as usize));
            let k = places.index_of(j as usize);
            assert(all[places[k] as int].contract_name != from@.contract_name);
        }
    }
    if positions.len() == 0 {
        return None;
    }
    let first = positions[0];
    assert(first == places[0]);
    assert(all[first as int] == chunks@[first as int]@);
    let mut j: usize = 1;
    while j < positions.len()
        invariant
            1 <= j <= positions.len(),
            all == viewed(chunks@),
            positions@ == places,
            first == places[0],
            first < chunks.len(),
            all[first as int] == chunks@[first as int]@,
            all[first as int].function_name == name@,
            !defines(all, from@.contract_name, name@),
            places == named(all, name@),
            forall|k: int|
                0 <= k < places.len() ==> 0 <= #[trigger] places[k] < all.len()
                    && all[places[k] as int].function_name == name@,
            forall|k: int|
                0 <= k < j ==> all[#[trigger] places[k] as int].contract_name
                    == all[first as int].contract_name,
        decreases positions.len() - j,
    {
        let at = positions[j];
        assert(at == places[j as int]);
        assert(all[at as int] == chunks@[at as int]@);
        if !same_text(chunks[at].contract_name.as_str(), chunks[first].contract_name.as_str()) {
            assert(all[at as int].function_name == name@);
            assert(!one_contract(all, name@));
            return None;
        }
        j += 1;
    }
    assert(one_contract(all, name@)) by {
        assert forall|i: int|
            0 <= i < all.len() && (#[trigger] all[i]).function_name
                == name@ implies all[i].contract_name == all[first as int].contract_name by {
            assert(places.contains(i as usize));
            let k = places.index_of(i as usize);
            assert(all[places[k] as int].contract_name == all[first as int].contract_name);
        }
    }
    Some(node_id(&chunks[first]))
}

/// What a symbol refers to.
#[derive(Debug)]
pub enum ResolvedTarget {
    /// The node of a definition.
    Definition(String),
    /// A state variable of the contract.
    StateVariable(String),
    /// A callee without a definition.
    ExternalCall(String),
    /// Nothing that has a node.
    Skip,
}

/// What a [`ResolvedTarget`] says.
pub enum TargetView {
    Definition(Seq<char>),
    StateVariable(Seq<char>),
    ExternalCall(Seq<char>),
    Skip,
}

impl View for ResolvedTarget {
    type V = TargetView;

    open spec fn view(&self) -> TargetView {
        match self {
            ResolvedTarget::Definition(id) => TargetView::Definition(id@),
            ResolvedTarget::StateVariable(name) => TargetView::StateVariable(name@),
            ResolvedTarget::ExternalCall(callee) => TargetView::ExternalCall(callee@),
            ResolvedTarget::Skip => TargetView::Skip,
        }
    }
}

/// The Unicode property Lowercase of a character.
pub uninterp spec fn is_lowercase(c: char) -> bool;

/// `char::is_lowercase`, which "returns `true` if this `char` has the `Lowercase`
/// property". Of the ASCII characters those from `a` to `z` have it.
#[verifier::external_body]
fn char_is_lowercase(c: char) -> (found: bool)
    ensures
        found == is_lowercase(c),
        c <= '\u{7f}' ==> found == ('a' <= c <= 'z'),
{
    c.is_lowercase()
}

/// A lowercase letter: of the ASCII characters one from `a` to `z`, of the others
/// one with the Unicode property.
pub open spec fn is_lower(c: char) -> bool {
    if c <= '\u{7f}' {
        'a' <= c <= 'z'
    } else {
        is_lowercase(c)
    }
}

/// What a symbol refers to from within a contract. A plain name is a definition,
/// or else, if it starts like a variable, a state variable of the contract. A
/// dotted one is a definition by what stands after its last dot, or else an outside
/// callee.
pub open spec fn resolved(
    chunks: Seq<StoredChunkView>,
    contract: Seq<char>,
    symbol: Seq<char>,
) -> TargetView {
    let head = head_of(symbol);
    let name = after_last(head, '.');
    if head.len() == 0 || builtin_names().contains(name) {
        TargetView::Skip
    } else {
        match looked_up(chunks, contract, name) {
            Some(id) => TargetView::Definition(id),
            None => if head.contains('.') {
                TargetView::ExternalCall(head)
            } else if is_lower(head[0]) || head[0] == '_' {
                TargetView::StateVariable(head)
            } else {
                TargetView::Skip
            },
        }
    }
}

/// After the last dot of a text without dots stands all of it.
proof fn lemma_no_mark(chars: Seq<char>, mark: char)
    ensures
        !chars.contains(mark) ==> after_last(chars, mark) == chars,
        chars.contains(mark) ==> after_last(chars, mark).len() < chars.len(),
        after_last(chars, mark).len() <= chars.len(),
    decreases chars.len(),
{
    if chars.len() > 0 {
        let rest = chars.drop_last();
        lemma_no_mark(rest, mark);
        if chars.last() == mark {
            assert(chars[chars.len() - 1] == mark);
        } else {
            if chars.contains(mark) {
                let i = chars.index_of(mark);
                assert(rest[i] == mark);
            } else {
                assert(!rest.contains(mark)) by {
                    if rest.contains(mark) {
                        let i = rest.index_of(mark);
                        assert(chars[i] == mark);
                    }
                }
                assert(rest.push(chars.last()) =~= chars);
            }
        }
    } else {
        assert(after_last(chars, mark) =~= chars);
    }
}

/// What a symbol of a chunk refers to.
pub fn resolve_symbol(
    symbol: &str,
    from: &StoredChunk,
    chunks: &Vec<StoredChunk>,
    by_function_name: &FunctionIndex,
) -> (target: ResolvedTarget)
    requires
        by_function_name.indexes(viewed(chunks@)),
    ensures
        target@ == resolved(viewed(chunks@), from@.contract_name, symbol@),
{
    let head = head_chars(symbol);
    if head.len() == 0 {
        return ResolvedTarget::Skip;
    }
    let start = after_last_mark(&head, '.');
    let name = text_between(&head, start, head.len());
    assert(name@ =~= after_last(head@, '.'));
    proof {
        lemma_no_mark(head@, '.');
    }
    if is_builtin(name.as_str()) {
        return ResolvedTarget::Skip;
    }
    if let Some(id) = lookup(name.as_str(), from, chunks, by_function_name) {
        return ResolvedTarget::Definition(id);
    }
    let text = text_between(&head, 0, head.len());
    assert(text@ =~= head@);
    if start > 0 {
        return ResolvedTarget::ExternalCall(text);
    }
    let first = head[0];
    if char_is_lowercase(first) || first == '_' {
        return ResolvedTarget::StateVariable(text);
    }
    ResolvedTarget::Skip
}

// ---------------------------------------------------------------- risk

/// Guard modifiers of common base contracts, which are known by name.
pub open spec fn known_guards() -> Seq<Seq<char>> {
    seq![
        "nonReentrant"@,
        "onlyOwner"@,
        "onlyRole"@,
        "whenNotPaused"@,
        "whenPaused"@,
        "initializer"@,
        "reinitializer"@,
    ]
}

/// A symbol that guards a definition: a modifier of the codebase or a known one.
pub open spec fn is_guard(symbol: Seq<char>, modifiers: Set<Seq<char>>) -> bool {
    modifiers.contains(symbol) || known_guards().contains(symbol)
}

/// A definition that refers to a guard.
pub open spec fn is_guarded(symbols: Seq<Seq<char>>, modifiers: Set<Seq<char>>) -> bool {
    exists|i: int| 0 <= i < symbols.len() && is_guard(#[trigger] symbols[i], modifiers)
}

/// The signature of a definition: its code before the first brace.
pub open spec fn signature_of(code: Seq<char>) -> Seq<char> {
    before_mark(code, seq!['{'])
}

/// A signature that lets anyone call and change state.
pub open spec fn is_open(signature: Seq<char>) -> bool {
    holds_keyword(signature, seq!["public"@, "external"@]) && !holds_keyword(
        signature,
        seq!["view"@, "pure"@],
    )
}

/// The points of a definition: four for a low-level call, three for being open and
/// touching state, two for being an entry point without a name, and three less for
/// being guarded.
pub open spec fn risk_points(
    chunk: StoredChunkView,
    modifiers: Set<Seq<char>>,
    touches_state: bool,
) -> int {
    let calls: int = if calls_low_level(chunk.code_content) {
        4
    } else {
        0
    };
    let exposed: int = if touches_state && is_open(signature_of(chunk.code_content)) {
        3
    } else {
        0
    };
    let entry: int = if chunk.kind == "fallback_or_receive"@ {
        2
    } else {
        0
    };
    let guarded: int = if is_guarded(chunk.referenced_symbols, modifiers) {
        3
    } else {
        0
    };
    calls + exposed + entry - guarded
}

/// The risk score: the points, from 0 to 10.
pub open spec fn risk_of(
    chunk: StoredChunkView,
    modifiers: Set<Seq<char>>,
    touches_state: bool,
) -> int {
    let points = risk_points(chunk, modifiers, touches_state);
    if points < 0 {
        0
    } else if points > 10 {
        10
    } else {
        points
    }
}

fn guard_is_known(symbol: &str) -> (found: bool)
    ensures
        found == known_guards().contains(symbol@),
{
    let guards = [
        "nonReentrant",
        "onlyOwner",
        "onlyRole",
        "whenNotPaused",
        "whenPaused",
        "initializer",
        "reinitializer",
    ];
    assert(str_views(guards@) =~= known_guards());
    is_keyword(symbol, &guards)
}

/// The structural threat score of a definition.
pub fn risk_score(
    chunk: &StoredChunk,
    modifier_names: &OrderedSet<String>,
    touches_state: bool,
) -> (score: u8)
    requires
        modifier_names.wf(),
    ensures
        score == risk_of(chunk@, modifier_names@, touches_state),
        score <= 10,
{
    let mut score: i32 = 0;
    let code = chars_of(chunk.code_content.as_str());
    let marks = ['{'];
    assert(marks@ =~= seq!['{']);
    let end = find_mark(&code, &marks);
    let signature = text_between(&code, 0, end);
    assert(signature@ =~= signature_of(chunk@.code_content));
    if has_low_level_call(chunk.code_content.as_str()) {
        score += 4;
    }
    let open_words = ["public", "external"];
    let closed_words = ["view", "pure"];
    assert(str_views(open_words@) =~= seq!["public"@, "external"@]);
    assert(str_views(closed_words@) =~= seq!["view"@, "pure"@]);
    if touches_state && has_keyword(signature.as_str(), &open_words) && !has_keyword(
        signature.as_str(),
        &closed_words,
    ) {
        score += 3;
    }
    if same_text(chunk.kind.as_str(), "fallback_or_receive") {
        score += 2;
    }
    let ghost symbols = views(chunk.referenced_symbols@);
    let mut guarded = false;
    let mut i: usize = 0;
    while i < chunk.referenced_symbols.len() && !guarded
        invariant
            i <= chunk.referenced_symbols.len(),
            symbols == views(chunk.referenced_symbols@),
            modifier_names.wf(),
            guarded ==> is_guarded(symbols, modifier_names@),
            !guarded ==> forall|j: int|
                0 <= j < i ==> !is_guard(#[trigger] symbols[j], modifier_names@),
        decreases chunk.referenced_symbols.len() - i,
    {
        let symbol = &chunk.referenced_symbols[i];
        assert(symbols[i as int] == symbol@);
        if modifier_names.contains(symbol) || guard_is_known(symbol.as_str()) {
            assert(is_guard(symbols[i as int], modifier_names@));
            guarded = true;
        }
        i += 1;
    }
    if guarded {
        score -= 3;
    }
    if score < 0 {
        0
    } else if score > 10 {
        10
    } else {
        score as u8
    }
}

// ---------------------------------------------------------------- topology

/// The name of a modifier of the codebase.
pub open spec fn names_modifier(chunks: Seq<StoredChunkView>, name: Seq<char>) -> bool {
    exists|i: int|
        0 <= i < chunks.len() && (#[trigger] chunks[i]).kind == "modifier"@
            && chunks[i].function_name == name
}

/// The names of the modifiers of the codebase.
pub open spec fn modifier_set(chunks: Seq<StoredChunkView>) -> Set<Seq<char>> {
    Set::new(|name: Seq<char>| names_modifier(chunks, name))
}

/// A definition that refers to a state variable.
pub open spec fn touches(chunks: Seq<StoredChunkView>, chunk: StoredChunkView) -> bool {
    exists|j: int|
        0 <= j < chunk.referenced_symbols.len() && resolved(
            chunks,
            chunk.contract_name,
            #[trigger] chunk.referenced_symbols[j],
        ) is StateVariable
}

/// The node of a definition.
pub open spec fn definition_node(
    chunks: Seq<StoredChunkView>,
    chunk: StoredChunkView,
) -> GraphNodeView {
    GraphNodeView {
        id: node_id_of(chunk),
        group: group_name(chunk.kind),
        size: size_for(line_count(chunk)),
        color: color_for(chunk),
        risk_score: risk_of(chunk, modifier_set(chunks), touches(chunks, chunk)) as u8,
    }
}

/// The node of a state variable.
pub open spec fn variable_node(id: Seq<char>) -> GraphNodeView {
    GraphNodeView {
        id,
        group: "state_variable"@,
        size: STATE_VAR_SIZE,
        color: COLOR_STATE_VAR@,
        risk_score: 0,
    }
}

/// The node of a callee without a definition.
pub open spec fn callee_node(id: Seq<char>) -> GraphNodeView {
    GraphNodeView {
        id,
        group: "external_call"@,
        size: EXTERNAL_CALL_SIZE,
        color: COLOR_EXTERNAL_CALL@,
        risk_score: 0,
    }
}

/// Nodes by id, and links.
#[verifier::ext_equal]
pub struct GraphView {
    pub nodes: Map<Seq<char>, GraphNodeView>,
    pub links: Set<(Seq<char>, Seq<char>)>,
}

/// A graph with a node, unless its id is taken, and a link to it.
pub open spec fn linked_to(graph: GraphView, source: Seq<char>, node: GraphNodeView) -> GraphView {
    GraphView {
        nodes: if graph.nodes.dom().contains(node.id) {
            graph.nodes
        } else {
            graph.nodes.insert(node.id, node)
        },
        links: graph.links.insert((source, node.id)),
    }
}

/// A graph with what one symbol of a definition refers to.
pub open spec fn with_symbol(
    graph: GraphView,
    chunks: Seq<StoredChunkView>,
    from: StoredChunkView,
    symbol: Seq<char>,
) -> GraphView {
    let source = node_id_of(from);
    match resolved(chunks, from.contract_name, symbol) {
        TargetView::Definition(target) => if target == source {
            graph
        } else {
            GraphView { nodes: graph.nodes, links: graph.links.insert((source, target)) }
        },
        TargetView::StateVariable(name) => linked_to(
            graph,
            source,
            variable_node(member_id(from.contract_name, name)),
        ),
        TargetView::ExternalCall(callee) => linked_to(graph, source, callee_node(callee)),
        TargetView::Skip => graph,
    }
}

/// A graph with what the symbols of a definition refer to, in order.
pub open spec fn with_symbols(
    graph: GraphView,
    chunks: Seq<StoredChunkView>,
    from: StoredChunkView,
    symbols: Seq<Seq<char>>,
) -> GraphView
    decreases symbols.len(),
{
    if symbols.len() == 0 {
        graph
    } else {
        with_symbol(
            with_symbols(graph, chunks, from, symbols.drop_last()),
            chunks,
            from,
            symbols.last(),
        )
    }
}

/// A graph with a definition, whose node replaces any other of its id, and with
/// what it refers to.
pub open spec fn with_chunk(
    graph: GraphView,
    chunks: Seq<StoredChunkView>,
    chunk: StoredChunkView,
) -> GraphView {
    let defined = GraphView {
        nodes: graph.nodes.insert(node_id_of(chunk), definition_node(chunks, chunk)),
        links: graph.links,
    };
    with_symbols(defined, chunks, chunk, chunk.referenced_symbols)
}

/// The graph of the first `n` definitions of a codebase.
pub open spec fn graph_of(chunks: Seq<StoredChunkView>, n: int) -> GraphView
    decreases n,
{
    if n <= 0 {
        GraphView { nodes: Map::empty(), links: Set::empty() }
    } else {
        with_chunk(graph_of(chunks, n - 1), chunks, chunks[n - 1])
    }
}

/// The topology of a codebase.
pub open spec fn topology(chunks: Seq<StoredChunkView>) -> GraphView {
    graph_of(chunks, chunks.len() as int)
}

/// Every node stands under its own id.
pub open spec fn own_ids(nodes: Map<Seq<char>, GraphNodeView>) -> bool {
    forall|id: Seq<char>| #[trigger] nodes.dom().contains(id) ==> nodes[id].id == id
}

/// The ids of nodes.
pub open spec fn node_ids(nodes: Seq<GraphNodeView>) -> Seq<Seq<char>> {
    nodes.map_values(|node: GraphNodeView| node.id)
}

/// `nodes` lists the nodes of a graph by ascending id.
pub open spec fn lists_nodes(
    graph: Map<Seq<char>, GraphNodeView>,
    nodes: Seq<GraphNodeView>,
) -> bool {
    &&& ascending::<String>(node_ids(nodes))
    &&& node_ids(nodes).to_set() == graph.dom()
    &&& forall|i: int| 0 <= i < nodes.len() ==> (#[trigger] nodes[i]) == graph[nodes[i].id]
}

/// The graph under construction.
struct Drawing {
    nodes: OrderedMap<String, GraphNode>,
    links: OrderedSet<GraphLink>,
}

impl Drawing {
    spec fn wf(&self) -> bool {
        self.nodes.wf() && self.links.wf() && own_ids(self.nodes@)
    }

    spec fn drawn(&self) -> GraphView {
        GraphView { nodes: self.nodes@, links: self.links@ }
    }

    /// Adds a node, unless its id is taken, and a link to it.
    fn link_to(&mut self, source: String, node: GraphNode)
        requires
            old(self).wf(),
        ensures
            final(self).wf(),
            final(self).drawn() == linked_to(old(self).drawn(), source@, node@),
    {
        let target = node.id.clone();
        if !self.nodes.contains(&target) {
            let id = node.id.clone();
            self.nodes.insert(id, node);
        }
        self.links.insert(GraphLink { source, target });
    }

    /// Adds what one symbol refers to.
    fn add_symbol(
        &mut self,
        chunks: &Vec<StoredChunk>,
        index: &FunctionIndex,
        from: &StoredChunk,
        symbol: &str,
    )
        requires
            old(self).wf(),
            index.indexes(viewed(chunks@)),
        ensures
            final(self).wf(),
            final(self).drawn() == with_symbol(old(self).drawn(), viewed(chunks@), from@, symbol@),
    {
        let source = node_id(from);
        match resolve_symbol(symbol, from, chunks, index) {
            ResolvedTarget::Definition(target) => {
                if !same_text(target.as_str(), source.as_str()) {
                    self.links.insert(GraphLink { source, target });
                }
            },
            ResolvedTarget::StateVariable(name) => {
                let id = member_text(from.contract_name.as_str(), name.as_str());
                self.link_to(
                    source,
                    GraphNode {
                        id,
                        group: "state_variable",
                        size: Double { bits: STATE_VAR_SIZE },
                        color: COLOR_STATE_VAR,
                        risk_score: 0,
                    },
                );
            },
            ResolvedTarget::ExternalCall(callee) => {
                self.link_to(
                    source,
                    GraphNode {
                        id: callee,
                        group: "external_call",
                        size: Double { bits: EXTERNAL_CALL_SIZE },
                        color: COLOR_EXTERNAL_CALL,
                        risk_score: 0,
                    },
                );
            },
            ResolvedTarget::Skip => {},
        }
    }

    /// Adds a definition and what it refers to.
    fn add_chunk(
        &mut self,
        chunks: &Vec<StoredChunk>,
        index: &FunctionIndex,
        modifiers: &OrderedSet<String>,
        chunk: &StoredChunk,
    )
        requires
            old(self).wf(),
            index.indexes(viewed(chunks@)),
            modifiers.wf(),
            modifiers@ == modifier_set(viewed(chunks@)),
            countable(chunk@),
        ensures
            final(self).wf(),
            final(self).drawn() == with_chunk(old(self).drawn(), viewed(chunks@), chunk@),
    {
        let ghost all = viewed(chunks@);
        let touches_state = refers_to_state(chunks, index, chunk);
        let node = GraphNode {
            id: node_id(chunk),
            group: group_of(chunk),
            size: definition_size(chunk),
            color: color_of(chunk),
            risk_score: risk_score(chunk, modifiers, touches_state),
        };
        assert(node@ =~= definition_node(all, chunk@));
        let id = node_id(chunk);
        self.nodes.insert(id, node);
        let ghost defined = self.drawn();
        let ghost symbols = views(chunk.referenced_symbols@);
        let mut i: usize = 0;
        assert(symbols.take(0) =~= Seq::<Seq<char>>::empty());
        while i < chunk.referenced_symbols.len()
            invariant
                i <= chunk.referenced_symbols.len(),
                symbols == views(chunk.referenced_symbols@),
                all == viewed(chunks@),
                index.indexes(all),
                self.wf(),
                self.drawn() == with_symbols(defined, all, chunk@, symbols.take(i as int)),
            decreases chunk.referenced_symbols.len() - i,
        {
            assert(symbols.take(i + 1).drop_last() =~= symbols.take(i as int));
            assert(symbols.take(i + 1).last() == chunk.referenced_symbols@[i as int]@);
            self.add_symbol(chunks, index, chunk, chunk.referenced_symbols[i].as_str());
            i += 1;
        }
        assert(symbols.take(i as int) =~= symbols);
    }
}

/// Whether a definition refers to a state variable.
fn refers_to_state(chunks: &Vec<StoredChunk>, index: &FunctionIndex, chunk: &StoredChunk) -> (found:
    bool)
    requires
        index.indexes(viewed(chunks@)),
    ensures
        found == touches(viewed(chunks@), chunk@),
{
    let ghost all = viewed(chunks@);
    let ghost symbols = views(chunk.referenced_symbols@);
    assert(chunk@.referenced_symbols == symbols);
    let mut i: usize = 0;
    while i < chunk.referenced_symbols.len()
        invariant
            i <= chunk.referenced_symbols.len(),
            symbols == views(chunk.referenced_symbols@),
            chunk@.referenced_symbols == symbols,
            all == viewed(chunks@),
            index.indexes(all),
            forall|j: int|
                0 <= j < i ==> !(resolved(all, chunk@.contract_name, #[trigger] symbols[j]) is StateVariable),
        decreases chunk.referenced_symbols.len() - i,
    {
        assert(symbols[i as int] == chunk.referenced_symbols@[i as int]@);
        let target = resolve_symbol(
            chunk.referenced_symbols[i].as_str(),
            chunk,
            chunks,
            index,
        );
        if let ResolvedTarget::StateVariable(_) = target {
            assert(resolved(all, chunk@.contract_name, chunk@.referenced_symbols[i as int]) is StateVariable);
            return true;
        }
        i += 1;
    }
    false
}

/// The names of the modifiers of the codebase.
fn modifiers_of(chunks: &Vec<StoredChunk>) -> (names: OrderedSet<String>)
    ensures
        names.wf(),
        names@ == modifier_set(viewed(chunks@)),
{
    let ghost all = viewed(chunks@);
    let mut names: OrderedSet<String> = OrderedSet::new();
    let mut i: usize = 0;
    assert(names@ =~= modifier_set(all.take(0)));
    while i < chunks.len()
        invariant
            i <= chunks.len(),
            all == viewed(chunks@),
            names.wf(),
            names@ == modifier_set(all.take(i as int)),
        decreases chunks.len() - i,
    {
        let ghost then = all.take(i as int);
        let ghost now = all.take(i + 1);
        let ghost before = names@;
        assert(now[i as int] == chunks@[i as int]@);
        let is_modifier = same_text(chunks[i].kind.as_str(), "modifier");
        if is_modifier {
            names.insert(chunks[i].function_name.clone());
        }
        assert forall|name: Seq<char>| #[trigger] names@.contains(name) == names_modifier(
            now,
            name,
        ) by {
            if names_modifier(then, name) {
                let j = choose|j: int|
                    0 <= j < then.len() && (#[trigger] then[j]).kind == "modifier"@
                        && then[j].function_name == name;
                assert(now[j] == then[j]);
            }
            if names_modifier(now, name) {
                let j = choose|j: int|
                    0 <= j < now.len() && (#[trigger] now[j]).kind == "modifier"@
                        && now[j].function_name == name;
                if j < i {
                    assert(now[j] == then[j]);
                }
            }
            assert(before.contains(name) == names_modifier(then, name));
            if is_modifier && now[i as int].function_name == name {
                assert(names_modifier(now, name));
            }
        }
        assert(names@ =~= modifier_set(now));
        i += 1;
    }
    assert(all.take(i as int) =~= all);
    names
}

/// The topology of a codebase.
pub fn build_graph(chunks: &Vec<StoredChunk>) -> (graph: CodeGraph)
    requires
        forall|i: int| 0 <= i < chunks.len() ==> countable((#[trigger] chunks@[i])@),
    ensures
        lists_nodes(topology(viewed(chunks@)).nodes, viewed(graph.nodes@)),
        ascending::<GraphLink>(viewed(graph.links@)),
        viewed(graph.links@).to_set() == topology(viewed(chunks@)).links,
{
    let ghost all = viewed(chunks@);
    let index = FunctionIndex::new(chunks);
    let modifiers = modifiers_of(chunks);
    let mut drawing = Drawing { nodes: OrderedMap::new(), links: OrderedSet::new() };
    let mut i: usize = 0;
    while i < chunks.len()
        invariant
            i <= chunks.len(),
            all == viewed(chunks@),
            forall|j: int| 0 <= j < chunks.len() ==> countable((#[trigger] chunks@[j])@),
            index.indexes(all),
            modifiers.wf(),
            modifiers@ == modifier_set(all),
            drawing.wf(),
            drawing.drawn() == graph_of(all, i as int),
        decreases chunks.len() - i,
    {
        assert(all[i as int] == chunks@[i as int]@);
        drawing.add_chunk(chunks, &index, &modifiers, &chunks[i]);
        i += 1;
    }
    let ghost map = drawing.nodes@;
    let (ids, nodes) = drawing.nodes.into_parts();
    let links = drawing.links.into_vec();
    proof {
        let keys = viewed(ids@);
        let values = viewed(nodes@);
        assert forall|k: int| 0 <= k < values.len() implies #[trigger] values[k] == map[keys[k]]
            && values[k].id == keys[k] by {
            lemma_zipped::<String, GraphNodeView>(keys, values, k);
        }
        assert(node_ids(values) =~= keys);
        assert(keys.to_set() =~= map.dom());
    }
    CodeGraph { nodes, links }
}

/// Whether the lines of all definitions can be counted.
pub fn lines_countable(chunks: &Vec<StoredChunk>) -> (fit: bool)
    ensures
        fit == forall|i: int| 0 <= i < chunks.len() ==> countable((#[trigger] chunks@[i])@),
{
    let mut i: usize = 0;
    while i < chunks.len()
        invariant
            i <= chunks.len(),
            forall|j: int| 0 <= j < i ==> countable((#[trigger] chunks@[j])@),
        decreases chunks.len() - i,
    {
        if chunks[i].start_line == 0 && chunks[i].end_line == 0xffff_ffff {
            assert(!countable(chunks@[i as int]@));
            return false;
        }
        assert(countable(chunks@[i as int]@));
        i += 1;
    }
    true
}

// ---------------------------------------------------------------- laws of the topology

/// The id of the node that a target stands for.
pub open spec fn target_id(contract: Seq<char>, target: TargetView) -> Option<Seq<char>> {
    match target {
        TargetView::Definition(id) => Some(id),
        TargetView::StateVariable(name) => Some(member_id(contract, name)),
        TargetView::ExternalCall(callee) => Some(callee),
        TargetView::Skip => None,
    }
}

/// One definition refers to a node by one of its symbols, and not to itself.
pub open spec fn refers_by(
    chunks: Seq<StoredChunkView>,
    from: StoredChunkView,
    symbol: Seq<char>,
    target: Seq<char>,
) -> bool {
    let meant = resolved(chunks, from.contract_name, symbol);
    &&& target_id(from.contract_name, meant) == Some(target)
    &&& meant is Definition ==> target != node_id_of(from)
}

/// Symbols add nodes and links, and change no node that is there.
proof fn lemma_symbols_extend(
    graph: GraphView,
    chunks: Seq<StoredChunkView>,
    from: StoredChunkView,
    symbols: Seq<Seq<char>>,
)
    ensures
        ({
            let larger = with_symbols(graph, chunks, from, symbols);
            &&& graph.nodes.dom().subset_of(larger.nodes.dom())
            &&& forall|id: Seq<char>| #[trigger]
                graph.nodes.dom().contains(id) ==> larger.nodes[id] == graph.nodes[id]
            &&& forall|source: Seq<char>, target: Seq<char>| #[trigger]
                larger.links.contains((source, target)) <==> graph.links.contains((source, target))
                    || source == node_id_of(from) && exists|j: int|
                    0 <= j < symbols.len() && refers_by(
                        chunks,
                        from,
                        #[trigger] symbols[j],
                        target,
                    )
        }),
    decreases symbols.len(),
{
    if symbols.len() > 0 {
        let rest = symbols.drop_last();
        let before = with_symbols(graph, chunks, from, rest);
        let larger = with_symbols(graph, chunks, from, symbols);
        lemma_symbols_extend(graph, chunks, from, rest);
        assert forall|source: Seq<char>, target: Seq<char>| #[trigger]
            larger.links.contains((source, target)) <==> graph.links.contains((source, target))
                || source == node_id_of(from) && exists|j: int|
                0 <= j < symbols.len() && refers_by(
                    chunks,
                    from,
                    #[trigger] symbols[j],
                    target,
                ) by {
            assert(before.links.contains((source, target)) <==> graph.links.contains(
                (source, target),
            ) || source == node_id_of(from) && exists|j: int|
                0 <= j < rest.len() && refers_by(chunks, from, #[trigger] rest[j], target));
            if exists|j: int| 0 <= j < rest.len() && refers_by(chunks, from, #[trigger] rest[j], target) {
                let j = choose|j: int|
                    0 <= j < rest.len() && refers_by(chunks, from, #[trigger] rest[j], target);
                assert(refers_by(chunks, from, symbols[j], target));
            }
            if exists|j: int|
                0 <= j < symbols.len() && refers_by(chunks, from, #[trigger] symbols[j], target) {
                let j = choose|j: int|
                    0 <= j < symbols.len() && refers_by(chunks, from, #[trigger] symbols[j], target);
                if j < rest.len() {
                    assert(refers_by(chunks, from, rest[j], target));
                }
            }
            if refers_by(chunks, from, symbols.last(), target) {
                assert(refers_by(chunks, from, symbols[symbols.len() - 1], target));
            }
        }
    }
}

/// What a graph of some definitions holds.
proof fn lemma_graph(chunks: Seq<StoredChunkView>, n: int)
    requires
        0 <= n <= chunks.len(),
    ensures
        ({
            let graph = graph_of(chunks, n);
            &&& forall|i: int|
                0 <= i < n ==> graph.nodes.dom().contains(node_id_of(#[trigger] chunks[i]))
            &&& forall|source: Seq<char>, target: Seq<char>| #[trigger]
                graph.links.contains((source, target)) <==> exists|i: int, j: int|
                    0 <= i < n && 0 <= j < chunks[i].referenced_symbols.len() && source
                        == node_id_of(chunks[i]) && refers_by(
                        chunks,
                        chunks[i],
                        #[trigger] chunks[i].referenced_symbols[j],
                        target,
                    )
        }),
    decreases n,
{
    if n > 0 {
        lemma_graph(chunks, n - 1);
        let before = graph_of(chunks, n - 1);
        let graph = graph_of(chunks, n);
        let chunk = chunks[n - 1];
        let defined = GraphView {
            nodes: before.nodes.insert(node_id_of(chunk), definition_node(chunks, chunk)),
            links: before.links,
        };
        lemma_symbols_extend(defined, chunks, chunk, chunk.referenced_symbols);
        assert forall|i: int| 0 <= i < n implies graph.nodes.dom().contains(
            node_id_of(#[trigger] chunks[i]),
        ) by {
            assert(defined.nodes.dom().contains(node_id_of(chunks[i])));
        }
        assert forall|source: Seq<char>, target: Seq<char>| #[trigger]
            graph.links.contains((source, target)) <==> exists|i: int, j: int|
                0 <= i < n && 0 <= j < chunks[i].referenced_symbols.len() && source == node_id_of(
                    chunks[i],
                ) && refers_by(chunks, chunks[i], #[trigger] chunks[i].referenced_symbols[j], target) by {
            assert(before.links.contains((source, target)) <==> exists|i: int, j: int|
                0 <= i < n - 1 && 0 <= j < chunks[i].referenced_symbols.len() && source
                    == node_id_of(chunks[i]) && refers_by(
                    chunks,
                    chunks[i],
                    #[trigger] chunks[i].referenced_symbols[j],
                    target,
                ));
            if source == node_id_of(chunk) && exists|j: int|
                0 <= j < chunk.referenced_symbols.len() && refers_by(
                    chunks,
                    chunk,
                    #[trigger] chunk.referenced_symbols[j],
                    target,
                ) {
                let j = choose|j: int|
                    0 <= j < chunk.referenced_symbols.len() && refers_by(
                        chunks,
                        chunk,
                        #[trigger] chunk.referenced_symbols[j],
                        target,
                    );
                assert(refers_by(
                    chunks,
                    chunks[n - 1],
                    chunks[n - 1].referenced_symbols[j],
                    target,
                ));
            }
        }
    }
}

/// The links are the references between different nodes: each goes from a
/// definition to what one of its symbols stands for, and there are no others.
pub proof fn links_are_the_references(
    chunks: Seq<StoredChunkView>,
    source: Seq<char>,
    target: Seq<char>,
)
    ensures
        topology(chunks).links.contains((source, target)) <==> exists|i: int, j: int|
            0 <= i < chunks.len() && 0 <= j < chunks[i].referenced_symbols.len() && source
                == node_id_of(chunks[i]) && refers_by(
                chunks,
                chunks[i],
                #[trigger] chunks[i].referenced_symbols[j],
                target,
            ),
{
    lemma_graph(chunks, chunks.len() as int);
}

/// What a name is resolved to is the node of some definition.
proof fn lemma_looked_up(chunks: Seq<StoredChunkView>, contract: Seq<char>, name: Seq<char>)
    requires
        looked_up(chunks, contract, name) is Some,
        chunks.len() <= usize::MAX,
    ensures
        exists|i: int|
            0 <= i < chunks.len() && node_id_of(#[trigger] chunks[i]) == looked_up(
                chunks,
                contract,
                name,
            )->0,
{
    if defines(chunks, contract, name) {
        let i = choose|i: int|
            0 <= i < chunks.len() && (#[trigger] chunks[i]).function_name == name
                && chunks[i].contract_name == contract;
        assert(node_id_of(chunks[i]) == member_id(contract, name));
    } else {
        lemma_named(chunks, name);
        let i = named(chunks, name)[0] as int;
        assert(node_id_of(chunks[i]) == looked_up(chunks, contract, name)->0);
    }
}

/// The targets of symbols that are no definitions get their nodes.
proof fn lemma_targets_drawn(
    graph: GraphView,
    chunks: Seq<StoredChunkView>,
    from: StoredChunkView,
    symbols: Seq<Seq<char>>,
    j: int,
)
    requires
        0 <= j < symbols.len(),
    ensures
        ({
            let meant = resolved(chunks, from.contract_name, symbols[j]);
            let larger = with_symbols(graph, chunks, from, symbols);
            (meant is StateVariable || meant is ExternalCall) ==> larger.nodes.dom().contains(
                target_id(from.contract_name, meant)->0,
            )
        }),
    decreases symbols.len(),
{
    if j < symbols.len() - 1 {
        lemma_targets_drawn(graph, chunks, from, symbols.drop_last(), j);
        assert(symbols.drop_last()[j] == symbols[j]);
    }
}

/// Later definitions keep the nodes that are there.
proof fn lemma_nodes_kept(chunks: Seq<StoredChunkView>, n: int, m: int)
    requires
        0 <= n <= m <= chunks.len(),
    ensures
        graph_of(chunks, n).nodes.dom().subset_of(graph_of(chunks, m).nodes.dom()),
    decreases m - n,
{
    if n < m {
        lemma_nodes_kept(chunks, n, m - 1);
        let before = graph_of(chunks, m - 1);
        let chunk = chunks[m - 1];
        let defined = GraphView {
            nodes: before.nodes.insert(node_id_of(chunk), definition_node(chunks, chunk)),
            links: before.links,
        };
        lemma_symbols_extend(defined, chunks, chunk, chunk.referenced_symbols);
    }
}

/// Both ends of every link are nodes.
pub proof fn link_ends_are_nodes(
    chunks: Seq<StoredChunkView>,
    source: Seq<char>,
    target: Seq<char>,
)
    requires
        chunks.len() <= usize::MAX,
        topology(chunks).links.contains((source, target)),
    ensures
        topology(chunks).nodes.dom().contains(source),
        topology(chunks).nodes.dom().contains(target),
{
    let n = chunks.len() as int;
    lemma_graph(chunks, n);
    let (i, j) = choose|i: int, j: int|
        0 <= i < n && 0 <= j < chunks[i].referenced_symbols.len() && source == node_id_of(chunks[i])
            && refers_by(chunks, chunks[i], #[trigger] chunks[i].referenced_symbols[j], target);
    let chunk = chunks[i];
    let symbol = chunk.referenced_symbols[j];
    assert(topology(chunks).nodes.dom().contains(node_id_of(chunks[i])));
    match resolved(chunks, chunk.contract_name, symbol) {
        TargetView::Definition(id) => {
            let name = after_last(head_of(symbol), '.');
            lemma_looked_up(chunks, chunk.contract_name, name);
            let k = choose|k: int|
                0 <= k < chunks.len() && node_id_of(#[trigger] chunks[k]) == looked_up(
                    chunks,
                    chunk.contract_name,
                    name,
                )->0;
            assert(topology(chunks).nodes.dom().contains(node_id_of(chunks[k])));
        },
        _ => {
            let before = graph_of(chunks, i);
            let defined = GraphView {
                nodes: before.nodes.insert(node_id_of(chunk), definition_node(chunks, chunk)),
                links: before.links,
            };
            lemma_targets_drawn(defined, chunks, chunk, chunk.referenced_symbols, j);
            assert(graph_of(chunks, i + 1) == with_symbols(
                defined,
                chunks,
                chunk,
                chunk.referenced_symbols,
            ));
            lemma_nodes_kept(chunks, i + 1, n);
        },
    }
}

/// The last definition of an id has the node.
pub proof fn definitions_have_their_nodes(chunks: Seq<StoredChunkView>, i: int)
    requires
        0 <= i < chunks.len(),
        forall|k: int|
            i < k < chunks.len() ==> node_id_of(#[trigger] chunks[k]) != node_id_of(chunks[i]),
    ensures
        topology(chunks).nodes.dom().contains(node_id_of(chunks[i])),
        topology(chunks).nodes[node_id_of(chunks[i])] == definition_node(chunks, chunks[i]),
{
    lemma_definition_kept(chunks, i, chunks.len() as int);
}

proof fn lemma_definition_kept(chunks: Seq<StoredChunkView>, i: int, n: int)
    requires
        0 <= i < n <= chunks.len(),
        forall|k: int|
            i < k < chunks.len() ==> node_id_of(#[trigger] chunks[k]) != node_id_of(chunks[i]),
    ensures
        graph_of(chunks, n).nodes.dom().contains(node_id_of(chunks[i])),
        graph_of(chunks, n).nodes[node_id_of(chunks[i])] == definition_node(chunks, chunks[i]),
    decreases n,
{
    let before = graph_of(chunks, n - 1);
    let chunk = chunks[n - 1];
    let defined = GraphView {
        nodes: before.nodes.insert(node_id_of(chunk), definition_node(chunks, chunk)),
        links: before.links,
    };
    lemma_symbols_extend(defined, chunks, chunk, chunk.referenced_symbols);
    if i < n - 1 {
        lemma_definition_kept(chunks, i, n - 1);
        assert(node_id_of(chunks[n - 1]) != node_id_of(chunks[i]));
    }
    assert(defined.nodes.dom().contains(node_id_of(chunks[i])));
}

/// No definition has the id.
pub open spec fn is_undefined(chunks: Seq<StoredChunkView>, id: Seq<char>) -> bool {
    forall|i: int| 0 <= i < chunks.len() ==> node_id_of(#[trigger] chunks[i]) != id
}

/// The node that a symbol of a definition adds: that of a state variable or of a
/// callee without a definition.
pub open spec fn synthesized(
    chunks: Seq<StoredChunkView>,
    from: StoredChunkView,
    symbol: Seq<char>,
) -> Option<GraphNodeView> {
    match resolved(chunks, from.contract_name, symbol) {
        TargetView::StateVariable(name) => Some(
            variable_node(member_id(from.contract_name, name)),
        ),
        TargetView::ExternalCall(callee) => Some(callee_node(callee)),
        _ => None,
    }
}

/// Some symbol of the codebase adds the node.
pub open spec fn synthesizes(chunks: Seq<StoredChunkView>, node: GraphNodeView) -> bool {
    exists|i: int, j: int|
        0 <= i < chunks.len() && 0 <= j < chunks[i].referenced_symbols.len() && synthesized(
            chunks,
            chunks[i],
            #[trigger] chunks[i].referenced_symbols[j],
        ) == Some(node)
}

/// A node that no definition has is that of a state variable or of a callee
/// without a definition, added by some symbol, and carries no risk of its own.
pub proof fn other_nodes_are_synthesized(chunks: Seq<StoredChunkView>, id: Seq<char>)
    requires
        topology(chunks).nodes.dom().contains(id),
        is_undefined(chunks, id),
    ensures
        synthesizes(chunks, topology(chunks).nodes[id]),
        topology(chunks).nodes[id] == variable_node(id) || topology(chunks).nodes[id]
            == callee_node(id),
        topology(chunks).nodes[id].risk_score == 0,
{
    lemma_synthesized(chunks, id, chunks.len() as int);
}

proof fn lemma_synthesized(chunks: Seq<StoredChunkView>, id: Seq<char>, n: int)
    requires
        0 <= n <= chunks.len(),
        graph_of(chunks, n).nodes.dom().contains(id),
        is_undefined(chunks, id),
    ensures
        graph_of(chunks, n).nodes[id].id == id,
        synthesizes(chunks, graph_of(chunks, n).nodes[id]),
    decreases n,
{
    if n > 0 {
        let before = graph_of(chunks, n - 1);
        let chunk = chunks[n - 1];
        assert(node_id_of(chunks[n - 1]) != id);
        let defined = GraphView {
            nodes: before.nodes.insert(node_id_of(chunk), definition_node(chunks, chunk)),
            links: before.links,
        };
        if before.nodes.dom().contains(id) {
            lemma_synthesized(chunks, id, n - 1);
            lemma_symbols_extend(defined, chunks, chunk, chunk.referenced_symbols);
            assert(defined.nodes.dom().contains(id));
        } else {
            lemma_new_nodes(defined, chunks, chunk, chunk.referenced_symbols, id);
            let node = graph_of(chunks, n).nodes[id];
            let j = choose|j: int|
                0 <= j < chunk.referenced_symbols.len() && synthesized(
                    chunks,
                    chunk,
                    #[trigger] chunk.referenced_symbols[j],
                ) == Some(node);
            assert(synthesized(chunks, chunks[n - 1], chunks[n - 1].referenced_symbols[j]) == Some(
                node,
            ));
        }
    }
}

proof fn lemma_new_nodes(
    graph: GraphView,
    chunks: Seq<StoredChunkView>,
    from: StoredChunkView,
    symbols: Seq<Seq<char>>,
    id: Seq<char>,
)
    requires
        !graph.nodes.dom().contains(id),
        with_symbols(graph, chunks, from, symbols).nodes.dom().contains(id),
    ensures
        with_symbols(graph, chunks, from, symbols).nodes[id].id == id,
        exists|j: int|
            0 <= j < symbols.len() && synthesized(chunks, from, #[trigger] symbols[j]) == Some(
                with_symbols(graph, chunks, from, symbols).nodes[id],
            ),
    decreases symbols.len(),
{
    if symbols.len() > 0 {
        let rest = symbols.drop_last();
        let node = with_symbols(graph, chunks, from, symbols).nodes[id];
        if with_symbols(graph, chunks, from, rest).nodes.dom().contains(id) {
            lemma_new_nodes(graph, chunks, from, rest, id);
            let j = choose|j: int|
                0 <= j < rest.len() && synthesized(chunks, from, #[trigger] rest[j]) == Some(node);
            assert(synthesized(chunks, from, symbols[j]) == Some(node));
        } else {
            assert(synthesized(chunks, from, symbols[symbols.len() - 1]) == Some(node));
        }
    }
}

/// What a symbol adds is a node of the graph.
pub proof fn lemma_synthesized_drawn(chunks: Seq<StoredChunkView>, node: GraphNodeView)
    requires
        synthesizes(chunks, node),
    ensures
        topology(chunks).nodes.dom().contains(node.id),
{
    let (i, j) = choose|i: int, j: int|
        0 <= i < chunks.len() && 0 <= j < chunks[i].referenced_symbols.len() && synthesized(
            chunks,
            chunks[i],
            #[trigger] chunks[i].referenced_symbols[j],
        ) == Some(node);
    let chunk = chunks[i];
    let before = graph_of(chunks, i);
    let defined = GraphView {
        nodes: before.nodes.insert(node_id_of(chunk), definition_node(chunks, chunk)),
        links: before.links,
    };
    lemma_targets_drawn(defined, chunks, chunk, chunk.referenced_symbols, j);
    assert(graph_of(chunks, i + 1) == with_symbols(
        defined,
        chunks,
        chunk,
        chunk.referenced_symbols,
    ));
    lemma_nodes_kept(chunks, i + 1, chunks.len() as int);
}

/// Two lists hold the same chunks, in whatever order.
pub open spec fn same_chunks(a: Seq<StoredChunkView>, b: Seq<StoredChunkView>) -> bool {
    forall|chunk: StoredChunkView| #[trigger] a.contains(chunk) <==> b.contains(chunk)
}

/// No two different nodes of a codebase compete for an id: those of two definitions,
/// or, for an id without a definition, those of a state variable and a callee.
pub open spec fn ids_are_clear(chunks: Seq<StoredChunkView>) -> bool {
    &&& forall|i: int, j: int|
        0 <= i < chunks.len() && 0 <= j < chunks.len() && node_id_of(#[trigger] chunks[i])
            == node_id_of(#[trigger] chunks[j]) ==> definition_node(chunks, chunks[i])
            == definition_node(chunks, chunks[j])
    &&& forall|x: GraphNodeView, y: GraphNodeView| #[trigger]
        synthesizes(chunks, x) && #[trigger] synthesizes(chunks, y) && x.id == y.id && is_undefined(
            chunks,
            x.id,
        ) ==> x == y
}

/// A chunk of one list stands somewhere in the other.
proof fn lemma_same_chunks(a: Seq<StoredChunkView>, b: Seq<StoredChunkView>, i: int) -> (j: int)
    requires
        same_chunks(a, b),
        0 <= i < a.len(),
    ensures
        0 <= j < b.len(),
        b[j] == a[i],
{
    assert(a.contains(a[i]));
    b.index_of(a[i])
}

/// Names are looked up alike among the same chunks.
proof fn lemma_same_lookup(
    a: Seq<StoredChunkView>,
    b: Seq<StoredChunkView>,
    contract: Seq<char>,
    name: Seq<char>,
)
    requires
        same_chunks(a, b),
        a.len() <= usize::MAX,
        b.len() <= usize::MAX,
    ensures
        looked_up(a, contract, name) == looked_up(b, contract, name),
{
    lemma_lookup_follows(a, b, contract, name);
    lemma_lookup_follows(b, a, contract, name);
    lemma_named(a, name);
    lemma_named(b, name);
    if named(a, name).len() > 0 && named(b, name).len() > 0 && one_contract(a, name) {
        let i = named(a, name)[0] as int;
        let j = named(b, name)[0] as int;
        let k = lemma_same_chunks(b, a, j);
        assert(a[i].contract_name == a[k].contract_name);
    }
}

proof fn lemma_lookup_follows(
    a: Seq<StoredChunkView>,
    b: Seq<StoredChunkView>,
    contract: Seq<char>,
    name: Seq<char>,
)
    requires
        same_chunks(a, b),
        a.len() <= usize::MAX,
        b.len() <= usize::MAX,
    ensures
        defines(a, contract, name) ==> defines(b, contract, name),
        named(a, name).len() > 0 ==> named(b, name).len() > 0,
        one_contract(b, name) ==> one_contract(a, name),
{
    lemma_named(a, name);
    lemma_named(b, name);
    if defines(a, contract, name) {
        let i = choose|i: int|
            0 <= i < a.len() && (#[trigger] a[i]).function_name == name && a[i].contract_name
                == contract;
        let j = lemma_same_chunks(a, b, i);
        assert(b[j].function_name == name);
    }
    if named(a, name).len() > 0 {
        let j = lemma_same_chunks(a, b, named(a, name)[0] as int);
        assert(b[j].function_name == name);
        assert(named(b, name).contains(j as usize));
    }
    if one_contract(b, name) {
        assert forall|i: int, j: int|
            0 <= i < a.len() && 0 <= j < a.len() && (#[trigger] a[i]).function_name == name && (
            #[trigger] a[j]).function_name == name implies a[i].contract_name
            == a[j].contract_name by {
            let k = lemma_same_chunks(a, b, i);
            let l = lemma_same_chunks(a, b, j);
            assert(b[k].contract_name == b[l].contract_name);
        }
    }
}

/// What the same chunks say, in whatever order, is resolved and drawn alike.
proof fn lemma_same_meaning(a: Seq<StoredChunkView>, b: Seq<StoredChunkView>)
    requires
        same_chunks(a, b),
        a.len() <= usize::MAX,
        b.len() <= usize::MAX,
    ensures
        forall|contract: Seq<char>, symbol: Seq<char>| #[trigger]
            resolved(a, contract, symbol) == resolved(b, contract, symbol),
        forall|chunk: StoredChunkView| #[trigger]
            definition_node(a, chunk) == definition_node(b, chunk),
        forall|node: GraphNodeView| #[trigger] synthesizes(a, node) ==> synthesizes(b, node),
        topology(a).links.subset_of(topology(b).links),
{
    assert forall|contract: Seq<char>, symbol: Seq<char>| #[trigger]
        resolved(a, contract, symbol) == resolved(b, contract, symbol) by {
        lemma_same_lookup(a, b, contract, after_last(head_of(symbol), '.'));
    }
    assert(modifier_set(a) =~= modifier_set(b)) by {
        assert forall|name: Seq<char>| names_modifier(a, name) == #[trigger] names_modifier(
            b,
            name,
        ) by {
            lemma_modifier_follows(a, b, name);
            lemma_modifier_follows(b, a, name);
        }
    }
    assert forall|chunk: StoredChunkView| #[trigger]
        definition_node(a, chunk) == definition_node(b, chunk) by {
        assert(touches(a, chunk) == touches(b, chunk));
    }
    assert forall|node: GraphNodeView| #[trigger] synthesizes(a, node) implies synthesizes(
        b,
        node,
    ) by {
        let (i, j) = choose|i: int, j: int|
            0 <= i < a.len() && 0 <= j < a[i].referenced_symbols.len() && synthesized(
                a,
                a[i],
                #[trigger] a[i].referenced_symbols[j],
            ) == Some(node);
        let k = lemma_same_chunks(a, b, i);
        assert(synthesized(b, b[k], b[k].referenced_symbols[j]) == Some(node));
    }
    assert forall|source: Seq<char>, target: Seq<char>| #[trigger]
        topology(a).links.contains((source, target)) implies topology(b).links.contains(
        (source, target),
    ) by {
        links_are_the_references(a, source, target);
        links_are_the_references(b, source, target);
        let (i, j) = choose|i: int, j: int|
            0 <= i < a.len() && 0 <= j < a[i].referenced_symbols.len() && source == node_id_of(a[i])
                && refers_by(a, a[i], #[trigger] a[i].referenced_symbols[j], target);
        let k = lemma_same_chunks(a, b, i);
        assert(refers_by(b, b[k], b[k].referenced_symbols[j], target));
    }
    assert forall|link: (Seq<char>, Seq<char>)| topology(a).links.contains(link) implies topology(
        b,
    ).links.contains(link) by {
        assert(link == (link.0, link.1));
    }
}

proof fn lemma_modifier_follows(
    a: Seq<StoredChunkView>,
    b: Seq<StoredChunkView>,
    name: Seq<char>,
)
    requires
        same_chunks(a, b),
    ensures
        names_modifier(a, name) ==> names_modifier(b, name),
{
    if names_modifier(a, name) {
        let i = choose|i: int|
            0 <= i < a.len() && (#[trigger] a[i]).kind == "modifier"@ && a[i].function_name == name;
        let j = lemma_same_chunks(a, b, i);
        assert(b[j].function_name == name);
    }
}

/// An id that one list does not define, the other does not define either.
proof fn lemma_same_undefined(a: Seq<StoredChunkView>, b: Seq<StoredChunkView>, id: Seq<char>)
    requires
        same_chunks(a, b),
        is_undefined(b, id),
    ensures
        is_undefined(a, id),
{
    assert forall|i: int| 0 <= i < a.len() implies node_id_of(#[trigger] a[i]) != id by {
        let j = lemma_same_chunks(a, b, i);
        assert(node_id_of(b[j]) != id);
    }
}

/// A node of one graph is the node of its id in the other.
proof fn lemma_same_node(a: Seq<StoredChunkView>, b: Seq<StoredChunkView>, id: Seq<char>)
    requires
        same_chunks(a, b),
        a.len() <= usize::MAX,
        b.len() <= usize::MAX,
        ids_are_clear(a),
        topology(a).nodes.dom().contains(id),
    ensures
        topology(b).nodes.dom().contains(id),
        topology(b).nodes[id] == topology(a).nodes[id],
{
    lemma_same_meaning(a, b);
    lemma_same_meaning(b, a);
    if is_undefined(a, id) {
        lemma_same_undefined(b, a, id);
        other_nodes_are_synthesized(a, id);
        let node = topology(a).nodes[id];
        lemma_synthesized_drawn(b, node);
        other_nodes_are_synthesized(b, id);
        assert(synthesizes(a, topology(b).nodes[id]));
    } else {
        let i = choose|i: int| 0 <= i < a.len() && node_id_of(#[trigger] a[i]) == id;
        let j = lemma_same_chunks(a, b, i);
        assert(node_id_of(b[j]) == id);
        let k = lemma_last_definition(a, id);
        let l = lemma_last_definition(b, id);
        definitions_have_their_nodes(a, k);
        definitions_have_their_nodes(b, l);
        let m = lemma_same_chunks(b, a, l);
        assert(definition_node(a, a[m]) == definition_node(a, a[k]));
    }
}

/// There is a last definition of an id that is defined.
pub proof fn lemma_last_definition(chunks: Seq<StoredChunkView>, id: Seq<char>) -> (last: int)
    requires
        !is_undefined(chunks, id),
    ensures
        0 <= last < chunks.len(),
        node_id_of(chunks[last]) == id,
        forall|k: int| last < k < chunks.len() ==> node_id_of(#[trigger] chunks[k]) != id,
    decreases chunks.len(),
{
    let n = chunks.len() - 1;
    if node_id_of(chunks[n]) == id {
        n
    } else {
        let rest = chunks.drop_last();
        let i = choose|i: int| 0 <= i < chunks.len() && node_id_of(#[trigger] chunks[i]) == id;
        assert(node_id_of(rest[i]) == id);
        let last = lemma_last_definition(rest, id);
        assert forall|k: int| last < k < chunks.len() implies node_id_of(#[trigger] chunks[k])
            != id by {
            if k < n {
                assert(rest[k] == chunks[k]);
            }
        }
        last
    }
}

/// The order of the chunks has no influence on the graph, as long as no two nodes
/// compete for an id.
pub proof fn order_has_no_influence(a: Seq<StoredChunkView>, b: Seq<StoredChunkView>)
    requires
        same_chunks(a, b),
        a.len() <= usize::MAX,
        b.len() <= usize::MAX,
        ids_are_clear(a),
    ensures
        topology(a) == topology(b),
{
    lemma_same_meaning(a, b);
    lemma_same_meaning(b, a);
    assert(ids_are_clear(b)) by {
        assert forall|i: int, j: int|
            0 <= i < b.len() && 0 <= j < b.len() && node_id_of(#[trigger] b[i]) == node_id_of(
                #[trigger] b[j],
            ) implies definition_node(b, b[i]) == definition_node(b, b[j]) by {
            let k = lemma_same_chunks(b, a, i);
            let l = lemma_same_chunks(b, a, j);
            assert(definition_node(a, a[k]) == definition_node(a, a[l]));
        }
        assert forall|x: GraphNodeView, y: GraphNodeView| #[trigger]
            synthesizes(b, x) && #[trigger] synthesizes(b, y) && x.id == y.id && is_undefined(
                b,
                x.id,
            ) implies x == y by {
            assert(synthesizes(a, x) && synthesizes(a, y));
            lemma_same_undefined(a, b, x.id);
        }
    }
    assert(topology(a).links =~= topology(b).links);
    let nodes_a = topology(a).nodes;
    let nodes_b = topology(b).nodes;
    assert forall|id: Seq<char>| #[trigger] nodes_a.dom().contains(id) implies nodes_b.dom().contains(
        id,
    ) && nodes_a[id] == nodes_b[id] by {
        lemma_same_node(a, b, id);
    }
    assert forall|id: Seq<char>| #[trigger] nodes_b.dom().contains(id) implies nodes_a.dom().contains(
        id,
    ) by {
        lemma_same_node(b, a, id);
    }
    assert(nodes_a =~= nodes_b);
}

/// The graph is determined: the same codebase gives the same lists of nodes and
/// links.
pub proof fn the_graph_is_determined(
    chunks: Seq<StoredChunkView>,
    nodes_a: Seq<GraphNodeView>,
    nodes_b: Seq<GraphNodeView>,
    links_a: Seq<(Seq<char>, Seq<char>)>,
    links_b: Seq<(Seq<char>, Seq<char>)>,
)
    requires
        lists_nodes(topology(chunks).nodes, nodes_a),
        lists_nodes(topology(chunks).nodes, nodes_b),
        ascending::<GraphLink>(links_a),
        ascending::<GraphLink>(links_b),
        links_a.to_set() == topology(chunks).links,
        links_b.to_set() == topology(chunks).links,
    ensures
        nodes_a == nodes_b,
        links_a == links_b,
{
    lemma_ascending_unique::<String>(node_ids(nodes_a), node_ids(nodes_b));
    lemma_ascending_unique::<GraphLink>(links_a, links_b);
    assert(node_ids(nodes_a).len() == nodes_a.len() && node_ids(nodes_b).len() == nodes_b.len());
    assert forall|i: int| 0 <= i < nodes_a.len() implies nodes_a[i] == #[trigger] nodes_b[i] by {
        assert(node_ids(nodes_a)[i] == nodes_a[i].id);
        assert(node_ids(nodes_b)[i] == nodes_b[i].id);
    }
    assert(nodes_a =~= nodes_b);
}

/// The risk of a definition is between 0 and 10: a guard lowers it, and a low-level
/// call raises it.
pub proof fn risk_follows_the_rules(
    chunk: StoredChunkView,
    modifiers: Set<Seq<char>>,
    touches_state: bool,
)
    ensures
        0 <= risk_of(chunk, modifiers, touches_state) <= 10,
        calls_low_level(chunk.code_content) && !is_guarded(chunk.referenced_symbols, modifiers)
            ==> risk_of(chunk, modifiers, touches_state) >= 4,
        !calls_low_level(chunk.code_content) && is_guarded(chunk.referenced_symbols, modifiers)
            ==> risk_of(chunk, modifiers, touches_state) <= 2,
        !touches_state && !calls_low_level(chunk.code_content) && chunk.kind
            != "fallback_or_receive"@ ==> risk_of(chunk, modifiers, touches_state) == 0,
{
}

} // verus!
