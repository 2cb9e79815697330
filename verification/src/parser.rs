//! Extraction of function-like definitions from Solidity sources.
//!
//! Every function, constructor, modifier and fallback/receive definition of a
//! contract, interface or library becomes one chunk: its code, where it stands,
//! and the symbols it refers to.
use vstd::prelude::*;
use vstd::string::*;
use vstd::utf8::*;

use crate::ordered::{ascending, lemma_ascending_unique, viewed, OrderedSet};
use crate::syntax::{
    check_rows, check_tree, field_child, find_end, find_field, find_kind, flatten, is_child,
    is_child_node, kind_child, lemma_child_from, lemma_end_bounds, lemma_source_slice, line_feeds,
    load_solidity, new_parser, node_fits, node_text, node_text_of, node_views, parse_text,
    parses_solidity, rows_fit, solidity_nodes, subtree_end, tree_fits, NodeView, SyntaxNode,
};
use crate::text::{char_is_space, chars_of, contains_text, occurs_at, same_text, trim_front, views};

verus! {

/// Why a source could not be turned into chunks.
#[derive(Debug)]
pub enum ParserError {
    /// The Solidity grammar could not be loaded.
    Language(tree_sitter::LanguageError),
    /// No syntax tree came back for the file.
    ParseFailed(String),
    /// The syntax tree of the file names stretches or lines that its source does not
    /// have.
    MalformedTree(String),
}

/// What kind of function-like definition a chunk was extracted from.
#[derive(Debug, Clone, Copy, PartialEq, Eq, Structural)]
pub enum DefinitionKind {
    Function,
    Constructor,
    Modifier,
    FallbackOrReceive,
}

/// The stable name of a kind of definition.
pub open spec fn kind_name(kind: DefinitionKind) -> Seq<char> {
    match kind {
        DefinitionKind::Function => "function"@,
        DefinitionKind::Constructor => "constructor"@,
        DefinitionKind::Modifier => "modifier"@,
        DefinitionKind::FallbackOrReceive => "fallback_or_receive"@,
    }
}

impl DefinitionKind {
    /// Stable string form, as kept in the `kind` column.
    pub fn as_str(self) -> (name: &'static str)
        ensures
            name@ == kind_name(self),
    {
        match self {
            DefinitionKind::Function => "function",
            DefinitionKind::Constructor => "constructor",
            DefinitionKind::Modifier => "modifier",
            DefinitionKind::FallbackOrReceive => "fallback_or_receive",
        }
    }
}

/// One function-like definition with its context.
#[derive(Debug)]
pub struct FunctionChunk {
    pub file_path: String,
    pub contract_name: String,
    pub function_name: String,
    pub code_content: String,
    /// The callees of the body, the modifiers that guard it and the state
    /// variables of its contract that it mentions, in ascending order.
    pub referenced_symbols: Vec<String>,
    pub kind: DefinitionKind,
    /// Lines, counted from one.
    pub start_line: usize,
    pub end_line: usize,
}

/// What a [`FunctionChunk`] says.
#[verifier::ext_equal]
pub struct FunctionChunkView {
    pub file_path: Seq<char>,
    pub contract_name: Seq<char>,
    pub function_name: Seq<char>,
    pub code_content: Seq<char>,
    pub referenced_symbols: Seq<Seq<char>>,
    pub kind: DefinitionKind,
    pub start_line: usize,
    pub end_line: usize,
}

impl View for FunctionChunk {
    type V = FunctionChunkView;

    open spec fn view(&self) -> FunctionChunkView {
        FunctionChunkView {
            file_path: self.file_path@,
            contract_name: self.contract_name@,
            function_name: self.function_name@,
            code_content: self.code_content@,
            referenced_symbols: views(self.referenced_symbols@),
            kind: self.kind,
            start_line: self.start_line,
            end_line: self.end_line,
        }
    }
}

impl Clone for FunctionChunk {
    fn clone(&self) -> (copy: Self)
        ensures
            copy@ == self@,
    {
        let copy = FunctionChunk {
            file_path: self.file_path.clone(),
            contract_name: self.contract_name.clone(),
            function_name: self.function_name.clone(),
            code_content: self.code_content.clone(),
            referenced_symbols: self.referenced_symbols.clone(),
            kind: self.kind,
            start_line: self.start_line,
            end_line: self.end_line,
        };
        assert(views(copy.referenced_symbols@) =~= views(self.referenced_symbols@));
        copy
    }
}

// ---------------------------------------------------------------- meaning

/// The kinds of syntax nodes that declare a contract, an interface or a library.
pub open spec fn is_contract_kind(kind: Seq<char>) -> bool {
    ||| kind == "contract_declaration"@
    ||| kind == "interface_declaration"@
    ||| kind == "library_declaration"@
}

/// The kind of definition that a syntax node of a contract body holds.
pub open spec fn definition_kind(kind: Seq<char>) -> Option<DefinitionKind> {
    if kind == "function_definition"@ {
        Some(DefinitionKind::Function)
    } else if kind == "constructor_definition"@ {
        Some(DefinitionKind::Constructor)
    } else if kind == "modifier_definition"@ {
        Some(DefinitionKind::Modifier)
    } else if kind == "fallback_receive_definition"@ {
        Some(DefinitionKind::FallbackOrReceive)
    } else {
        None
    }
}

/// The text of the node's `name` field, or a stand-in.
pub open spec fn name_of(nodes: Seq<NodeView>, source: Seq<char>, i: int) -> Seq<char> {
    match field_child(nodes, i, "name"@) {
        Some(n) => node_text_of(nodes, source, n),
        None => "<anonymous>"@,
    }
}

/// Whether a text, after leading white space, starts with `receive`.
pub open spec fn starts_receive(code: Seq<char>) -> bool {
    occurs_at(trim_front(code), "receive"@, 0)
}

/// The name of the definition at node `d`.
pub open spec fn definition_name(
    nodes: Seq<NodeView>,
    source: Seq<char>,
    d: int,
    kind: DefinitionKind,
) -> Seq<char> {
    match kind {
        DefinitionKind::Constructor => "constructor"@,
        DefinitionKind::FallbackOrReceive => if starts_receive(node_text_of(nodes, source, d)) {
            "receive"@
        } else {
            "fallback"@
        },
        _ => name_of(nodes, source, d),
    }
}

/// Node `m` declares a state variable called `name` in the body at node `body`.
pub open spec fn declares_state(
    nodes: Seq<NodeView>,
    source: Seq<char>,
    body: int,
    m: int,
    name: Seq<char>,
) -> bool {
    &&& is_child(nodes, body, m)
    &&& nodes[m].kind == "state_variable_declaration"@
    &&& field_child(nodes, m, "name"@) matches Some(n) && name == node_text_of(nodes, source, n)
}

/// The names of the state variables declared directly in a contract body.
pub open spec fn state_variables(nodes: Seq<NodeView>, source: Seq<char>, body: int) -> Set<
    Seq<char>,
> {
    Set::new(|name: Seq<char>| exists|m: int| declares_state(nodes, source, body, m, name))
}

/// Node `i` refers to `symbol`: it calls it, invokes it as a modifier, or names
/// it as one of the state variables.
pub open spec fn refers_to(
    nodes: Seq<NodeView>,
    source: Seq<char>,
    state: Set<Seq<char>>,
    i: int,
    symbol: Seq<char>,
) -> bool {
    let kind = nodes[i].kind;
    if kind == "call_expression"@ {
        field_child(nodes, i, "function"@) matches Some(f) && symbol == node_text_of(nodes, source, f)
    } else if kind == "modifier_invocation"@ {
        kind_child(nodes, i, "identifier"@) matches Some(n) && symbol == node_text_of(
            nodes,
            source,
            n,
        )
    } else if kind == "identifier"@ {
        symbol == node_text_of(nodes, source, i) && state.contains(symbol)
    } else {
        false
    }
}

/// The symbols that the nodes from `d` up to `end` refer to.
pub open spec fn symbols_between(
    nodes: Seq<NodeView>,
    source: Seq<char>,
    state: Set<Seq<char>>,
    d: int,
    end: int,
) -> Set<Seq<char>> {
    Set::new(
        |symbol: Seq<char>|
            exists|i: int| d <= i < end && #[trigger] refers_to(nodes, source, state, i, symbol),
    )
}

/// The symbols that the definition at node `d` refers to.
pub open spec fn symbols_of(
    nodes: Seq<NodeView>,
    source: Seq<char>,
    state: Set<Seq<char>>,
    d: int,
) -> Set<Seq<char>> {
    symbols_between(nodes, source, state, d, subtree_end(nodes, d))
}

/// `chunk` describes the definition at node `d` in the body at node `body` of
/// the contract at node `c`.
pub open spec fn describes(
    nodes: Seq<NodeView>,
    source: Seq<char>,
    file: Seq<char>,
    place: (int, int, int),
    chunk: FunctionChunkView,
) -> bool {
    let (c, body, d) = place;
    &&& chunk.file_path == file
    &&& chunk.contract_name == name_of(nodes, source, c)
    &&& definition_kind(nodes[d].kind) == Some(chunk.kind)
    &&& chunk.function_name == definition_name(nodes, source, d, chunk.kind)
    &&& chunk.code_content == node_text_of(nodes, source, d)
    &&& ascending::<String>(chunk.referenced_symbols)
    &&& chunk.referenced_symbols.to_set() == symbols_of(
        nodes,
        source,
        state_variables(nodes, source, body),
        d,
    )
    &&& chunk.start_line == nodes[d].start_row + 1
    &&& chunk.end_line == nodes[d].end_row + 1
}

/// The definitions that are children of `body`, from position `from` on.
pub open spec fn members_from(nodes: Seq<NodeView>, c: int, body: int, from: int) -> Seq<
    (int, int, int),
>
    decreases subtree_end(nodes, body) - from,
{
    if from >= subtree_end(nodes, body) {
        Seq::empty()
    } else {
        let rest = members_from(nodes, c, body, from + 1);
        if is_child(nodes, body, from) && definition_kind(nodes[from].kind) is Some {
            seq![(c, body, from)] + rest
        } else {
            rest
        }
    }
}

/// The definitions of the contract at node `c`: those in its body, if it has one.
pub open spec fn contract_definitions(nodes: Seq<NodeView>, c: int) -> Seq<(int, int, int)> {
    match field_child(nodes, c, "body"@) {
        Some(body) => members_from(nodes, c, body, body + 1),
        None => Seq::empty(),
    }
}

/// The definitions of the top-level contracts from position `from` on.
pub open spec fn definitions_from(nodes: Seq<NodeView>, from: int) -> Seq<(int, int, int)>
    decreases subtree_end(nodes, 0) - from,
{
    if from >= subtree_end(nodes, 0) {
        Seq::empty()
    } else {
        let rest = definitions_from(nodes, from + 1);
        if is_child(nodes, 0, from) && is_contract_kind(nodes[from].kind) {
            contract_definitions(nodes, from) + rest
        } else {
            rest
        }
    }
}

/// All function-like definitions of a source in document order: for each its
/// contract, that contract's body and the definition itself.
pub open spec fn definitions(nodes: Seq<NodeView>) -> Seq<(int, int, int)> {
    if nodes.len() == 0 {
        Seq::empty()
    } else {
        definitions_from(nodes, 1)
    }
}

/// A definition is described in one way only, but for the path.
proof fn lemma_described_once(
    nodes: Seq<NodeView>,
    source: Seq<char>,
    files: (Seq<char>, Seq<char>),
    place: (int, int, int),
    a: FunctionChunkView,
    b: FunctionChunkView,
)
    requires
        describes(nodes, source, files.0, place, a),
        describes(nodes, source, files.1, place, b),
    ensures
        b == (FunctionChunkView { file_path: files.1, ..a }),
{
    lemma_ascending_unique::<String>(a.referenced_symbols, b.referenced_symbols);
    assert(b =~= FunctionChunkView { file_path: files.1, ..a });
}

/// The path is only recorded: of one source, under whatever paths, the same chunks
/// are extracted, each with the path in it that was given.
pub proof fn paths_are_only_recorded(
    nodes: Seq<NodeView>,
    source: Seq<char>,
    files: (Seq<char>, Seq<char>),
    a: Seq<FunctionChunk>,
    b: Seq<FunctionChunk>,
)
    requires
        describes_all(nodes, source, files.0, definitions(nodes), a),
        describes_all(nodes, source, files.1, definitions(nodes), b),
    ensures
        a.len() == b.len(),
        forall|i: int|
            0 <= i < a.len() ==> (#[trigger] viewed(a)[i]).file_path == files.0 && viewed(b)[i] == (
            FunctionChunkView { file_path: files.1, ..viewed(a)[i] }),
{
    let places = definitions(nodes);
    assert forall|i: int| 0 <= i < a.len() implies (#[trigger] viewed(a)[i]).file_path == files.0
        && viewed(b)[i] == (FunctionChunkView { file_path: files.1, ..viewed(a)[i] }) by {
        assert(viewed(a)[i] == a[i]@);
        assert(viewed(b)[i] == b[i]@);
        lemma_described_once(nodes, source, files, places[i], a[i]@, b[i]@);
    }
}

/// Parsing is repeatable: what is extracted depends on the source and the path
/// alone.
pub proof fn parsing_is_repeatable(
    nodes: Seq<NodeView>,
    source: Seq<char>,
    file: Seq<char>,
    a: Seq<FunctionChunk>,
    b: Seq<FunctionChunk>,
)
    requires
        describes_all(nodes, source, file, definitions(nodes), a),
        describes_all(nodes, source, file, definitions(nodes), b),
    ensures
        viewed(a) == viewed(b),
{
    paths_are_only_recorded(nodes, source, (file, file), a, b);
    assert(viewed(a) =~= viewed(b));
}

/// A code stands in a source between two byte offsets, and these are the lines of the
/// offsets, counted from one.
pub open spec fn stands_between(
    source: Seq<char>,
    code: Seq<char>,
    start: int,
    end: int,
    start_line: usize,
    end_line: usize,
) -> bool {
    let bytes = encode_utf8(source);
    &&& 0 <= start <= end <= bytes.len()
    &&& encode_utf8(code) == bytes.subrange(start, end)
    &&& start_line == line_feeds(bytes, start) + 1
    &&& end_line == line_feeds(bytes, end) + 1
}

/// The code of every chunk is a piece of the source, which starts and ends on the
/// lines that the chunk names.
pub proof fn code_stands_on_its_lines(
    nodes: Seq<NodeView>,
    source: Seq<char>,
    file: Seq<char>,
    chunks: Seq<FunctionChunk>,
    i: int,
)
    requires
        tree_fits(nodes, source),
        rows_fit(nodes, source),
        describes_all(nodes, source, file, definitions(nodes), chunks),
        0 <= i < chunks.len(),
    ensures
        contains_text(source, chunks[i]@.code_content),
        exists|start: int, end: int| #[trigger]
            stands_between(
                source,
                chunks[i]@.code_content,
                start,
                end,
                chunks[i]@.start_line,
                chunks[i]@.end_line,
            ),
{
    let place = definitions(nodes)[i];
    let d = place.2;
    let chunk = chunks[i]@;
    assert(describes(nodes, source, file, place, chunk));
    lemma_definitions_are_nodes(nodes, i);
    assert(node_fits(nodes[d], source));
    let start = nodes[d].start_byte as int;
    let end = nodes[d].end_byte as int;
    lemma_source_slice(source, start, end);
    assert(stands_between(source, chunk.code_content, start, end, chunk.start_line, chunk.end_line));
}

/// Definitions are nodes of the tree.
proof fn lemma_definitions_are_nodes(nodes: Seq<NodeView>, i: int)
    requires
        0 <= i < definitions(nodes).len(),
    ensures
        0 <= definitions(nodes)[i].2 < nodes.len(),
{
    lemma_definitions_from(nodes, 1, i);
}

proof fn lemma_definitions_from(nodes: Seq<NodeView>, from: int, i: int)
    requires
        nodes.len() > 0,
        0 < from,
        0 <= i < definitions_from(nodes, from).len(),
    ensures
        0 <= definitions_from(nodes, from)[i].2 < nodes.len(),
    decreases subtree_end(nodes, 0) - from,
{
    let rest = definitions_from(nodes, from + 1);
    lemma_end_bounds(nodes, 0, 1);
    if is_child(nodes, 0, from) && is_contract_kind(nodes[from].kind) {
        let here = contract_definitions(nodes, from);
        if i < here.len() {
            lemma_child_from(nodes, from, from + 1, |n: NodeView| n.field == Some("body"@));
            let body = field_child(nodes, from, "body"@)->0;
            lemma_members_from(nodes, from, body, body + 1, i);
        } else {
            lemma_definitions_from(nodes, from + 1, i - here.len());
        }
    } else {
        lemma_definitions_from(nodes, from + 1, i);
    }
}

proof fn lemma_members_from(nodes: Seq<NodeView>, c: int, body: int, from: int, i: int)
    requires
        0 <= body < nodes.len(),
        body < from,
        0 <= i < members_from(nodes, c, body, from).len(),
    ensures
        0 <= members_from(nodes, c, body, from)[i].2 < nodes.len(),
    decreases subtree_end(nodes, body) - from,
{
    lemma_end_bounds(nodes, body, body + 1);
    if is_child(nodes, body, from) && definition_kind(nodes[from].kind) is Some {
        if i > 0 {
            lemma_members_from(nodes, c, body, from + 1, i - 1);
        }
    } else {
        lemma_members_from(nodes, c, body, from + 1, i);
    }
}

/// `chunks` describes the definitions at `places`, one for one.
pub open spec fn describes_all(
    nodes: Seq<NodeView>,
    source: Seq<char>,
    file: Seq<char>,
    places: Seq<(int, int, int)>,
    chunks: Seq<FunctionChunk>,
) -> bool {
    &&& chunks.len() == places.len()
    &&& forall|i: int|
        0 <= i < places.len() ==> describes(
            nodes,
            source,
            file,
            places[i],
            #[trigger] chunks[i]@,
        )
}

// ---------------------------------------------------------------- extraction

/// Whether a text, after leading white space, starts with `receive`.
fn code_starts_receive(code: &str) -> (found: bool)
    ensures
        found == starts_receive(code@),
{
    let chars = chars_of(code);
    let word = chars_of("receive");
    let mut from: usize = 0;
    assert(chars@.skip(0) =~= chars@);
    while from < chars.len() && char_is_space(chars[from])
        invariant
            from <= chars.len(),
            chars@ == code@,
            trim_front(code@) == trim_front(chars@.skip(from as int)),
        decreases chars.len() - from,
    {
        assert(chars@.skip(from as int).drop_first() =~= chars@.skip(from + 1));
        from += 1;
    }
    let ghost rest = chars@.skip(from as int);
    assert(trim_front(code@) == rest);
    if chars.len() - from < word.len() {
        return false;
    }
    let mut i: usize = 0;
    while i < word.len()
        invariant
            i <= word.len() <= chars.len() - from,
            from <= chars.len(),
            rest == chars@.skip(from as int),
            trim_front(code@) == rest,
            word@ == "receive"@,
            forall|k: int| 0 <= k < i ==> rest[k] == word@[k],
        decreases word.len() - i,
    {
        if chars[from + i] != word[i] {
            assert(rest.subrange(0, word@.len() as int)[i as int] != word@[i as int]);
            return false;
        }
        i += 1;
    }
    assert(rest.subrange(0, word@.len() as int) =~= word@);
    true
}

/// The name of a fallback or receive definition, recovered from its keyword.
pub fn fallback_or_receive_name(code: &str) -> (name: String)
    ensures
        name@ == (if starts_receive(code@) {
            "receive"@
        } else {
            "fallback"@
        }),
{
    if code_starts_receive(code) {
        "receive".to_owned()
    } else {
        "fallback".to_owned()
    }
}

/// Whether a syntax node declares a contract, an interface or a library.
pub fn match_node(kind: &str) -> (found: bool)
    ensures
        found == is_contract_kind(kind@),
{
    same_text(kind, "contract_declaration") || same_text(kind, "interface_declaration")
        || same_text(kind, "library_declaration")
}

/// The kind of definition that a syntax node of a contract body holds.
fn definition_kind_of(kind: &str) -> (found: Option<DefinitionKind>)
    ensures
        found == definition_kind(kind@),
{
    if same_text(kind, "function_definition") {
        Some(DefinitionKind::Function)
    } else if same_text(kind, "constructor_definition") {
        Some(DefinitionKind::Constructor)
    } else if same_text(kind, "modifier_definition") {
        Some(DefinitionKind::Modifier)
    } else if same_text(kind, "fallback_receive_definition") {
        Some(DefinitionKind::FallbackOrReceive)
    } else {
        None
    }
}

/// The text of node `i`.
fn text_of(nodes: &Vec<SyntaxNode>, source: &str, i: usize) -> (text: String)
    requires
        i < nodes.len(),
        tree_fits(node_views(nodes@), source@),
    ensures
        text@ == node_text_of(node_views(nodes@), source@, i as int),
{
    let ghost all = node_views(nodes@);
    assert(all[i as int] == nodes@[i as int]@);
    assert(node_fits(all[i as int], source@));
    node_text(&nodes[i], source).to_owned()
}

/// The text of the node's `name` field, or a stand-in.
fn name_at(nodes: &Vec<SyntaxNode>, source: &str, i: usize) -> (name: String)
    requires
        i < nodes.len(),
        tree_fits(node_views(nodes@), source@),
    ensures
        name@ == name_of(node_views(nodes@), source@, i as int),
{
    match find_field(nodes, i, "name") {
        Some(n) => text_of(nodes, source, n),
        None => "<anonymous>".to_owned(),
    }
}

/// Names of all state variables declared directly in the contract body.
pub fn collect_state_variable_names(nodes: &Vec<SyntaxNode>, source: &str, body: usize) -> (names:
    OrderedSet<String>)
    requires
        body < nodes.len(),
        tree_fits(node_views(nodes@), source@),
    ensures
        names.wf(),
        names@ == state_variables(node_views(nodes@), source@, body as int),
{
    let ghost all = node_views(nodes@);
    let mut names: OrderedSet<String> = OrderedSet::new();
    let end = find_end(nodes, body);
    let mut m: usize = body + 1;
    while m < end
        invariant
            all == node_views(nodes@),
            tree_fits(all, source@),
            names.wf(),
            body < m <= end <= nodes.len(),
            end == subtree_end(all, body as int),
            forall|name: Seq<char>|
                #[trigger] names@.contains(name) <==> exists|k: int|
                    k < m && declares_state(all, source@, body as int, k, name),
        decreases end - m,
    {
        let ghost before = names@;
        assert(all[m as int] == nodes@[m as int]@);
        let ghost mut added: Option<Seq<char>> = None;
        if is_child_node(nodes, body, m) && same_text(
            nodes[m].kind.as_str(),
            "state_variable_declaration",
        ) {
            if let Some(n) = find_field(nodes, m, "name") {
                let name = text_of(nodes, source, n);
                proof {
                    added = Some(name@);
                }
                names.insert(name);
            }
        }
        assert forall|name: Seq<char>| #[trigger] names@.contains(name) <==> exists|k: int|
            k < m + 1 && declares_state(all, source@, body as int, k, name) by {
            assert(declares_state(all, source@, body as int, m as int, name) <==> added == Some(
                name,
            ));
            if before.contains(name) {
                let k = choose|k: int| k < m && declares_state(all, source@, body as int, k, name);
                assert(k < m + 1 && declares_state(all, source@, body as int, k, name));
            }
        }
        m += 1;
    }
    assert(names@ =~= state_variables(all, source@, body as int)) by {
        assert forall|name: Seq<char>| state_variables(all, source@, body as int).contains(
            name,
        ) implies names@.contains(name) by {
            let k = choose|k: int| declares_state(all, source@, body as int, k, name);
            assert(k < end);
        }
    }
    names
}

/// The symbol that node `i` refers to.
fn symbol_at(
    nodes: &Vec<SyntaxNode>,
    source: &str,
    state: &OrderedSet<String>,
    i: usize,
) -> (symbol: Option<String>)
    requires
        i < nodes.len(),
        tree_fits(node_views(nodes@), source@),
        state.wf(),
    ensures
        forall|s: Seq<char>|
            #[trigger] refers_to(node_views(nodes@), source@, state@, i as int, s) <==> (
            symbol matches Some(found) && found@ == s),
{
    let ghost all = node_views(nodes@);
    assert(all[i as int] == nodes@[i as int]@);
    let kind = nodes[i].kind.as_str();
    if same_text(kind, "call_expression") {
        match find_field(nodes, i, "function") {
            Some(f) => Some(text_of(nodes, source, f)),
            None => None,
        }
    } else if same_text(kind, "modifier_invocation") {
        match find_kind(nodes, i, "identifier") {
            Some(n) => Some(text_of(nodes, source, n)),
            None => None,
        }
    } else if same_text(kind, "identifier") {
        let text = text_of(nodes, source, i);
        if state.contains(&text) {
            Some(text)
        } else {
            None
        }
    } else {
        None
    }
}

/// The symbols that the definition at node `d` refers to: the callee of every
/// call, the modifiers it invokes and every identifier that names a state
/// variable of its contract.
pub fn collect_referenced_symbols(
    nodes: &Vec<SyntaxNode>,
    source: &str,
    state: &OrderedSet<String>,
    d: usize,
) -> (symbols: Vec<String>)
    requires
        d < nodes.len(),
        tree_fits(node_views(nodes@), source@),
        state.wf(),
    ensures
        ascending::<String>(views(symbols@)),
        views(symbols@).to_set() == symbols_of(node_views(nodes@), source@, state@, d as int),
{
    let ghost all = node_views(nodes@);
    let mut symbols: OrderedSet<String> = OrderedSet::new();
    let end = find_end(nodes, d);
    assert(symbols@ =~= symbols_between(all, source@, state@, d as int, d as int));
    let mut i: usize = d;
    while i < end
        invariant
            all == node_views(nodes@),
            tree_fits(all, source@),
            state.wf(),
            symbols.wf(),
            d <= i <= end <= nodes.len(),
            symbols@ == symbols_between(all, source@, state@, d as int, i as int),
        decreases end - i,
    {
        let ghost before = symbols@;
        let found = symbol_at(nodes, source, state, i);
        if let Some(symbol) = found {
            symbols.insert(symbol);
        }
        assert(symbols@ =~= symbols_between(all, source@, state@, d as int, i + 1)) by {
            assert forall|s: Seq<char>| symbols@.contains(s) implies #[trigger] symbols_between(
                all,
                source@,
                state@,
                d as int,
                i + 1,
            ).contains(s) by {
                if before.contains(s) {
                    let k = choose|k: int|
                        d <= k < i && #[trigger] refers_to(all, source@, state@, k, s);
                    assert(refers_to(all, source@, state@, k, s));
                } else {
                    assert(refers_to(all, source@, state@, i as int, s));
                }
            }
        }
        i += 1;
    }
    let listed = symbols.into_vec();
    assert(viewed(listed@) =~= views(listed@));
    listed
}

/// The chunk for the definition at node `d`.
fn chunk_at(
    nodes: &Vec<SyntaxNode>,
    source: &str,
    file_path: &str,
    contract_name: &String,
    state: &OrderedSet<String>,
    d: usize,
    kind: DefinitionKind,
    place: Ghost<(int, int)>,
) -> (chunk: FunctionChunk)
    requires
        d < nodes.len(),
        tree_fits(node_views(nodes@), source@),
        state.wf(),
        contract_name@ == name_of(node_views(nodes@), source@, place@.0),
        state@ == state_variables(node_views(nodes@), source@, place@.1),
        definition_kind(node_views(nodes@)[d as int].kind) == Some(kind),
    ensures
        describes(
            node_views(nodes@),
            source@,
            file_path@,
            (place@.0, place@.1, d as int),
            chunk@,
        ),
{
    let ghost all = node_views(nodes@);
    assert(all[d as int] == nodes@[d as int]@);
    assert(node_fits(all[d as int], source@));
    let code = text_of(nodes, source, d);
    let function_name = match kind {
        DefinitionKind::Constructor => "constructor".to_owned(),
        DefinitionKind::FallbackOrReceive => fallback_or_receive_name(code.as_str()),
        _ => name_at(nodes, source, d),
    };
    FunctionChunk {
        file_path: file_path.to_owned(),
        contract_name: contract_name.clone(),
        function_name,
        code_content: code,
        referenced_symbols: collect_referenced_symbols(nodes, source, state, d),
        kind,
        start_line: nodes[d].start_row + 1,
        end_line: nodes[d].end_row + 1,
    }
}

/// Appends the chunks of the contract at node `c`.
pub fn extract_chunks(
    nodes: &Vec<SyntaxNode>,
    source: &str,
    c: usize,
    file_path: &str,
    out: &mut Vec<FunctionChunk>,
)
    requires
        c < nodes.len(),
        tree_fits(node_views(nodes@), source@),
    ensures
        final(out)@.len() >= old(out)@.len(),
        final(out)@.take(old(out)@.len() as int) == old(out)@,
        describes_all(
            node_views(nodes@),
            source@,
            file_path@,
            contract_definitions(node_views(nodes@), c as int),
            final(out)@.skip(old(out)@.len() as int),
        ),
{
    let ghost all = node_views(nodes@);
    let ghost start = out@;
    let body = match find_field(nodes, c, "body") {
        Some(body) => body,
        None => {
            assert(out@.take(start.len() as int) =~= start);
            return ;
        },
    };
    let contract_name = name_at(nodes, source, c);
    // State variable names come first, so that each definition's symbols can
    // tell state reads and writes apart from locals.
    let state = collect_state_variable_names(nodes, source, body);
    let end = find_end(nodes, body);
    let ghost places = members_from(all, c as int, body as int, body + 1);
    let ghost mut done: Seq<(int, int, int)> = Seq::empty();
    assert(done + places =~= places);
    assert(out@.take(start.len() as int) =~= start);
    let mut d: usize = body + 1;
    while d < end
        invariant
            all == node_views(nodes@),
            tree_fits(all, source@),
            c < nodes.len(),
            contract_name@ == name_of(all, source@, c as int),
            state.wf(),
            state@ == state_variables(all, source@, body as int),
            body < d <= end <= nodes.len(),
            end == subtree_end(all, body as int),
            places == members_from(all, c as int, body as int, body + 1),
            places == done + members_from(all, c as int, body as int, d as int),
            out@.len() >= start.len(),
            out@.take(start.len() as int) == start,
            describes_all(all, source@, file_path@, done, out@.skip(start.len() as int)),
        decreases end - d,
    {
        assert(all[d as int] == nodes@[d as int]@);
        if is_child_node(nodes, body, d) {
            if let Some(kind) = definition_kind_of(nodes[d].kind.as_str()) {
                let ghost sofar = out@;
                let ghost place = (c as int, body as int);
                let chunk = chunk_at(
                    nodes,
                    source,
                    file_path,
                    &contract_name,
                    &state,
                    d,
                    kind,
                    Ghost(place),
                );
                out.push(chunk);
                proof {
                    let here = (c as int, body as int, d as int);
                    let rest = members_from(all, c as int, body as int, d + 1);
                    assert(done + (seq![here] + rest) =~= done.push(here) + rest);
                    assert(out@.skip(start.len() as int) =~= sofar.skip(start.len() as int).push(
                        chunk,
                    ));
                    assert(out@.take(start.len() as int) =~= sofar.take(start.len() as int));
                    done = done.push(here);
                }
            }
        }
        d += 1;
    }
    assert(places =~= done);
}

/// The chunks of all function-like definitions in a syntax tree, in document
/// order.
pub fn extract_all(nodes: &Vec<SyntaxNode>, source: &str, file_path: &str) -> (chunks: Vec<
    FunctionChunk,
>)
    requires
        tree_fits(node_views(nodes@), source@),
    ensures
        describes_all(
            node_views(nodes@),
            source@,
            file_path@,
            definitions(node_views(nodes@)),
            chunks@,
        ),
{
    let ghost all = node_views(nodes@);
    let mut chunks: Vec<FunctionChunk> = Vec::new();
    if nodes.len() == 0 {
        return chunks;
    }
    let end = find_end(nodes, 0);
    let ghost places = definitions(all);
    let ghost mut done: Seq<(int, int, int)> = Seq::empty();
    assert(done + places =~= places);
    let mut c: usize = 1;
    while c < end
        invariant
            all == node_views(nodes@),
            tree_fits(all, source@),
            0 < c <= end <= nodes.len(),
            end == subtree_end(all, 0),
            places == definitions(all),
            places == done + definitions_from(all, c as int),
            describes_all(all, source@, file_path@, done, chunks@),
        decreases end - c,
    {
        assert(all[c as int] == nodes@[c as int]@);
        if is_child_node(nodes, 0, c) && match_node(nodes[c].kind.as_str()) {
            let ghost sofar = chunks@;
            let ghost here = contract_definitions(all, c as int);
            extract_chunks(nodes, source, c, file_path, &mut chunks);
            proof {
                let rest = definitions_from(all, c + 1);
                let added = chunks@.skip(sofar.len() as int);
                assert(done + (here + rest) =~= (done + here) + rest);
                assert forall|i: int| 0 <= i < (done + here).len() implies describes(
                    all,
                    source@,
                    file_path@,
                    (done + here)[i],
                    #[trigger] chunks@[i]@,
                ) by {
                    if i < sofar.len() {
                        assert(chunks@.take(sofar.len() as int)[i] == chunks@[i]);
                        assert(sofar[i] == chunks@[i]);
                    } else {
                        assert(added[i - sofar.len()] == chunks@[i]);
                    }
                }
                done = done + here;
            }
        }
        c += 1;
    }
    assert(places =~= done);
    chunks
}

// ---------------------------------------------------------------- the parser

/// A `tree-sitter` parser with the Solidity grammar.
pub struct SolidityParser {
    parser: tree_sitter::Parser,
}

impl SolidityParser {
    /// The Solidity grammar is loaded, and nothing else is set.
    pub closed spec fn wf(&self) -> bool {
        parses_solidity(self.parser)
    }

    /// A parser with the Solidity grammar.
    pub fn new() -> (parser: Result<Self, ParserError>)
        ensures
            parser is Ok,
            (parser->Ok_0).wf(),
    {
        let mut parser = new_parser();
        match load_solidity(&mut parser) {
            Ok(()) => Ok(SolidityParser { parser }),
            Err(error) => Err(ParserError::Language(error)),
        }
    }

    /// The chunks of an in-memory Solidity source. `file_path` is only recorded
    /// in the chunks.
    pub fn parse_source(&mut self, source: &str, file_path: &str) -> (chunks: Result<
        Vec<FunctionChunk>,
        ParserError,
    >)
        requires
            old(self).wf(),
            source.spec_bytes().len() <= u32::MAX,
        ensures
            final(self).wf(),
            match chunks {
                Ok(found) => {
                    &&& tree_fits(solidity_nodes(source@), source@)
                    &&& rows_fit(solidity_nodes(source@), source@)
                    &&& describes_all(
                        solidity_nodes(source@),
                        source@,
                        file_path@,
                        definitions(solidity_nodes(source@)),
                        found@,
                    )
                },
                Err(error) => {
                    &&& !(tree_fits(solidity_nodes(source@), source@) && rows_fit(
                        solidity_nodes(source@),
                        source@,
                    ))
                    &&& error matches ParserError::MalformedTree(path) && path@ == file_path@
                },
            },
    {
        match parse_text(&mut self.parser, source) {
            Some(tree) => {
                let nodes = flatten(&tree);
                if check_tree(&nodes, source) && check_rows(&nodes, source) {
                    Ok(extract_all(&nodes, source, file_path))
                } else {
                    Err(ParserError::MalformedTree(file_path.to_owned()))
                }
            },
            None => Err(ParserError::ParseFailed(file_path.to_owned())),
        }
    }
}

} // verus!
