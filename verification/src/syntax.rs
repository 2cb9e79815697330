//! Solidity syntax trees, flattened: the nodes that `tree-sitter` finds, in
//! document order, each with its depth, and the navigation over them.
use vstd::prelude::*;
use vstd::string::*;
use vstd::utf8::*;

use crate::text::{contains_text, occurs_at, same_text};

verus! {

// ---------------------------------------------------------------- tree-sitter

/// A parser: `tree_sitter::Parser`.
#[verifier::external_type_specification]
#[verifier::external_body]
pub struct ExParser(tree_sitter::Parser);

/// A syntax tree: `tree_sitter::Tree`.
#[verifier::external_type_specification]
#[verifier::external_body]
pub struct ExTree(tree_sitter::Tree);

/// Why a grammar was refused: `tree_sitter::LanguageError`.
#[verifier::external_type_specification]
#[verifier::external_body]
pub struct ExLanguageError(tree_sitter::LanguageError);

/// One node of a syntax tree.
pub struct SyntaxNode {
    /// The node's type in the grammar.
    pub kind: String,
    /// The field of the parent that the node stands in.
    pub field: Option<String>,
    /// How many nodes enclose this one.
    pub depth: usize,
    /// The byte offset of its first byte in the source.
    pub start_byte: usize,
    /// The byte offset behind its last byte.
    pub end_byte: usize,
    /// The zero-based line on which it starts.
    pub start_row: usize,
    /// The zero-based line on which it ends.
    pub end_row: usize,
}

/// What a [`SyntaxNode`] says.
#[verifier::ext_equal]
pub struct NodeView {
    pub kind: Seq<char>,
    pub field: Option<Seq<char>>,
    pub depth: usize,
    pub start_byte: usize,
    pub end_byte: usize,
    pub start_row: usize,
    pub end_row: usize,
}

impl View for SyntaxNode {
    type V = NodeView;

    open spec fn view(&self) -> NodeView {
        NodeView {
            kind: self.kind@,
            field: match self.field {
                Some(f) => Some(f@),
                None => None,
            },
            depth: self.depth,
            start_byte: self.start_byte,
            end_byte: self.end_byte,
            start_row: self.start_row,
            end_row: self.end_row,
        }
    }
}

/// Whether a parser is as `Parser::new` gives it: it has no grammar, no included
/// ranges, and no parse begun.
pub uninterp spec fn is_unconfigured(parser: tree_sitter::Parser) -> bool;

/// Whether a parser has the Solidity grammar, no included ranges, and no parse
/// begun.
pub uninterp spec fn parses_solidity(parser: tree_sitter::Parser) -> bool;

/// The nodes of a tree in document order: the root first, then its descendants,
/// each before its own descendants.
pub uninterp spec fn tree_nodes(tree: tree_sitter::Tree) -> Seq<NodeView>;

/// The nodes of the tree that `tree-sitter` builds for a Solidity source.
pub uninterp spec fn solidity_nodes(source: Seq<char>) -> Seq<NodeView>;

/// `Parser::new`: a parser on which nothing was set.
#[verifier::external_body]
pub(crate) fn new_parser() -> (parser: tree_sitter::Parser)
    ensures
        is_unconfigured(parser),
{
    tree_sitter::Parser::new()
}

/// `Parser::set_language` with the grammar of `tree_sitter_solidity`. It refuses
/// a grammar whose ABI version is outside the range that the parser accepts;
/// this grammar has version fifteen, which is inside it. So a parser on which nothing
/// was set has the Solidity grammar afterwards, and nothing else.
#[verifier::external_body]
pub(crate) fn load_solidity(parser: &mut tree_sitter::Parser) -> (loaded: Result<
    (),
    tree_sitter::LanguageError,
>)
    requires
        is_unconfigured(*old(parser)),
    ensures
        loaded is Ok,
        parses_solidity(*final(parser)),
{
    parser.set_language(&tree_sitter_solidity::LANGUAGE.into())
}

/// `Parser::parse` on a whole text, without an earlier tree. It gives a tree unless
/// no grammar was loaded. With no included ranges and no parse begun, which tree
/// depends on the grammar and the text alone, and the parser is left ready for the
/// next text. Offsets are kept in 32 bits, so longer texts are left out.
#[verifier::external_body]
pub(crate) fn parse_text(parser: &mut tree_sitter::Parser, source: &str) -> (tree: Option<
    tree_sitter::Tree,
>)
    requires
        parses_solidity(*old(parser)),
        source.spec_bytes().len() <= u32::MAX,
    ensures
        parses_solidity(*final(parser)),
        tree is Some,
        tree_nodes(tree->0) == solidity_nodes(source@),
{
    parser.parse(source, None)
}

/// `Node::descendant_count` of the root: the number of nodes of a tree, the root
/// among them.
#[verifier::external_body]
pub(crate) fn count_nodes(tree: &tree_sitter::Tree) -> (count: usize)
    ensures
        count == tree_nodes(*tree).len(),
{
    tree.root_node().descendant_count()
}

/// `TreeCursor::goto_descendant`, which moves a cursor to the n-th node of a
/// tree, the root being node zero, and what the cursor and its node then say of
/// themselves.
#[verifier::external_body]
pub(crate) fn node_at(tree: &tree_sitter::Tree, index: usize) -> (node: SyntaxNode)
    requires
        index < tree_nodes(*tree).len(),
    ensures
        node@ == tree_nodes(*tree)[index as int],
{
    let mut cursor = tree.walk();
    cursor.goto_descendant(index);
    let node = cursor.node();
    SyntaxNode {
        kind: node.kind().to_owned(),
        field: cursor.field_name().map(str::to_owned),
        depth: cursor.depth() as usize,
        start_byte: node.start_byte(),
        end_byte: node.end_byte(),
        start_row: node.start_position().row,
        end_row: node.end_position().row,
    }
}

/// What the nodes of a list say.
pub open spec fn node_views(nodes: Seq<SyntaxNode>) -> Seq<NodeView> {
    nodes.map_values(|n: SyntaxNode| n@)
}

/// The nodes of a tree in document order.
pub fn flatten(tree: &tree_sitter::Tree) -> (nodes: Vec<SyntaxNode>)
    ensures
        node_views(nodes@) == tree_nodes(*tree),
{
    let count = count_nodes(tree);
    let mut nodes: Vec<SyntaxNode> = Vec::new();
    let mut i: usize = 0;
    while i < count
        invariant
            i <= count,
            count == tree_nodes(*tree).len(),
            node_views(nodes@) == tree_nodes(*tree).take(i as int),
        decreases count - i,
    {
        let ghost done = nodes@;
        let node = node_at(tree, i);
        let ghost said = node@;
        nodes.push(node);
        assert(node_views(nodes@) =~= node_views(done).push(said));
        assert(node_views(nodes@) =~= tree_nodes(*tree).take(i + 1));
        i += 1;
    }
    assert(tree_nodes(*tree).take(i as int) =~= tree_nodes(*tree));
    nodes
}

// ---------------------------------------------------------------- navigation

/// The position behind the last descendant of node `i`, looking from `from` on.
pub open spec fn end_from(nodes: Seq<NodeView>, i: int, from: int) -> int
    decreases nodes.len() - from,
{
    if from >= nodes.len() || nodes[from].depth <= nodes[i].depth {
        from
    } else {
        end_from(nodes, i, from + 1)
    }
}

/// The position behind the last descendant of node `i`.
pub open spec fn subtree_end(nodes: Seq<NodeView>, i: int) -> int {
    end_from(nodes, i, i + 1)
}

/// Node `c` is a child of node `parent`.
pub open spec fn is_child(nodes: Seq<NodeView>, parent: int, c: int) -> bool {
    &&& parent < c < subtree_end(nodes, parent)
    &&& nodes[c].depth == nodes[parent].depth + 1
}

/// The first child of node `parent`, from position `from` on, that is wanted.
pub open spec fn child_from(
    nodes: Seq<NodeView>,
    parent: int,
    from: int,
    wanted: spec_fn(NodeView) -> bool,
) -> Option<int>
    decreases subtree_end(nodes, parent) - from,
{
    if from >= subtree_end(nodes, parent) {
        None
    } else if is_child(nodes, parent, from) && wanted(nodes[from]) {
        Some(from)
    } else {
        child_from(nodes, parent, from + 1, wanted)
    }
}

/// The first child of node `parent` that stands in the named field.
pub open spec fn field_child(nodes: Seq<NodeView>, parent: int, field: Seq<char>) -> Option<int> {
    child_from(nodes, parent, parent + 1, |n: NodeView| n.field == Some(field))
}

/// The first child of node `parent` of the given kind.
pub open spec fn kind_child(nodes: Seq<NodeView>, parent: int, kind: Seq<char>) -> Option<int> {
    child_from(nodes, parent, parent + 1, |n: NodeView| n.kind == kind)
}

/// A subtree ends behind its root and within the list.
pub proof fn lemma_end_bounds(nodes: Seq<NodeView>, i: int, from: int)
    requires
        from <= nodes.len(),
    ensures
        from <= end_from(nodes, i, from) <= nodes.len(),
    decreases nodes.len() - from,
{
    if from < nodes.len() && nodes[from].depth > nodes[i].depth {
        lemma_end_bounds(nodes, i, from + 1);
    }
}

/// A child that was found is a child and is wanted.
pub proof fn lemma_child_from(
    nodes: Seq<NodeView>,
    parent: int,
    from: int,
    wanted: spec_fn(NodeView) -> bool,
)
    requires
        0 <= parent < from,
        parent < nodes.len(),
    ensures
        child_from(nodes, parent, from, wanted) matches Some(c) ==> {
            &&& from <= c < nodes.len()
            &&& is_child(nodes, parent, c)
            &&& wanted(nodes[c])
        },
    decreases subtree_end(nodes, parent) - from,
{
    lemma_end_bounds(nodes, parent, parent + 1);
    if from < subtree_end(nodes, parent) && !(is_child(nodes, parent, from) && wanted(nodes[from])) {
        lemma_child_from(nodes, parent, from + 1, wanted);
    }
}

/// The position behind the last descendant of node `i`.
pub fn find_end(nodes: &Vec<SyntaxNode>, i: usize) -> (end: usize)
    requires
        i < nodes.len(),
    ensures
        end == subtree_end(node_views(nodes@), i as int),
        i < end <= nodes.len(),
{
    let ghost views = node_views(nodes@);
    let mut end: usize = i + 1;
    while end < nodes.len() && nodes[end].depth > nodes[i].depth
        invariant
            views == node_views(nodes@),
            i < end <= nodes.len(),
            subtree_end(views, i as int) == end_from(views, i as int, end as int),
        decreases nodes.len() - end,
    {
        assert(views[end as int] == nodes@[end as int]@);
        assert(views[i as int] == nodes@[i as int]@);
        end += 1;
    }
    proof {
        if end < nodes.len() {
            assert(views[end as int] == nodes@[end as int]@);
            assert(views[i as int] == nodes@[i as int]@);
        }
    }
    end
}

/// Whether a node stands in the named field.
fn stands_in(node: &SyntaxNode, field: &str) -> (found: bool)
    ensures
        found == (node@.field == Some(field@)),
{
    match &node.field {
        Some(f) => same_text(f.as_str(), field),
        None => false,
    }
}

/// The first child of node `parent` that stands in the named field.
pub fn find_field(nodes: &Vec<SyntaxNode>, parent: usize, field: &str) -> (child: Option<usize>)
    requires
        parent < nodes.len(),
    ensures
        match child {
            Some(c) => c < nodes.len() && field_child(node_views(nodes@), parent as int, field@)
                == Some(c as int),
            None => field_child(node_views(nodes@), parent as int, field@) is None,
        },
{
    let end = find_end(nodes, parent);
    let ghost views = node_views(nodes@);
    let ghost wanted = |n: NodeView| n.field == Some(field@);
    let mut i: usize = parent + 1;
    while i < end
        invariant
            views == node_views(nodes@),
            wanted == (|n: NodeView| n.field == Some(field@)),
            parent < i <= end <= nodes.len(),
            end == subtree_end(views, parent as int),
            field_child(views, parent as int, field@) == child_from(
                views,
                parent as int,
                i as int,
                wanted,
            ),
        decreases end - i,
    {
        assert(views[i as int] == nodes@[i as int]@);
        assert(views[parent as int] == nodes@[parent as int]@);
        if nodes[i].depth > nodes[parent].depth && nodes[i].depth - nodes[parent].depth == 1
            && stands_in(&nodes[i], field) {
            return Some(i);
        }
        i += 1;
    }
    None
}

/// The first child of node `parent` of the given kind.
pub fn find_kind(nodes: &Vec<SyntaxNode>, parent: usize, kind: &str) -> (child: Option<usize>)
    requires
        parent < nodes.len(),
    ensures
        match child {
            Some(c) => c < nodes.len() && kind_child(node_views(nodes@), parent as int, kind@)
                == Some(c as int),
            None => kind_child(node_views(nodes@), parent as int, kind@) is None,
        },
{
    let end = find_end(nodes, parent);
    let ghost views = node_views(nodes@);
    let ghost wanted = |n: NodeView| n.kind == kind@;
    let mut i: usize = parent + 1;
    while i < end
        invariant
            views == node_views(nodes@),
            wanted == (|n: NodeView| n.kind == kind@),
            parent < i <= end <= nodes.len(),
            end == subtree_end(views, parent as int),
            kind_child(views, parent as int, kind@) == child_from(
                views,
                parent as int,
                i as int,
                wanted,
            ),
        decreases end - i,
    {
        assert(views[i as int] == nodes@[i as int]@);
        assert(views[parent as int] == nodes@[parent as int]@);
        if nodes[i].depth > nodes[parent].depth && nodes[i].depth - nodes[parent].depth == 1
            && same_text(nodes[i].kind.as_str(), kind) {
            return Some(i);
        }
        i += 1;
    }
    None
}

/// Whether node `c`, a descendant of node `parent`, is one of its children.
pub fn is_child_node(nodes: &Vec<SyntaxNode>, parent: usize, c: usize) -> (child: bool)
    requires
        parent < c < subtree_end(node_views(nodes@), parent as int),
        c < nodes.len(),
    ensures
        child == is_child(node_views(nodes@), parent as int, c as int),
{
    let ghost views = node_views(nodes@);
    assert(views[c as int] == nodes@[c as int]@);
    assert(views[parent as int] == nodes@[parent as int]@);
    nodes[c].depth > nodes[parent].depth && nodes[c].depth - nodes[parent].depth == 1
}

// ---------------------------------------------------------------- source text

/// The text between two byte offsets of a source.
pub open spec fn source_slice(source: Seq<char>, start: int, end: int) -> Seq<char> {
    decode_utf8(encode_utf8(source).subrange(start, end))
}

/// Node `n` covers a stretch of the source that starts and ends between
/// characters, and its line numbers can be counted from one.
pub open spec fn node_fits(n: NodeView, source: Seq<char>) -> bool {
    &&& n.start_byte <= n.end_byte <= encode_utf8(source).len()
    &&& is_char_boundary(encode_utf8(source), n.start_byte as int)
    &&& is_char_boundary(encode_utf8(source), n.end_byte as int)
    &&& n.start_row < usize::MAX
    &&& n.end_row < usize::MAX
}

/// Every node covers a stretch of the source.
pub open spec fn tree_fits(nodes: Seq<NodeView>, source: Seq<char>) -> bool {
    forall|i: int| 0 <= i < nodes.len() ==> #[trigger] node_fits(nodes[i], source)
}

/// The text of node `i`.
pub open spec fn node_text_of(nodes: Seq<NodeView>, source: Seq<char>, i: int) -> Seq<char> {
    source_slice(source, nodes[i].start_byte as int, nodes[i].end_byte as int)
}

/// The text between two byte offsets stands in the source, and its bytes are those
/// between the offsets.
pub proof fn lemma_source_slice(source: Seq<char>, start: int, end: int)
    requires
        0 <= start <= end <= encode_utf8(source).len(),
        is_char_boundary(encode_utf8(source), start),
        is_char_boundary(encode_utf8(source), end),
    ensures
        encode_utf8(source_slice(source, start, end)) == encode_utf8(source).subrange(start, end),
        contains_text(source, source_slice(source, start, end)),
{
    let bytes = encode_utf8(source);
    let prefix = bytes.subrange(0, end);
    encode_utf8_valid_utf8(source);
    encode_utf8_decode_utf8(source);
    valid_utf8_split(bytes, end);
    decode_utf8_split(bytes, end);
    lemma_boundary_in_prefix(bytes, start, end);
    valid_utf8_split(prefix, start);
    decode_utf8_split(prefix, start);
    let text = source_slice(source, start, end);
    let before = decode_utf8(prefix.subrange(0, start));
    assert(prefix.subrange(start, end) =~= bytes.subrange(start, end));
    decode_utf8_encode_utf8(bytes.subrange(start, end));
    let at = before.len() as int;
    assert(source.subrange(at, at + text.len()) =~= text);
    assert(occurs_at(source, text, at));
}

/// A boundary between characters stays one where what follows is cut off.
proof fn lemma_boundary_in_prefix(bytes: Seq<u8>, start: int, end: int)
    requires
        0 <= start <= end <= bytes.len(),
        valid_utf8(bytes),
        valid_utf8(bytes.subrange(0, end)),
        is_char_boundary(bytes, start),
    ensures
        is_char_boundary(bytes.subrange(0, end), start),
{
    let prefix = bytes.subrange(0, end);
    if start == end {
        is_char_boundary_start_end_of_seq(prefix);
    } else {
        is_char_boundary_iff_not_is_continuation_byte(bytes, start);
        is_char_boundary_iff_not_is_continuation_byte(prefix, start);
    }
}

/// The text between two byte offsets of a source.
pub fn slice_source<'a>(source: &'a str, start: usize, end: usize) -> (text: &'a str)
    requires
        start <= end <= source.spec_bytes().len(),
        is_char_boundary(source.spec_bytes(), start as int),
        is_char_boundary(source.spec_bytes(), end as int),
    ensures
        text@ == source_slice(source@, start as int, end as int),
{
    let ghost bytes = source.spec_bytes();
    let head = source.split_at(end).0;
    let ghost prefix = head.spec_bytes();
    proof {
        encode_utf8_valid_utf8(source@);
        encode_utf8_valid_utf8(head@);
        assert(prefix == bytes.subrange(0, end as int));
        lemma_boundary_in_prefix(bytes, start as int, end as int);
    }
    let text = head.split_at(start).1;
    proof {
        assert(text.spec_bytes() =~= bytes.subrange(start as int, end as int));
        encode_utf8_decode_utf8(text@);
    }
    text
}

/// The text of a node.
pub fn node_text<'a>(node: &SyntaxNode, source: &'a str) -> (text: &'a str)
    requires
        node_fits(node@, source@),
    ensures
        text@ == source_slice(source@, node.start_byte as int, node.end_byte as int),
{
    slice_source(source, node.start_byte, node.end_byte)
}

/// Whether every node covers a stretch of the source.
pub fn check_tree(nodes: &Vec<SyntaxNode>, source: &str) -> (fits: bool)
    ensures
        fits == tree_fits(node_views(nodes@), source@),
{
    let ghost views = node_views(nodes@);
    let mut i: usize = 0;
    while i < nodes.len()
        invariant
            i <= nodes.len(),
            views == node_views(nodes@),
            forall|j: int| 0 <= j < i ==> #[trigger] node_fits(views[j], source@),
        decreases nodes.len() - i,
    {
        let node = &nodes[i];
        assert(views[i as int] == node@);
        if node.start_byte > node.end_byte || node.end_byte > source.as_bytes().len()
            || !source.is_char_boundary(node.start_byte) || !source.is_char_boundary(node.end_byte)
            || node.start_row == usize::MAX || node.end_row == usize::MAX {
            assert(!node_fits(views[i as int], source@));
            return false;
        }
        i += 1;
    }
    true
}

// ---------------------------------------------------------------- lines

/// How many line feeds stand before a byte offset: the zero-based line of the byte
/// there.
pub open spec fn line_feeds(bytes: Seq<u8>, end: int) -> nat
    decreases end,
{
    if end <= 0 {
        0
    } else if bytes[end - 1] == 10 {
        line_feeds(bytes, end - 1) + 1
    } else {
        line_feeds(bytes, end - 1)
    }
}

/// Further on there are no fewer line feeds.
proof fn lemma_line_feeds(bytes: Seq<u8>, start: int, end: int)
    requires
        start <= end,
    ensures
        line_feeds(bytes, start) <= line_feeds(bytes, end),
    decreases end - start,
{
    if start < end {
        lemma_line_feeds(bytes, start, end - 1);
    }
}

/// Every node starts and ends on the lines that it names.
pub open spec fn rows_fit(nodes: Seq<NodeView>, source: Seq<char>) -> bool {
    forall|i: int|
        0 <= i < nodes.len() ==> (#[trigger] nodes[i]).start_row == line_feeds(
            encode_utf8(source),
            nodes[i].start_byte as int,
        ) && nodes[i].end_row == line_feeds(encode_utf8(source), nodes[i].end_byte as int)
}

/// These are the byte offsets of the line feeds, in order.
spec fn are_feeds(feeds: Seq<usize>, bytes: Seq<u8>) -> bool {
    &&& line_feeds(bytes, bytes.len() as int) == feeds.len()
    &&& forall|k: int|
        0 <= k < feeds.len() ==> 0 <= #[trigger] feeds[k] < bytes.len() && bytes[feeds[k] as int]
            == 10 && line_feeds(bytes, feeds[k] as int) == k
}

/// The byte offsets of the line feeds, in order.
fn find_feeds(source: &str) -> (feeds: Vec<usize>)
    ensures
        are_feeds(feeds@, source.spec_bytes()),
{
    let bytes = source.as_bytes();
    let mut feeds: Vec<usize> = Vec::new();
    let mut i: usize = 0;
    while i < bytes.len()
        invariant
            i <= bytes.len(),
            bytes@ == source.spec_bytes(),
            line_feeds(bytes@, i as int) == feeds.len(),
            forall|k: int|
                0 <= k < feeds.len() ==> 0 <= #[trigger] feeds@[k] < bytes.len()
                    && bytes@[feeds@[k] as int] == 10 && line_feeds(bytes@, feeds@[k] as int) == k,
        decreases bytes.len() - i,
    {
        if bytes[i] == 10 {
            feeds.push(i);
        }
        i += 1;
    }
    feeds
}

/// The zero-based line of a byte offset, found by halving.
fn row_of(feeds: &Vec<usize>, offset: usize, bytes: Ghost<Seq<u8>>) -> (row: usize)
    requires
        are_feeds(feeds@, bytes@),
        offset <= bytes@.len(),
    ensures
        row == line_feeds(bytes@, offset as int),
{
    let mut low: usize = 0;
    let mut high: usize = feeds.len();
    proof {
        lemma_line_feeds(bytes@, offset as int, bytes@.len() as int);
    }
    while low < high
        invariant
            are_feeds(feeds@, bytes@),
            low <= line_feeds(bytes@, offset as int) <= high <= feeds.len(),
        decreases high - low,
    {
        let middle = low + (high - low) / 2;
        let feed = feeds[middle];
        if feed < offset {
            proof {
                assert(line_feeds(bytes@, feed + 1) == middle + 1);
                lemma_line_feeds(bytes@, feed + 1, offset as int);
            }
            low = middle + 1;
        } else {
            proof {
                lemma_line_feeds(bytes@, offset as int, feed as int);
            }
            high = middle;
        }
    }
    low
}

/// Whether every node starts and ends on the lines that it names.
pub fn check_rows(nodes: &Vec<SyntaxNode>, source: &str) -> (fits: bool)
    requires
        tree_fits(node_views(nodes@), source@),
    ensures
        fits == rows_fit(node_views(nodes@), source@),
{
    let ghost views = node_views(nodes@);
    let ghost bytes = source.spec_bytes();
    let feeds = find_feeds(source);
    let mut i: usize = 0;
    while i < nodes.len()
        invariant
            i <= nodes.len(),
            views == node_views(nodes@),
            bytes == source.spec_bytes(),
            are_feeds(feeds@, bytes),
            tree_fits(views, source@),
            forall|j: int|
                0 <= j < i ==> (#[trigger] views[j]).start_row == line_feeds(
                    bytes,
                    views[j].start_byte as int,
                ) && views[j].end_row == line_feeds(bytes, views[j].end_byte as int),
        decreases nodes.len() - i,
    {
        let node = &nodes[i];
        assert(views[i as int] == node@);
        assert(node_fits(views[i as int], source@));
        if node.start_row != row_of(&feeds, node.start_byte, Ghost(bytes)) || node.end_row
            != row_of(&feeds, node.end_byte, Ghost(bytes)) {
            return false;
        }
        i += 1;
    }
    true
}

} // verus!
