//! Promises of the extraction: which definitions become chunks, and what the chunks
//! say of them.
use vstd::prelude::*;
use vstd::string::*;
use vstd::utf8::*;

use crate::laws::text::{is_blank, is_white};
use crate::ordered::Key;
use crate::parser::{
    contract_definitions, declares_state, definition_kind, definitions, definitions_from, describes,
    describes_all, extract_all, fallback_or_receive_name, is_contract_kind, match_node,
    members_from, name_of, refers_to, starts_receive, state_variables, symbols_of, DefinitionKind,
    FunctionChunk, FunctionChunkView, ParserError, SolidityParser,
};
use crate::syntax::{
    child_from, end_from, field_child, is_child, kind_child, lemma_source_slice, line_feeds,
    node_fits, node_text_of, node_views, rows_fit, solidity_nodes, subtree_end, tree_fits, NodeView,
    SyntaxNode,
};
use crate::text::{is_space, lemma_bytes_determine_text, occurs_at, text_before};

verus! {

// ---------------------------------------------------------------- trees by depth

/// Node `i` stands somewhere below node `p`: all from the one to the other are
/// deeper than `p`.
pub open spec fn is_below(nodes: Seq<NodeView>, p: int, i: int) -> bool {
    &&& 0 <= p < i < nodes.len()
    &&& forall|k: int| p < k <= i ==> (#[trigger] nodes[k]).depth > nodes[p].depth
}

/// Node `i` stands directly below node `p`.
pub open spec fn hangs_on(nodes: Seq<NodeView>, p: int, i: int) -> bool {
    is_below(nodes, p, i) && nodes[i].depth == nodes[p].depth + 1
}

/// Node `i` is the first directly below `p` that stands in the field.
pub open spec fn first_in_field(nodes: Seq<NodeView>, p: int, i: int, field: Seq<char>) -> bool {
    &&& hangs_on(nodes, p, i)
    &&& nodes[i].field == Some(field)
    &&& forall|k: int| p < k < i && #[trigger] hangs_on(nodes, p, k) ==> nodes[k].field != Some(
        field,
    )
}

/// Node `i` is the first directly below `p` of the kind.
pub open spec fn first_of_kind(nodes: Seq<NodeView>, p: int, i: int, kind: Seq<char>) -> bool {
    &&& hangs_on(nodes, p, i)
    &&& nodes[i].kind == kind
    &&& forall|k: int| p < k < i && #[trigger] hangs_on(nodes, p, k) ==> nodes[k].kind != kind
}

/// The source says `text` where node `i` stands.
pub open spec fn says(nodes: Seq<NodeView>, source: Seq<char>, i: int, text: Seq<char>) -> bool {
    encode_utf8(text) == encode_utf8(source).subrange(
        nodes[i].start_byte as int,
        nodes[i].end_byte as int,
    )
}

proof fn lemma_end(nodes: Seq<NodeView>, p: int, from: int)
    requires
        0 <= p < from <= nodes.len(),
    ensures
        from <= end_from(nodes, p, from) <= nodes.len(),
        forall|k: int|
            from <= k < end_from(nodes, p, from) ==> (#[trigger] nodes[k]).depth > nodes[p].depth,
        end_from(nodes, p, from) < nodes.len() ==> nodes[end_from(nodes, p, from)].depth
            <= nodes[p].depth,
    decreases nodes.len() - from,
{
    if from < nodes.len() && nodes[from].depth > nodes[p].depth {
        lemma_end(nodes, p, from + 1);
    }
}

/// A subtree holds the nodes below its root, and no others.
pub proof fn subtrees_hold_what_is_below(nodes: Seq<NodeView>, p: int, i: int)
    requires
        0 <= p < nodes.len(),
    ensures
        (p < i < subtree_end(nodes, p)) == is_below(nodes, p, i),
        is_child(nodes, p, i) == hangs_on(nodes, p, i),
{
    lemma_end(nodes, p, p + 1);
    let end = subtree_end(nodes, p);
    if is_below(nodes, p, i) && i >= end {
        assert(nodes[end].depth > nodes[p].depth);
    }
}

proof fn lemma_first_child(
    nodes: Seq<NodeView>,
    p: int,
    from: int,
    wanted: spec_fn(NodeView) -> bool,
)
    requires
        0 <= p < from,
        p < nodes.len(),
    ensures
        match child_from(nodes, p, from, wanted) {
            Some(c) => {
                &&& from <= c
                &&& hangs_on(nodes, p, c)
                &&& wanted(nodes[c])
                &&& forall|k: int| from <= k < c && #[trigger] hangs_on(nodes, p, k) ==> !wanted(
                    nodes[k],
                )
            },
            None => forall|k: int| from <= k && #[trigger] hangs_on(nodes, p, k) ==> !wanted(
                nodes[k],
            ),
        },
    decreases subtree_end(nodes, p) - from,
{
    assert forall|k: int| #[trigger] hangs_on(nodes, p, k) == is_child(nodes, p, k) by {
        subtrees_hold_what_is_below(nodes, p, k);
    }
    if from < subtree_end(nodes, p) && !(is_child(nodes, p, from) && wanted(nodes[from])) {
        lemma_first_child(nodes, p, from + 1, wanted);
        assert(hangs_on(nodes, p, from) == is_child(nodes, p, from));
    }
}

/// The child that is found in a field is the first one in it.
pub proof fn the_first_child_in_a_field_is_found(
    nodes: Seq<NodeView>,
    p: int,
    i: int,
    field: Seq<char>,
)
    requires
        0 <= p < nodes.len(),
    ensures
        field_child(nodes, p, field) == Some(i) <==> first_in_field(nodes, p, i, field),
        field_child(nodes, p, field) is Some ==> first_in_field(
            nodes,
            p,
            field_child(nodes, p, field)->0,
            field,
        ),
{
    let wanted = |n: NodeView| n.field == Some(field);
    lemma_first_child(nodes, p, p + 1, wanted);
    if first_in_field(nodes, p, i, field) {
        assert(wanted(nodes[i]));
        match child_from(nodes, p, p + 1, wanted) {
            Some(c) => {
                if c < i {
                    assert(hangs_on(nodes, p, c));
                } else if i < c {
                    assert(hangs_on(nodes, p, i));
                }
            },
            None => {},
        }
    }
}

/// The child that is found by its kind is the first one of it.
pub proof fn the_first_child_of_a_kind_is_found(
    nodes: Seq<NodeView>,
    p: int,
    i: int,
    kind: Seq<char>,
)
    requires
        0 <= p < nodes.len(),
    ensures
        kind_child(nodes, p, kind) == Some(i) <==> first_of_kind(nodes, p, i, kind),
{
    let wanted = |n: NodeView| n.kind == kind;
    lemma_first_child(nodes, p, p + 1, wanted);
    if first_of_kind(nodes, p, i, kind) {
        assert(wanted(nodes[i]));
        match child_from(nodes, p, p + 1, wanted) {
            Some(c) => {
                if c < i {
                    assert(hangs_on(nodes, p, c));
                } else if i < c {
                    assert(hangs_on(nodes, p, i));
                }
            },
            None => {},
        }
    }
}

/// The text of a node is what the source says there.
pub proof fn nodes_have_the_text_of_the_source(
    nodes: Seq<NodeView>,
    source: Seq<char>,
    i: int,
    text: Seq<char>,
)
    requires
        tree_fits(nodes, source),
        0 <= i < nodes.len(),
    ensures
        node_text_of(nodes, source, i) == text <==> says(nodes, source, i, text),
{
    assert(node_fits(nodes[i], source));
    lemma_source_slice(source, nodes[i].start_byte as int, nodes[i].end_byte as int);
    if says(nodes, source, i, text) {
        lemma_bytes_determine_text(node_text_of(nodes, source, i), text);
    }
}

/// A line is counted for each line feed before an offset, and for nothing else.
pub proof fn lines_are_counted_by_line_feeds(bytes: Seq<u8>, end: int)
    requires
        0 <= end <= bytes.len(),
    ensures
        line_feeds(bytes, end) == bytes.take(end).filter(|byte: u8| byte == 10).len(),
    decreases end,
{
    reveal(Seq::filter);
    if end > 0 {
        lines_are_counted_by_line_feeds(bytes, end - 1);
        assert(bytes.take(end).drop_last() =~= bytes.take(end - 1));
        assert(bytes.take(end).last() == bytes[end - 1]);
    } else {
        assert(bytes.take(0).len() == 0);
    }
}

// ---------------------------------------------------------------- definitions

/// The kinds of nodes that hold contracts.
pub open spec fn holds_a_contract(node: NodeView) -> bool {
    node.kind == "contract_declaration"@ || node.kind == "interface_declaration"@ || node.kind
        == "library_declaration"@
}

/// The kinds of nodes that hold definitions, and the kind of definition.
pub open spec fn holds_a(node: NodeView, kind: DefinitionKind) -> bool {
    node.kind == match kind {
        DefinitionKind::Function => "function_definition"@,
        DefinitionKind::Constructor => "constructor_definition"@,
        DefinitionKind::Modifier => "modifier_definition"@,
        DefinitionKind::FallbackOrReceive => "fallback_receive_definition"@,
    }
}

proof fn lemma_kinds_differ()
    ensures
        "function_definition"@ != "constructor_definition"@,
        "function_definition"@ != "modifier_definition"@,
        "function_definition"@ != "fallback_receive_definition"@,
        "constructor_definition"@ != "modifier_definition"@,
        "constructor_definition"@ != "fallback_receive_definition"@,
        "modifier_definition"@ != "fallback_receive_definition"@,
{
    reveal_strlit("function_definition");
    reveal_strlit("constructor_definition");
    reveal_strlit("modifier_definition");
    reveal_strlit("fallback_receive_definition");
    assert("function_definition"@.len() == 19);
    assert("modifier_definition"@.len() == 19);
    assert("constructor_definition"@.len() == 22);
    assert("fallback_receive_definition"@.len() == 27);
    assert("function_definition"@[0] != "modifier_definition"@[0]);
}

/// A kind of node holds at most one kind of definition.
pub proof fn kinds_are_told_apart(node: NodeView, kind: DefinitionKind)
    ensures
        definition_kind(node.kind) == Some(kind) <==> holds_a(node, kind),
        is_contract_kind(node.kind) <==> holds_a_contract(node),
{
    lemma_kinds_differ();
}

/// A node is a definition in the body of a contract at the top of the tree.
pub open spec fn is_definition(nodes: Seq<NodeView>, c: int, body: int, d: int) -> bool {
    &&& hangs_on(nodes, 0, c)
    &&& holds_a_contract(nodes[c])
    &&& first_in_field(nodes, c, body, "body"@)
    &&& hangs_on(nodes, body, d)
    &&& exists|kind: DefinitionKind| holds_a(nodes[d], kind)
}

proof fn lemma_definition_kind(node: NodeView)
    ensures
        definition_kind(node.kind) is Some <==> exists|kind: DefinitionKind| holds_a(node, kind),
{
    lemma_kinds_differ();
    if definition_kind(node.kind) is Some {
        let kind = definition_kind(node.kind)->0;
        assert(holds_a(node, kind));
    }
    if exists|kind: DefinitionKind| holds_a(node, kind) {
        let kind = choose|kind: DefinitionKind| holds_a(node, kind);
        kinds_are_told_apart(node, kind);
    }
}

proof fn lemma_members(
    nodes: Seq<NodeView>,
    c: int,
    body: int,
    from: int,
    place: (int, int, int),
)
    requires
        0 <= body < from,
        body < nodes.len(),
    ensures
        members_from(nodes, c, body, from).contains(place) <==> place.0 == c && place.1 == body
            && from <= place.2 && hangs_on(nodes, body, place.2) && definition_kind(
            nodes[place.2].kind,
        ) is Some,
        forall|i: int|
            0 <= i < members_from(nodes, c, body, from).len() ==> from <= (
            #[trigger] members_from(nodes, c, body, from)[i]).2 < subtree_end(nodes, body),
        forall|i: int, j: int|
            0 <= i < j < members_from(nodes, c, body, from).len() ==> (#[trigger] members_from(
                nodes,
                c,
                body,
                from,
            )[i]).2 < (#[trigger] members_from(nodes, c, body, from)[j]).2,
    decreases subtree_end(nodes, body) - from,
{
    let all = members_from(nodes, c, body, from);
    subtrees_hold_what_is_below(nodes, body, place.2);
    subtrees_hold_what_is_below(nodes, body, from);
    if from < subtree_end(nodes, body) {
        let rest = members_from(nodes, c, body, from + 1);
        lemma_members(nodes, c, body, from + 1, place);
        if is_child(nodes, body, from) && definition_kind(nodes[from].kind) is Some {
            let here = (c, body, from);
            assert(all =~= seq![here] + rest);
            assert forall|i: int| 1 <= i < all.len() implies all[i] == rest[i - 1] by {}
            if all.contains(place) {
                let i = all.index_of(place);
                if i > 0 {
                    assert(rest[i - 1] == place);
                }
            }
            if rest.contains(place) {
                assert(all[rest.index_of(place) + 1] == place);
            }
            assert(all[0] == here);
        }
    } else {
        assert(all =~= Seq::empty());
    }
}

proof fn lemma_within(nodes: Seq<NodeView>, c: int, body: int)
    requires
        hangs_on(nodes, c, body),
    ensures
        body < subtree_end(nodes, body) <= subtree_end(nodes, c) <= nodes.len(),
{
    lemma_end(nodes, c, c + 1);
    lemma_end(nodes, body, body + 1);
    subtrees_hold_what_is_below(nodes, c, body);
    let end = subtree_end(nodes, c);
    if end < subtree_end(nodes, body) {
        assert(nodes[end].depth > nodes[body].depth);
    }
}

proof fn lemma_contract(nodes: Seq<NodeView>, c: int, place: (int, int, int))
    requires
        0 <= c < nodes.len(),
    ensures
        contract_definitions(nodes, c).contains(place) <==> place.0 == c && first_in_field(
            nodes,
            c,
            place.1,
            "body"@,
        ) && hangs_on(nodes, place.1, place.2) && definition_kind(nodes[place.2].kind) is Some,
        forall|i: int|
            0 <= i < contract_definitions(nodes, c).len() ==> c < (#[trigger] contract_definitions(
                nodes,
                c,
            )[i]).2 < subtree_end(nodes, c),
        forall|i: int, j: int|
            0 <= i < j < contract_definitions(nodes, c).len() ==> (
            #[trigger] contract_definitions(nodes, c)[i]).2 < (#[trigger] contract_definitions(
                nodes,
                c,
            )[j]).2,
{
    the_first_child_in_a_field_is_found(nodes, c, place.1, "body"@);
    match field_child(nodes, c, "body"@) {
        Some(body) => {
            lemma_members(nodes, c, body, body + 1, place);
            lemma_within(nodes, c, body);
        },
        None => {},
    }
}

proof fn lemma_definitions_from(nodes: Seq<NodeView>, from: int, place: (int, int, int))
    requires
        0 < from,
        nodes.len() > 0,
    ensures
        definitions_from(nodes, from).contains(place) <==> from <= place.0 && is_definition(
            nodes,
            place.0,
            place.1,
            place.2,
        ),
        forall|i: int|
            0 <= i < definitions_from(nodes, from).len() ==> from <= (#[trigger] definitions_from(
                nodes,
                from,
            )[i]).2,
        forall|i: int, j: int|
            0 <= i < j < definitions_from(nodes, from).len() ==> (#[trigger] definitions_from(
                nodes,
                from,
            )[i]).2 < (#[trigger] definitions_from(nodes, from)[j]).2,
    decreases subtree_end(nodes, 0) - from,
{
    let all = definitions_from(nodes, from);
    subtrees_hold_what_is_below(nodes, 0, place.0);
    subtrees_hold_what_is_below(nodes, 0, from);
    if 0 <= place.2 < nodes.len() {
        lemma_definition_kind(nodes[place.2]);
    }
    if from < subtree_end(nodes, 0) {
        lemma_end(nodes, 0, 1);
        let rest = definitions_from(nodes, from + 1);
        lemma_definitions_from(nodes, from + 1, place);
        if is_child(nodes, 0, from) && is_contract_kind(nodes[from].kind) {
            let here = contract_definitions(nodes, from);
            lemma_contract(nodes, from, place);
            assert(all =~= here + rest);
            if all.contains(place) {
                let i = all.index_of(place);
                if i < here.len() {
                    assert(here[i] == place);
                } else {
                    assert(rest[i - here.len()] == place);
                }
            }
            if here.contains(place) {
                assert(all[here.index_of(place)] == place);
            }
            if rest.contains(place) {
                assert(all[here.len() + rest.index_of(place)] == place);
            }
            assert forall|i: int, j: int| 0 <= i < j < all.len() implies (#[trigger] all[i]).2 < (
            #[trigger] all[j]).2 by {
                if j < here.len() {
                    assert(here[i] == all[i] && here[j] == all[j]);
                } else if i >= here.len() {
                    assert(rest[i - here.len()] == all[i] && rest[j - here.len()] == all[j]);
                } else {
                    assert(here[i] == all[i] && rest[j - here.len()] == all[j]);
                    lemma_later_contract(nodes, from, rest, j - here.len());
                }
            }
        }
    } else {
        assert(all =~= Seq::empty());
    }
}

/// A definition of a later contract stands behind all of an earlier one.
proof fn lemma_later_contract(
    nodes: Seq<NodeView>,
    c: int,
    rest: Seq<(int, int, int)>,
    j: int,
)
    requires
        nodes.len() > 0,
        hangs_on(nodes, 0, c),
        rest == definitions_from(nodes, c + 1),
        0 <= j < rest.len(),
    ensures
        subtree_end(nodes, c) <= rest[j].2,
    decreases subtree_end(nodes, 0) - c,
{
    let place = rest[j];
    assert(rest.contains(place));
    lemma_contained(nodes, c + 1, j);
    let later = place.0;
    lemma_end(nodes, c, c + 1);
    if later < subtree_end(nodes, c) {
        assert(nodes[later].depth > nodes[c].depth);
    }
}

proof fn lemma_contained(nodes: Seq<NodeView>, from: int, j: int)
    requires
        0 < from,
        nodes.len() > 0,
        0 <= j < definitions_from(nodes, from).len(),
    ensures
        ({
            let place = definitions_from(nodes, from)[j];
            from <= place.0 < place.2 && hangs_on(nodes, 0, place.0)
        }),
    decreases subtree_end(nodes, 0) - from,
{
    subtrees_hold_what_is_below(nodes, 0, from);
    lemma_end(nodes, 0, 1);
    if from < subtree_end(nodes, 0) {
        let rest = definitions_from(nodes, from + 1);
        if is_child(nodes, 0, from) && is_contract_kind(nodes[from].kind) {
            let here = contract_definitions(nodes, from);
            let place = definitions_from(nodes, from)[j];
            if j < here.len() {
                assert(here[j] == place);
                assert(here.contains(place));
                lemma_contract(nodes, from, place);
            } else {
                assert(rest[j - here.len()] == place);
                lemma_contained(nodes, from + 1, j - here.len());
            }
        } else {
            lemma_contained(nodes, from + 1, j);
        }
    }
}

/// Chunks come of the definitions in the bodies of the contracts, interfaces and
/// libraries at the top of a source: of each of them one, in document order, and of
/// nothing else.
pub proof fn every_definition_becomes_one_chunk(nodes: Seq<NodeView>, c: int, body: int, d: int)
    requires
        nodes.len() > 0,
    ensures
        definitions(nodes).contains((c, body, d)) <==> is_definition(nodes, c, body, d),
        forall|i: int, j: int|
            0 <= i < j < definitions(nodes).len() ==> (#[trigger] definitions(nodes)[i]).2 < (
            #[trigger] definitions(nodes)[j]).2,
{
    lemma_definitions_from(nodes, 1, (c, body, d));
}

// ---------------------------------------------------------------- what chunks say

/// The name that a node is given: what the source says in its `name` field, or a
/// stand-in where it has none.
pub open spec fn is_named(
    nodes: Seq<NodeView>,
    source: Seq<char>,
    i: int,
    name: Seq<char>,
) -> bool {
    ||| exists|n: int| #[trigger] first_in_field(nodes, i, n, "name"@) && says(nodes, source, n, name)
    ||| name == "<anonymous>"@ && forall|n: int| !#[trigger] first_in_field(nodes, i, n, "name"@)
}

/// A text says `receive` behind white space.
pub open spec fn opens_with_receive(code: Seq<char>) -> bool {
    exists|k: int|
        0 <= k <= code.len() - 7 && #[trigger] is_blank(code.take(k)) && code.subrange(k, k + 7)
            == "receive"@
}

proof fn lemma_name(nodes: Seq<NodeView>, source: Seq<char>, i: int)
    requires
        tree_fits(nodes, source),
        0 <= i < nodes.len(),
    ensures
        is_named(nodes, source, i, name_of(nodes, source, i)),
{
    let name = name_of(nodes, source, i);
    match field_child(nodes, i, "name"@) {
        Some(n) => {
            the_first_child_in_a_field_is_found(nodes, i, n, "name"@);
            nodes_have_the_text_of_the_source(nodes, source, n, name);
            assert(first_in_field(nodes, i, n, "name"@) && says(nodes, source, n, name));
        },
        None => {
            assert forall|n: int| !#[trigger] first_in_field(nodes, i, n, "name"@) by {
                the_first_child_in_a_field_is_found(nodes, i, n, "name"@);
            }
        },
    }
}

proof fn lemma_receive(code: Seq<char>)
    ensures
        starts_receive(code) <==> opens_with_receive(code),
    decreases code.len(),
{
    reveal_strlit("receive");
    let word = "receive"@;
    assert(word.len() == 7);
    if code.len() > 0 && is_space(code[0]) {
        let rest = code.drop_first();
        lemma_receive(rest);
        if opens_with_receive(rest) {
            let k = choose|k: int|
                0 <= k <= rest.len() - 7 && #[trigger] is_blank(rest.take(k)) && rest.subrange(
                    k,
                    k + 7,
                ) == "receive"@;
            assert(is_blank(code.take(k + 1))) by {
                assert forall|i: int| 0 <= i < k + 1 implies is_white(
                    #[trigger] code.take(k + 1)[i],
                ) by {
                    if i > 0 {
                        assert(rest.take(k)[i - 1] == code[i]);
                    }
                }
            }
            assert(code.subrange(k + 1, k + 8) =~= rest.subrange(k, k + 7));
        }
        if opens_with_receive(code) {
            let k = choose|k: int|
                0 <= k <= code.len() - 7 && #[trigger] is_blank(code.take(k)) && code.subrange(
                    k,
                    k + 7,
                ) == "receive"@;
            if k == 0 {
                assert(code.subrange(0, 7)[0] == word[0]);
            } else {
                assert(is_blank(rest.take(k - 1))) by {
                    assert forall|i: int| 0 <= i < k - 1 implies is_white(
                        #[trigger] rest.take(k - 1)[i],
                    ) by {
                        assert(code.take(k)[i + 1] == rest[i]);
                    }
                }
                assert(rest.subrange(k - 1, k + 6) =~= code.subrange(k, k + 7));
            }
        }
    } else {
        if starts_receive(code) {
            assert(is_blank(code.take(0)));
            assert(code.subrange(0, 7) == word);
        }
        if opens_with_receive(code) {
            let k = choose|k: int|
                0 <= k <= code.len() - 7 && #[trigger] is_blank(code.take(k)) && code.subrange(
                    k,
                    k + 7,
                ) == "receive"@;
            if k > 0 {
                assert(is_white(code.take(k)[0]));
            }
            assert(occurs_at(code, word, 0));
        }
    }
}

/// A chunk says what its definition is: its kind, its code as the source has it, the
/// lines of the code counted from one, its contract, and its name, which constructors
/// and nameless entry points have from what they are.
pub proof fn chunks_say_what_their_definitions_are(
    nodes: Seq<NodeView>,
    source: Seq<char>,
    file: Seq<char>,
    chunks: Seq<FunctionChunk>,
    n: int,
)
    requires
        tree_fits(nodes, source),
        nodes.len() > 0,
        describes_all(nodes, source, file, definitions(nodes), chunks),
        0 <= n < chunks.len(),
    ensures
        ({
            let (c, body, d) = definitions(nodes)[n];
            let chunk = chunks[n]@;
            &&& chunk.file_path == file
            &&& holds_a(nodes[d], chunk.kind)
            &&& says(nodes, source, d, chunk.code_content)
            &&& chunk.start_line == nodes[d].start_row + 1
            &&& chunk.end_line == nodes[d].end_row + 1
            &&& is_named(nodes, source, c, chunk.contract_name)
            &&& match chunk.kind {
                DefinitionKind::Function | DefinitionKind::Modifier => is_named(
                    nodes,
                    source,
                    d,
                    chunk.function_name,
                ),
                DefinitionKind::Constructor => chunk.function_name == "constructor"@,
                DefinitionKind::FallbackOrReceive => chunk.function_name == (
                if opens_with_receive(chunk.code_content) {
                    "receive"@
                } else {
                    "fallback"@
                }),
            }
        }),
        chunks.len() == definitions(nodes).len(),
{
    let place = definitions(nodes)[n];
    let (c, body, d) = place;
    let chunk = chunks[n]@;
    assert(describes(nodes, source, file, place, chunk));
    assert(definitions(nodes).contains(place));
    every_definition_becomes_one_chunk(nodes, c, body, d);
    kinds_are_told_apart(nodes[d], chunk.kind);
    nodes_have_the_text_of_the_source(nodes, source, d, chunk.code_content);
    lemma_name(nodes, source, c);
    lemma_name(nodes, source, d);
    lemma_receive(chunk.code_content);
}

// ---------------------------------------------------------------- symbols

/// A name of a state variable that is declared directly in a contract body.
pub open spec fn is_state_variable(
    nodes: Seq<NodeView>,
    source: Seq<char>,
    body: int,
    name: Seq<char>,
) -> bool {
    exists|m: int, v: int|
        hangs_on(nodes, body, m) && nodes[m].kind == "state_variable_declaration"@
            && #[trigger] first_in_field(nodes, m, v, "name"@) && says(nodes, source, v, name)
}

/// Node `i` calls a function by this name.
pub open spec fn calls(nodes: Seq<NodeView>, source: Seq<char>, i: int, name: Seq<char>) -> bool {
    nodes[i].kind == "call_expression"@ && exists|f: int| #[trigger]
        first_in_field(nodes, i, f, "function"@) && says(nodes, source, f, name)
}

/// Node `i` invokes a modifier by this name.
pub open spec fn invokes(nodes: Seq<NodeView>, source: Seq<char>, i: int, name: Seq<char>) -> bool {
    nodes[i].kind == "modifier_invocation"@ && exists|f: int| #[trigger]
        first_of_kind(nodes, i, f, "identifier"@) && says(nodes, source, f, name)
}

/// Node `i` mentions a state variable of the body by this name.
pub open spec fn mentions(
    nodes: Seq<NodeView>,
    source: Seq<char>,
    body: int,
    i: int,
    name: Seq<char>,
) -> bool {
    nodes[i].kind == "identifier"@ && says(nodes, source, i, name) && is_state_variable(
        nodes,
        source,
        body,
        name,
    )
}

/// Node `i` makes the reference of a call, of a modifier or of a state variable.
pub open spec fn makes_reference(
    nodes: Seq<NodeView>,
    source: Seq<char>,
    body: int,
    i: int,
    name: Seq<char>,
) -> bool {
    calls(nodes, source, i, name) || invokes(nodes, source, i, name) || mentions(
        nodes,
        source,
        body,
        i,
        name,
    )
}

proof fn lemma_state(nodes: Seq<NodeView>, source: Seq<char>, body: int, name: Seq<char>)
    requires
        tree_fits(nodes, source),
        0 <= body < nodes.len(),
    ensures
        state_variables(nodes, source, body).contains(name) <==> is_state_variable(
            nodes,
            source,
            body,
            name,
        ),
{
    if state_variables(nodes, source, body).contains(name) {
        let m = choose|m: int| declares_state(nodes, source, body, m, name);
        subtrees_hold_what_is_below(nodes, body, m);
        let v = field_child(nodes, m, "name"@)->0;
        the_first_child_in_a_field_is_found(nodes, m, v, "name"@);
        nodes_have_the_text_of_the_source(nodes, source, v, name);
        assert(first_in_field(nodes, m, v, "name"@) && says(nodes, source, v, name));
    }
    if is_state_variable(nodes, source, body, name) {
        let (m, v) = choose|m: int, v: int|
            hangs_on(nodes, body, m) && nodes[m].kind == "state_variable_declaration"@
                && #[trigger] first_in_field(nodes, m, v, "name"@) && says(nodes, source, v, name);
        subtrees_hold_what_is_below(nodes, body, m);
        the_first_child_in_a_field_is_found(nodes, m, v, "name"@);
        nodes_have_the_text_of_the_source(nodes, source, v, name);
        assert(declares_state(nodes, source, body, m, name));
    }
}

proof fn lemma_reference(
    nodes: Seq<NodeView>,
    source: Seq<char>,
    body: int,
    i: int,
    name: Seq<char>,
)
    requires
        tree_fits(nodes, source),
        0 <= body < nodes.len(),
        0 <= i < nodes.len(),
    ensures
        refers_to(nodes, source, state_variables(nodes, source, body), i, name) == makes_reference(
            nodes,
            source,
            body,
            i,
            name,
        ),
{
    reveal_strlit("call_expression");
    reveal_strlit("modifier_invocation");
    reveal_strlit("identifier");
    assert("call_expression"@.len() == 15);
    assert("modifier_invocation"@.len() == 19);
    assert("identifier"@.len() == 10);
    lemma_state(nodes, source, body, name);
    nodes_have_the_text_of_the_source(nodes, source, i, name);
    if field_child(nodes, i, "function"@) is Some {
        let f = field_child(nodes, i, "function"@)->0;
        the_first_child_in_a_field_is_found(nodes, i, f, "function"@);
        nodes_have_the_text_of_the_source(nodes, source, f, name);
        assert(first_in_field(nodes, i, f, "function"@));
    }
    if calls(nodes, source, i, name) {
        let f = choose|f: int| #[trigger]
            first_in_field(nodes, i, f, "function"@) && says(nodes, source, f, name);
        the_first_child_in_a_field_is_found(nodes, i, f, "function"@);
    }
    if kind_child(nodes, i, "identifier"@) is Some {
        let f = kind_child(nodes, i, "identifier"@)->0;
        the_first_child_of_a_kind_is_found(nodes, i, f, "identifier"@);
        nodes_have_the_text_of_the_source(nodes, source, f, name);
        assert(first_of_kind(nodes, i, f, "identifier"@));
    }
    if invokes(nodes, source, i, name) {
        let f = choose|f: int| #[trigger]
            first_of_kind(nodes, i, f, "identifier"@) && says(nodes, source, f, name);
        the_first_child_of_a_kind_is_found(nodes, i, f, "identifier"@);
    }
}

/// The symbols of a chunk are the callees of its calls, the modifiers that it invokes
/// and the state variables of its contract that it mentions, whatever characters they
/// are made of, and nothing else.
pub proof fn symbols_are_what_the_definition_refers_to(
    nodes: Seq<NodeView>,
    source: Seq<char>,
    file: Seq<char>,
    chunks: Seq<FunctionChunk>,
    n: int,
    name: Seq<char>,
)
    requires
        tree_fits(nodes, source),
        nodes.len() > 0,
        describes_all(nodes, source, file, definitions(nodes), chunks),
        0 <= n < chunks.len(),
    ensures
        ({
            let (c, body, d) = definitions(nodes)[n];
            chunks[n]@.referenced_symbols.contains(name) <==> exists|i: int|
                (i == d || is_below(nodes, d, i)) && #[trigger] makes_reference(
                    nodes,
                    source,
                    body,
                    i,
                    name,
                )
        }),
{
    let place = definitions(nodes)[n];
    let (c, body, d) = place;
    let chunk = chunks[n]@;
    assert(describes(nodes, source, file, place, chunk));
    assert(definitions(nodes).contains(place));
    every_definition_becomes_one_chunk(nodes, c, body, d);
    let state = state_variables(nodes, source, body);
    assert(chunk.referenced_symbols.contains(name) <==> chunk.referenced_symbols.to_set().contains(
        name,
    ));
    if symbols_of(nodes, source, state, d).contains(name) {
        let i = choose|i: int|
            d <= i < subtree_end(nodes, d) && #[trigger] refers_to(nodes, source, state, i, name);
        subtrees_hold_what_is_below(nodes, d, i);
        lemma_end(nodes, d, d + 1);
        lemma_reference(nodes, source, body, i, name);
        assert(i == d || is_below(nodes, d, i));
    }
    if exists|i: int|
        (i == d || is_below(nodes, d, i)) && #[trigger] makes_reference(
            nodes,
            source,
            body,
            i,
            name,
        ) {
        let i = choose|i: int|
            (i == d || is_below(nodes, d, i)) && #[trigger] makes_reference(
                nodes,
                source,
                body,
                i,
                name,
            );
        subtrees_hold_what_is_below(nodes, d, i);
        lemma_end(nodes, d, d + 1);
        lemma_reference(nodes, source, body, i, name);
        assert(refers_to(nodes, source, state, i, name));
    }
}

/// Every callee of a call in a definition is among the symbols of its chunk.
pub proof fn every_callee_is_a_symbol(
    nodes: Seq<NodeView>,
    source: Seq<char>,
    file: Seq<char>,
    chunks: Seq<FunctionChunk>,
    n: int,
    i: int,
    f: int,
    callee: Seq<char>,
)
    requires
        tree_fits(nodes, source),
        nodes.len() > 0,
        describes_all(nodes, source, file, definitions(nodes), chunks),
        0 <= n < chunks.len(),
        is_below(nodes, definitions(nodes)[n].2, i),
        nodes[i].kind == "call_expression"@,
        first_in_field(nodes, i, f, "function"@),
        says(nodes, source, f, callee),
    ensures
        chunks[n]@.referenced_symbols.contains(callee),
{
    symbols_are_what_the_definition_refers_to(nodes, source, file, chunks, n, callee);
    assert(makes_reference(nodes, source, definitions(nodes)[n].1, i, callee));
}

// ---------------------------------------------------------------- the call

/// A chunk tells of a definition: what it is, where it stands, and all that it refers
/// to, each name once and in the order of texts.
pub open spec fn tells_of(
    nodes: Seq<NodeView>,
    source: Seq<char>,
    file: Seq<char>,
    place: (int, int, int),
    chunk: FunctionChunkView,
) -> bool {
    let (c, body, d) = place;
    let bytes = encode_utf8(source);
    &&& chunk.file_path == file
    &&& holds_a(nodes[d], chunk.kind)
    &&& says(nodes, source, d, chunk.code_content)
    &&& chunk.start_line == 1 + bytes.take(nodes[d].start_byte as int).filter(
        |byte: u8| byte == 10,
    ).len()
    &&& chunk.end_line == 1 + bytes.take(nodes[d].end_byte as int).filter(
        |byte: u8| byte == 10,
    ).len()
    &&& is_named(nodes, source, c, chunk.contract_name)
    &&& chunk.kind == DefinitionKind::Function || chunk.kind == DefinitionKind::Modifier
        ==> is_named(nodes, source, d, chunk.function_name)
    &&& chunk.kind == DefinitionKind::Constructor ==> chunk.function_name == "constructor"@
    &&& chunk.kind == DefinitionKind::FallbackOrReceive && opens_with_receive(chunk.code_content)
        ==> chunk.function_name == "receive"@
    &&& chunk.kind == DefinitionKind::FallbackOrReceive && !opens_with_receive(chunk.code_content)
        ==> chunk.function_name == "fallback"@
    &&& forall|name: Seq<char>| #[trigger]
        chunk.referenced_symbols.contains(name) <==> exists|i: int|
            (i == d || is_below(nodes, d, i)) && #[trigger] makes_reference(
                nodes,
                source,
                body,
                i,
                name,
            )
    &&& forall|i: int, j: int|
        0 <= i < j < chunk.referenced_symbols.len() ==> text_before(
            #[trigger] chunk.referenced_symbols[i],
            #[trigger] chunk.referenced_symbols[j],
        )
}

proof fn lemma_tells(
    nodes: Seq<NodeView>,
    source: Seq<char>,
    file: Seq<char>,
    chunks: Seq<FunctionChunk>,
    n: int,
)
    requires
        tree_fits(nodes, source),
        rows_fit(nodes, source),
        nodes.len() > 0,
        describes_all(nodes, source, file, definitions(nodes), chunks),
        0 <= n < chunks.len(),
    ensures
        tells_of(nodes, source, file, definitions(nodes)[n], chunks[n]@),
{
    let place = definitions(nodes)[n];
    let (c, body, d) = place;
    let chunk = chunks[n]@;
    assert(describes(nodes, source, file, place, chunk));
    assert(definitions(nodes).contains(place));
    every_definition_becomes_one_chunk(nodes, c, body, d);
    chunks_say_what_their_definitions_are(nodes, source, file, chunks, n);
    assert(node_fits(nodes[d], source));
    lines_are_counted_by_line_feeds(encode_utf8(source), nodes[d].start_byte as int);
    lines_are_counted_by_line_feeds(encode_utf8(source), nodes[d].end_byte as int);
    assert forall|name: Seq<char>| #[trigger]
        chunk.referenced_symbols.contains(name) <==> exists|i: int|
            (i == d || is_below(nodes, d, i)) && #[trigger] makes_reference(
                nodes,
                source,
                body,
                i,
                name,
            ) by {
        symbols_are_what_the_definition_refers_to(nodes, source, file, chunks, n, name);
    }
    assert forall|i: int, j: int|
        0 <= i < j < chunk.referenced_symbols.len() implies text_before(
        #[trigger] chunk.referenced_symbols[i],
        #[trigger] chunk.referenced_symbols[j],
    ) by {
        assert(<String as Key>::before(
            chunk.referenced_symbols[i],
            chunk.referenced_symbols[j],
        ));
    }
}

/// Parsing a source answers with one chunk for each definition in it, in the order in
/// which they stand there, and with no others; each tells of its definition.
pub proof fn parsing_answers_with_one_chunk_for_each_definition(
    parser: &mut SolidityParser,
    source: &str,
    file: &str,
    chunks: Vec<FunctionChunk>,
) -> (places: Seq<(int, int, int)>)
    requires
        call_ensures(
            SolidityParser::parse_source,
            (parser, source, file),
            Ok::<Vec<FunctionChunk>, ParserError>(chunks),
        ),
    ensures
        places.len() == chunks@.len(),
        forall|c: int, body: int, d: int| #[trigger]
            places.contains((c, body, d)) <==> is_definition(solidity_nodes(source@), c, body, d),
        forall|i: int, j: int|
            0 <= i < j < places.len() ==> (#[trigger] places[i]).2 < (#[trigger] places[j]).2,
        forall|i: int|
            0 <= i < places.len() ==> tells_of(
                solidity_nodes(source@),
                source@,
                file@,
                places[i],
                #[trigger] chunks@[i]@,
            ),
{
    let nodes = solidity_nodes(source@);
    let places = definitions(nodes);
    if nodes.len() == 0 {
        assert forall|c: int, body: int, d: int| #[trigger]
            places.contains((c, body, d)) <==> is_definition(nodes, c, body, d) by {
        }
    } else {
        assert forall|c: int, body: int, d: int| #[trigger]
            places.contains((c, body, d)) <==> is_definition(nodes, c, body, d) by {
            every_definition_becomes_one_chunk(nodes, c, body, d);
        }
        every_definition_becomes_one_chunk(nodes, 0, 0, 0);
        assert forall|i: int| 0 <= i < places.len() implies tells_of(
            nodes,
            source@,
            file@,
            places[i],
            #[trigger] chunks@[i]@,
        ) by {
            lemma_tells(nodes, source@, file@, chunks@, i);
        }
    }
    places
}

/// What is extracted from a tree is one chunk for each definition in it.
pub proof fn extracting_answers_with_one_chunk_for_each_definition(
    nodes: &Vec<SyntaxNode>,
    source: &str,
    file: &str,
    chunks: Vec<FunctionChunk>,
) -> (places: Seq<(int, int, int)>)
    requires
        tree_fits(node_views(nodes@), source@),
        rows_fit(node_views(nodes@), source@),
        nodes@.len() > 0,
        call_ensures(extract_all, (nodes, source, file), chunks),
    ensures
        places.len() == chunks@.len(),
        forall|c: int, body: int, d: int| #[trigger]
            places.contains((c, body, d)) <==> is_definition(node_views(nodes@), c, body, d),
        forall|i: int, j: int|
            0 <= i < j < places.len() ==> (#[trigger] places[i]).2 < (#[trigger] places[j]).2,
        forall|i: int|
            0 <= i < places.len() ==> tells_of(
                node_views(nodes@),
                source@,
                file@,
                places[i],
                #[trigger] chunks@[i]@,
            ),
{
    let all = node_views(nodes@);
    let places = definitions(all);
    assert forall|c: int, body: int, d: int| #[trigger]
        places.contains((c, body, d)) <==> is_definition(all, c, body, d) by {
        every_definition_becomes_one_chunk(all, c, body, d);
    }
    every_definition_becomes_one_chunk(all, 0, 0, 0);
    assert forall|i: int| 0 <= i < places.len() implies tells_of(
        all,
        source@,
        file@,
        places[i],
        #[trigger] chunks@[i]@,
    ) by {
        lemma_tells(all, source@, file@, chunks@, i);
    }
    places
}

/// A name for an entry point without one is told from its code.
pub proof fn entry_points_are_named_by_their_code(code: &str, name: String)
    requires
        call_ensures(fallback_or_receive_name, (code,), name),
    ensures
        name@ == if opens_with_receive(code@) {
            "receive"@
        } else {
            "fallback"@
        },
{
    lemma_receive(code@);
}

/// A node that no tree of the source could have: it does not cover a stretch between
/// characters, or stands on other lines than it names.
pub open spec fn is_impossible(node: NodeView, source: Seq<char>) -> bool {
    let bytes = encode_utf8(source);
    ||| node.start_byte > node.end_byte
    ||| node.end_byte > bytes.len()
    ||| !is_char_boundary(bytes, node.start_byte as int)
    ||| !is_char_boundary(bytes, node.end_byte as int)
    ||| node.start_row != bytes.take(node.start_byte as int).filter(|byte: u8| byte == 10).len()
    ||| node.end_row != bytes.take(node.end_byte as int).filter(|byte: u8| byte == 10).len()
}

/// Parsing fails for nothing but an impossible node, and says which file it was.
pub proof fn parsing_fails_for_impossible_trees_only(
    parser: &mut SolidityParser,
    source: &str,
    file: &str,
    error: ParserError,
)
    requires
        source.spec_bytes().len() <= u32::MAX,
        source.spec_bytes().len() < usize::MAX,
        call_ensures(
            SolidityParser::parse_source,
            (parser, source, file),
            Err::<Vec<FunctionChunk>, ParserError>(error),
        ),
    ensures
        error is MalformedTree,
        error->MalformedTree_0@ == file@,
        exists|i: int|
            0 <= i < solidity_nodes(source@).len() && is_impossible(
                #[trigger] solidity_nodes(source@)[i],
                source@,
            ),
{
    let nodes = solidity_nodes(source@);
    let bytes = encode_utf8(source@);
    if forall|i: int| 0 <= i < nodes.len() ==> !is_impossible(#[trigger] nodes[i], source@) {
        assert forall|i: int| 0 <= i < nodes.len() implies #[trigger] node_fits(nodes[i], source@)
            && nodes[i].start_row == line_feeds(bytes, nodes[i].start_byte as int)
            && nodes[i].end_row == line_feeds(bytes, nodes[i].end_byte as int) by {
            assert(!is_impossible(nodes[i], source@));
            lines_are_counted_by_line_feeds(bytes, nodes[i].start_byte as int);
            lines_are_counted_by_line_feeds(bytes, nodes[i].end_byte as int);
            bytes.take(nodes[i].start_byte as int).lemma_filter_len(|byte: u8| byte == 10);
            bytes.take(nodes[i].end_byte as int).lemma_filter_len(|byte: u8| byte == 10);
        }
        assert forall|i: int| 0 <= i < nodes.len() implies (#[trigger] nodes[i]).start_row
            == line_feeds(bytes, nodes[i].start_byte as int) && nodes[i].end_row == line_feeds(
            bytes,
            nodes[i].end_byte as int,
        ) by {
            assert(node_fits(nodes[i], source@));
        }
        assert(tree_fits(nodes, source@) && rows_fit(nodes, source@));
    }
}

/// Asking whether a node of this kind is a contract answers by the kind.
pub proof fn asking_for_contracts_answers_by_kind(kind: &str, node: NodeView, found: bool)
    requires
        call_ensures(match_node, (kind,), found),
        node.kind == kind@,
    ensures
        found <==> holds_a_contract(node),
{
    kinds_are_told_apart(node, DefinitionKind::Function);
}

} // verus!
