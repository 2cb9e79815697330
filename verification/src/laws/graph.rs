//! Promises of the topology: what names refer to, what is linked, and how risky a
//! definition is.
use vstd::prelude::*;
use vstd::string::*;

use crate::columns::text_view;
use crate::laws::retrieval::{
    belongs_to_the_language, builtins_belong_to_the_language, heads_are_found, is_written,
};
use crate::laws::text::{
    a_text_holds_what_it_is_made_of, is_free_of, texts_are_cut_at_the_first_mark,
    what_follows_the_last_mark_is_found,
};
use crate::ordered::{ascending, viewed, OrderedSet};
use crate::storage::{str_views, StoredChunk, StoredChunkView};
use crate::text::{contains_text, text_before};
use crate::viewer::{viewer_html, VIEWER_HEAD, VIEWER_TAIL};
use crate::visualizer::{
    build_graph, calls_low_level, color_of, defines, definitions_have_their_nodes, group_of,
    has_keyword, has_low_level_call, holds_keyword, is_guard, is_guarded, is_lowercase, is_open,
    is_undefined, keywords_are_whole_words, known_guards, lemma_named, lemma_synthesized_drawn,
    line_count, link_before, links_are_the_references, lists_nodes, looked_up, lookup,
    low_level_marks, modifier_set, named, names_modifier, node_id, node_id_of, node_ids,
    one_contract, other_nodes_are_synthesized, refers_by, resolve_symbol, resolved, risk_of,
    risk_score, stands_alone, synthesized, synthesizes, topology, touches, CodeGraph, FunctionIndex,
    GraphLink, GraphNodeView, ResolvedTarget, TargetView,
};

verus! {

// ---------------------------------------------------------------- words

/// A character of a word: a letter, a digit or an underscore.
pub open spec fn is_of_a_word(c: char) -> bool {
    let code = c as int;
    48 <= code <= 57 || 65 <= code <= 90 || 97 <= code <= 122 || code == 95
}

/// A text holds a word that is not part of a longer one.
pub open spec fn holds_word(text: Seq<char>, word: Seq<char>) -> bool {
    exists|before: Seq<char>, after: Seq<char>|
        text == #[trigger] (before + word + after) && (before.len() == 0 || !is_of_a_word(
            before.last(),
        )) && (after.len() == 0 || !is_of_a_word(after[0]))
}

/// A keyword is found where it stands as a word, and only there.
pub proof fn keywords_are_found_as_words(text: Seq<char>, keyword: Seq<char>)
    requires
        forall|i: int| 0 <= i < keyword.len() ==> is_of_a_word(#[trigger] keyword[i]),
    ensures
        holds_keyword(text, seq![keyword]) <==> holds_word(text, keyword),
{
    keywords_are_whole_words(text, keyword);
    if exists|i: int| stands_alone(text, keyword, i) {
        let i = choose|i: int| stands_alone(text, keyword, i);
        let before = text.take(i);
        let after = text.skip(i + keyword.len());
        assert(text =~= before + text.subrange(i, i + keyword.len()) + after);
        assert(text == before + keyword + after);
    }
    if holds_word(text, keyword) {
        let (before, after) = choose|before: Seq<char>, after: Seq<char>|
            text == #[trigger] (before + keyword + after) && (before.len() == 0 || !is_of_a_word(
                before.last(),
            )) && (after.len() == 0 || !is_of_a_word(after[0]));
        let i = before.len() as int;
        assert(text.subrange(i, i + keyword.len()) =~= keyword);
        if i > 0 {
            assert(text[i - 1] == before.last());
        }
        if after.len() > 0 {
            assert(text[i + keyword.len()] == after[0]);
        }
        assert(stands_alone(text, keyword, i));
    }
}

proof fn lemma_either_keyword(text: Seq<char>, a: Seq<char>, b: Seq<char>)
    requires
        forall|i: int| 0 <= i < a.len() ==> is_of_a_word(#[trigger] a[i]),
        forall|i: int| 0 <= i < b.len() ==> is_of_a_word(#[trigger] b[i]),
    ensures
        holds_keyword(text, seq![a, b]) <==> holds_word(text, a) || holds_word(text, b),
{
    keywords_are_found_as_words(text, a);
    keywords_are_found_as_words(text, b);
    let all = crate::visualizer::words(text);
    assert(seq![a, b][0] == a && seq![a, b][1] == b);
    assert(seq![a][0] == a);
    assert(seq![b][0] == b);
    if holds_keyword(text, seq![a, b]) {
        let i = choose|i: int| 0 <= i < all.len() && seq![a, b].contains(#[trigger] all[i]);
        assert(all[i] == a || all[i] == b);
        assert(seq![a].contains(all[i]) || seq![b].contains(all[i]));
    }
    if holds_keyword(text, seq![a]) {
        let i = choose|i: int| 0 <= i < all.len() && seq![a].contains(#[trigger] all[i]);
        assert(seq![a, b].contains(all[i]));
    }
    if holds_keyword(text, seq![b]) {
        let i = choose|i: int| 0 <= i < all.len() && seq![b].contains(#[trigger] all[i]);
        assert(seq![a, b].contains(all[i]));
    }
}

// ---------------------------------------------------------------- risk

/// Code that calls another account's code directly, or ends the contract.
pub open spec fn makes_low_level_call(code: Seq<char>) -> bool {
    ||| contains_text(code, ".call("@) || contains_text(code, ".call{"@)
    ||| contains_text(code, ".delegatecall("@) || contains_text(code, ".delegatecall{"@)
    ||| contains_text(code, ".staticcall("@)
    ||| contains_text(code, "selfdestruct("@)
}

/// Low-level calls are known by how they are written.
pub proof fn low_level_calls_are_known_by_their_text(code: Seq<char>)
    ensures
        calls_low_level(code) <==> makes_low_level_call(code),
{
    let marks = low_level_marks();
    assert(marks.len() == 6);
    if calls_low_level(code) {
        let i = choose|i: int| 0 <= i < marks.len() && contains_text(code, #[trigger] marks[i]);
        assert(contains_text(code, marks[i]));
    }
    if makes_low_level_call(code) {
        assert(marks[0] == ".call("@ && marks[1] == ".call{"@);
        assert(marks[2] == ".delegatecall("@ && marks[3] == ".delegatecall{"@);
        assert(marks[4] == ".staticcall("@ && marks[5] == "selfdestruct("@);
    }
}

/// A guard: a modifier of the codebase or one that is known by its name.
pub open spec fn guards(symbol: Seq<char>, modifiers: Set<Seq<char>>) -> bool {
    ||| modifiers.contains(symbol)
    ||| symbol == "nonReentrant"@ || symbol == "onlyOwner"@ || symbol == "onlyRole"@
    ||| symbol == "whenNotPaused"@ || symbol == "whenPaused"@
    ||| symbol == "initializer"@ || symbol == "reinitializer"@
}

/// A definition that some guard protects.
pub open spec fn is_protected(symbols: Seq<Seq<char>>, modifiers: Set<Seq<char>>) -> bool {
    exists|symbol: Seq<char>| symbols.contains(symbol) && #[trigger] guards(symbol, modifiers)
}

proof fn lemma_protected(symbols: Seq<Seq<char>>, modifiers: Set<Seq<char>>)
    ensures
        is_guarded(symbols, modifiers) <==> is_protected(symbols, modifiers),
{
    let known = known_guards();
    assert(known.len() == 7);
    assert(known[0] == "nonReentrant"@ && known[1] == "onlyOwner"@ && known[2] == "onlyRole"@);
    assert(known[3] == "whenNotPaused"@ && known[4] == "whenPaused"@);
    assert(known[5] == "initializer"@ && known[6] == "reinitializer"@);
    assert forall|symbol: Seq<char>| #[trigger]
        guards(symbol, modifiers) == is_guard(symbol, modifiers) by {
        if known.contains(symbol) {
            let i = known.index_of(symbol);
            assert(known[i] == symbol);
        }
    }
    if is_guarded(symbols, modifiers) {
        let i = choose|i: int|
            0 <= i < symbols.len() && is_guard(#[trigger] symbols[i], modifiers);
        assert(guards(symbols[i], modifiers));
    }
    if is_protected(symbols, modifiers) {
        let symbol = choose|symbol: Seq<char>|
            symbols.contains(symbol) && #[trigger] guards(symbol, modifiers);
        let i = symbols.index_of(symbol);
        assert(is_guard(symbols[i], modifiers));
    }
}

/// A signature that lets anyone call what may change state: it holds the word
/// `public` or `external`, and neither the word `view` nor the word `pure`.
pub open spec fn is_exposed(signature: Seq<char>) -> bool {
    (holds_word(signature, "public"@) || holds_word(signature, "external"@)) && !holds_word(
        signature,
        "view"@,
    ) && !holds_word(signature, "pure"@)
}

proof fn lemma_exposed(signature: Seq<char>)
    ensures
        is_open(signature) <==> is_exposed(signature),
{
    reveal_strlit("public");
    reveal_strlit("external");
    reveal_strlit("view");
    reveal_strlit("pure");
    lemma_either_keyword(signature, "public"@, "external"@);
    lemma_either_keyword(signature, "view"@, "pure"@);
}

/// What each property of a definition adds to its risk, and what a guard takes off it,
/// whatever else the definition is.
pub proof fn risk_is_added_up(
    chunk: StoredChunkView,
    modifiers: Set<Seq<char>>,
    touches_state: bool,
    signature: Seq<char>,
    rest: Seq<char>,
)
    requires
        chunk.code_content == signature + rest,
        !signature.contains('{'),
        rest.len() == 0 || rest[0] == '{',
    ensures
        ({
            let low = makes_low_level_call(chunk.code_content);
            let exposed = touches_state && is_exposed(signature);
            let entry = chunk.kind == "fallback_or_receive"@;
            let protected = is_protected(chunk.referenced_symbols, modifiers);
            let risk = risk_of(chunk, modifiers, touches_state);
            let danger: int = (if low {
                4int
            } else {
                0
            }) + (if exposed {
                3int
            } else {
                0
            }) + (if entry {
                2int
            } else {
                0
            });
            &&& !protected ==> risk == danger
            &&& protected && danger >= 3 ==> risk == danger - 3
            &&& protected && danger < 3 ==> risk == 0
        }),
{
    lemma_exposed(signature);
    lemma_protected(chunk.referenced_symbols, modifiers);
    low_level_calls_are_known_by_their_text(chunk.code_content);
    let marks = seq!['{'];
    assert(marks[0] == '{');
    assert(is_free_of(signature, marks)) by {
        assert forall|i: int| 0 <= i < signature.len() implies !marks.contains(
            #[trigger] signature[i],
        ) by {
            assert(signature.contains(signature[i]));
        }
    }
    assert(rest.len() == 0 || marks.contains(rest[0]));
    texts_are_cut_at_the_first_mark(signature, rest, marks);
}

/// A definition without a guard that touches state, and that anyone can call, has a
/// risk of three at least, and of three exactly where nothing else adds to it.
pub proof fn exposed_definitions_are_risky(
    chunk: StoredChunkView,
    modifiers: Set<Seq<char>>,
    signature: Seq<char>,
    rest: Seq<char>,
)
    requires
        chunk.code_content == signature + rest,
        !signature.contains('{'),
        rest.len() == 0 || rest[0] == '{',
        !is_protected(chunk.referenced_symbols, modifiers),
        holds_word(signature, "public"@) || holds_word(signature, "external"@),
        !holds_word(signature, "view"@),
        !holds_word(signature, "pure"@),
    ensures
        risk_of(chunk, modifiers, true) >= 3,
        !makes_low_level_call(chunk.code_content) && chunk.kind != "fallback_or_receive"@
            ==> risk_of(chunk, modifiers, true) == 3,
        risk_of(chunk, modifiers, true) == risk_of(chunk, modifiers, false) + 3,
{
    risk_is_added_up(chunk, modifiers, true, signature, rest);
    risk_is_added_up(chunk, modifiers, false, signature, rest);
}

/// A further guard takes three off the risk of a definition that had none, or all of it.
pub proof fn guards_lower_the_risk(
    chunk: StoredChunkView,
    guard: Seq<char>,
    modifiers: Set<Seq<char>>,
    touches_state: bool,
    signature: Seq<char>,
    rest: Seq<char>,
)
    requires
        chunk.code_content == signature + rest,
        !signature.contains('{'),
        rest.len() == 0 || rest[0] == '{',
        !is_protected(chunk.referenced_symbols, modifiers),
        guards(guard, modifiers),
    ensures
        ({
            let guarded = StoredChunkView {
                referenced_symbols: chunk.referenced_symbols.push(guard),
                ..chunk
            };
            let before = risk_of(chunk, modifiers, touches_state);
            let after = risk_of(guarded, modifiers, touches_state);
            if before >= 3 {
                after == before - 3
            } else {
                after == 0
            }
        }),
{
    let guarded = StoredChunkView {
        referenced_symbols: chunk.referenced_symbols.push(guard),
        ..chunk
    };
    let n = chunk.referenced_symbols.len() as int;
    assert(guarded.referenced_symbols[n] == guard);
    assert(is_protected(guarded.referenced_symbols, modifiers));
    risk_is_added_up(chunk, modifiers, touches_state, signature, rest);
    risk_is_added_up(guarded, modifiers, touches_state, signature, rest);
}

// ---------------------------------------------------------------- lookup

/// Chunk `i` defines a function of the name.
pub open spec fn has_function(chunks: Seq<StoredChunkView>, i: int, name: Seq<char>) -> bool {
    0 <= i < chunks.len() && chunks[i].function_name == name
}

/// A name is looked up in the contract itself first, then in the only other contract
/// that defines it; where several others do, or none, nothing is found.
pub proof fn names_are_looked_up_in_the_nearest_contract(
    chunks: Seq<StoredChunkView>,
    contract: Seq<char>,
    name: Seq<char>,
)
    requires
        chunks.len() <= usize::MAX,
    ensures
        (exists|i: int| #[trigger]
            has_function(chunks, i, name) && chunks[i].contract_name == contract) ==> looked_up(
            chunks,
            contract,
            name,
        ) == Some(contract + "::"@ + name),
        forall|i: int| #[trigger]
            has_function(chunks, i, name) && (forall|j: int| #[trigger]
                has_function(chunks, j, name) ==> chunks[j].contract_name
                    == chunks[i].contract_name) ==> looked_up(chunks, contract, name) == Some(
                chunks[i].contract_name + "::"@ + name,
            ),
        (forall|i: int| !#[trigger] has_function(chunks, i, name)) ==> looked_up(
            chunks,
            contract,
            name,
        ) is None,
        forall|i: int, j: int| #[trigger]
            has_function(chunks, i, name) && #[trigger] has_function(chunks, j, name)
                && chunks[i].contract_name != chunks[j].contract_name && (forall|k: int| #[trigger]
                has_function(chunks, k, name) ==> chunks[k].contract_name != contract)
                ==> looked_up(chunks, contract, name) is None,
{
    lemma_named(chunks, name);
    assert forall|i: int, j: int| #[trigger]
        has_function(chunks, i, name) && #[trigger] has_function(chunks, j, name)
            && one_contract(chunks, name) implies chunks[i].contract_name
        == chunks[j].contract_name by {}
    if defines(chunks, contract, name) {
        let i = choose|i: int|
            0 <= i < chunks.len() && (#[trigger] chunks[i]).function_name == name
                && chunks[i].contract_name == contract;
        assert(has_function(chunks, i, name));
    }
    if exists|i: int| #[trigger]
        has_function(chunks, i, name) && chunks[i].contract_name == contract {
        let i = choose|i: int| #[trigger]
            has_function(chunks, i, name) && chunks[i].contract_name == contract;
        assert(chunks[i].function_name == name);
        assert(defines(chunks, contract, name));
    }
    assert forall|i: int| #[trigger]
        has_function(chunks, i, name) && (forall|j: int| #[trigger]
            has_function(chunks, j, name) ==> chunks[j].contract_name
                == chunks[i].contract_name) implies looked_up(chunks, contract, name) == Some(
        chunks[i].contract_name + "::"@ + name,
    ) by {
        assert(named(chunks, name).contains(i as usize));
        let first = named(chunks, name)[0] as int;
        assert(has_function(chunks, first, name));
        assert forall|m: int, n: int|
            0 <= m < chunks.len() && 0 <= n < chunks.len() && (#[trigger] chunks[m]).function_name
                == name && (#[trigger] chunks[n]).function_name == name implies chunks[m].contract_name
            == chunks[n].contract_name by {
            assert(has_function(chunks, m, name) && has_function(chunks, n, name));
        }
    }
    if named(chunks, name).len() > 0 {
        assert(has_function(chunks, named(chunks, name)[0] as int, name));
    }
}

// ---------------------------------------------------------------- symbols

/// A symbol without a head, or of the language itself, stands for nothing.
pub proof fn the_languages_own_names_stand_for_nothing(
    chunks: Seq<StoredChunkView>,
    contract: Seq<char>,
    symbol: Seq<char>,
    lead: Seq<char>,
    head: Seq<char>,
    trail: Seq<char>,
    rest: Seq<char>,
)
    requires
        is_written(symbol, lead, head, trail, rest),
        !head.contains('.'),
        head.len() == 0 || belongs_to_the_language(head),
    ensures
        resolved(chunks, contract, symbol) is Skip,
{
    heads_are_found(symbol, lead, head, trail, rest);
    builtins_belong_to_the_language(head);
    what_follows_the_last_mark_is_found(Seq::empty(), head, '.');
}

/// A plain symbol stands for the definition that its name is looked up as; or else,
/// where it starts with a small letter or an underscore, for a state variable; and
/// otherwise for nothing.
pub proof fn plain_symbols_stand_for_definitions_or_variables(
    chunks: Seq<StoredChunkView>,
    contract: Seq<char>,
    symbol: Seq<char>,
    lead: Seq<char>,
    head: Seq<char>,
    trail: Seq<char>,
    rest: Seq<char>,
)
    requires
        is_written(symbol, lead, head, trail, rest),
        head.len() > 0,
        !head.contains('.'),
        !belongs_to_the_language(head),
    ensures
        looked_up(chunks, contract, head) is Some ==> resolved(chunks, contract, symbol)
            == TargetView::Definition(looked_up(chunks, contract, head)->0),
        looked_up(chunks, contract, head) is None && (97 <= head[0] as int <= 122 || head[0]
            == '_') ==> resolved(chunks, contract, symbol) == TargetView::StateVariable(head),
        looked_up(chunks, contract, head) is None && (head[0] as int) < 97 && head[0] != '_'
            ==> resolved(chunks, contract, symbol) is Skip,
        looked_up(chunks, contract, head) is None && 122 < (head[0] as int) < 128 ==> resolved(
            chunks,
            contract,
            symbol,
        ) is Skip,
        looked_up(chunks, contract, head) is None && head[0] as int >= 128 ==> resolved(
            chunks,
            contract,
            symbol,
        ) == if is_lowercase(head[0]) {
            TargetView::StateVariable(head)
        } else {
            TargetView::Skip
        },
{
    heads_are_found(symbol, lead, head, trail, rest);
    builtins_belong_to_the_language(head);
    what_follows_the_last_mark_is_found(Seq::empty(), head, '.');
}

/// A dotted symbol stands for the definition that its last name is looked up as, or
/// else for an outside callee; where that name belongs to the language, for nothing.
pub proof fn dotted_symbols_stand_for_definitions_or_callees(
    chunks: Seq<StoredChunkView>,
    contract: Seq<char>,
    symbol: Seq<char>,
    lead: Seq<char>,
    head: Seq<char>,
    trail: Seq<char>,
    rest: Seq<char>,
    front: Seq<char>,
    name: Seq<char>,
)
    requires
        is_written(symbol, lead, head, trail, rest),
        head == front + seq!['.'] + name,
        !name.contains('.'),
    ensures
        resolved(chunks, contract, symbol) == if belongs_to_the_language(name) {
            TargetView::Skip
        } else if looked_up(chunks, contract, name) is Some {
            TargetView::Definition(looked_up(chunks, contract, name)->0)
        } else {
            TargetView::ExternalCall(head)
        },
{
    heads_are_found(symbol, lead, head, trail, rest);
    builtins_belong_to_the_language(name);
    what_follows_the_last_mark_is_found(front, name, '.');
    assert(head[front.len() as int] == '.');
}

// ---------------------------------------------------------------- nodes and links

/// The id of the node of a definition.
pub open spec fn is_id_of(id: Seq<char>, chunk: StoredChunkView) -> bool {
    id == chunk.contract_name + "::"@ + chunk.function_name
}

/// A symbol of a chunk leads to a node.
pub open spec fn leads_to(
    chunks: Seq<StoredChunkView>,
    from: StoredChunkView,
    symbol: Seq<char>,
    id: Seq<char>,
) -> bool {
    match resolved(chunks, from.contract_name, symbol) {
        TargetView::Definition(target) => id == target && !is_id_of(id, from),
        TargetView::StateVariable(name) => id == from.contract_name + "::"@ + name,
        TargetView::ExternalCall(callee) => id == callee,
        TargetView::Skip => false,
    }
}

/// A link goes from a definition to each node that one of its symbols leads to, and
/// nowhere else.
pub proof fn links_follow_the_symbols(
    chunks: Seq<StoredChunkView>,
    source: Seq<char>,
    target: Seq<char>,
)
    ensures
        topology(chunks).links.contains((source, target)) <==> exists|i: int, j: int|
            0 <= i < chunks.len() && 0 <= j < chunks[i].referenced_symbols.len() && is_id_of(
                source,
                chunks[i],
            ) && leads_to(chunks, chunks[i], #[trigger] chunks[i].referenced_symbols[j], target),
{
    links_are_the_references(chunks, source, target);
    assert forall|i: int, j: int|
        0 <= i < chunks.len() && 0 <= j < chunks[i].referenced_symbols.len() implies refers_by(
        chunks,
        chunks[i],
        #[trigger] chunks[i].referenced_symbols[j],
        target,
    ) == leads_to(chunks, chunks[i], chunks[i].referenced_symbols[j], target) by {
    }
    assert forall|i: int| 0 <= i < chunks.len() implies is_id_of(source, #[trigger] chunks[i]) == (
    source == node_id_of(chunks[i])) by {
    }
    if topology(chunks).links.contains((source, target)) {
        let (i, j) = choose|i: int, j: int|
            0 <= i < chunks.len() && 0 <= j < chunks[i].referenced_symbols.len() && source
                == node_id_of(chunks[i]) && refers_by(
                chunks,
                chunks[i],
                #[trigger] chunks[i].referenced_symbols[j],
                target,
            );
        assert(leads_to(chunks, chunks[i], chunks[i].referenced_symbols[j], target));
    }
    if exists|i: int, j: int|
        0 <= i < chunks.len() && 0 <= j < chunks[i].referenced_symbols.len() && is_id_of(
            source,
            chunks[i],
        ) && leads_to(chunks, chunks[i], #[trigger] chunks[i].referenced_symbols[j], target) {
        let (i, j) = choose|i: int, j: int|
            0 <= i < chunks.len() && 0 <= j < chunks[i].referenced_symbols.len() && is_id_of(
                source,
                chunks[i],
            ) && leads_to(chunks, chunks[i], #[trigger] chunks[i].referenced_symbols[j], target);
        assert(refers_by(chunks, chunks[i], chunks[i].referenced_symbols[j], target));
    }
}

/// A symbol adds the node of a state variable of its contract.
pub open spec fn adds_variable(
    chunks: Seq<StoredChunkView>,
    from: StoredChunkView,
    symbol: Seq<char>,
    id: Seq<char>,
) -> bool {
    resolved(chunks, from.contract_name, symbol) matches TargetView::StateVariable(name) && id
        == from.contract_name + "::"@ + name
}

/// A symbol adds the node of an outside callee.
pub open spec fn adds_callee(
    chunks: Seq<StoredChunkView>,
    from: StoredChunkView,
    symbol: Seq<char>,
    id: Seq<char>,
) -> bool {
    resolved(chunks, from.contract_name, symbol) == TargetView::ExternalCall(id)
}

/// Some symbol of the codebase adds the node of an id.
pub open spec fn is_added(chunks: Seq<StoredChunkView>, id: Seq<char>) -> bool {
    exists|i: int, j: int|
        0 <= i < chunks.len() && 0 <= j < chunks[i].referenced_symbols.len() && (adds_variable(
            chunks,
            chunks[i],
            #[trigger] chunks[i].referenced_symbols[j],
            id,
        ) || adds_callee(chunks, chunks[i], chunks[i].referenced_symbols[j], id))
}

/// The nodes are those of the definitions, of the state variables and of the outside
/// callees that symbols stand for, and no others.
pub proof fn nodes_are_definitions_variables_and_callees(
    chunks: Seq<StoredChunkView>,
    id: Seq<char>,
)
    ensures
        topology(chunks).nodes.dom().contains(id) <==> (exists|i: int|
            0 <= i < chunks.len() && is_id_of(id, #[trigger] chunks[i])) || is_added(chunks, id),
        topology(chunks).nodes.dom().contains(id) ==> topology(chunks).nodes[id].id == id,
{
    if is_undefined(chunks, id) {
        assert(!(exists|i: int| 0 <= i < chunks.len() && is_id_of(id, #[trigger] chunks[i]))) by {
            if exists|i: int| 0 <= i < chunks.len() && is_id_of(id, #[trigger] chunks[i]) {
                let i = choose|i: int| 0 <= i < chunks.len() && is_id_of(id, #[trigger] chunks[i]);
                assert(node_id_of(chunks[i]) != id);
            }
        }
        if topology(chunks).nodes.dom().contains(id) {
            other_nodes_are_synthesized(chunks, id);
            let node = topology(chunks).nodes[id];
            let (i, j) = choose|i: int, j: int|
                0 <= i < chunks.len() && 0 <= j < chunks[i].referenced_symbols.len()
                    && synthesized(chunks, chunks[i], #[trigger] chunks[i].referenced_symbols[j])
                    == Some(node);
            assert(adds_variable(chunks, chunks[i], chunks[i].referenced_symbols[j], id)
                || adds_callee(chunks, chunks[i], chunks[i].referenced_symbols[j], id));
        }
    } else {
        let last = crate::visualizer::lemma_last_definition(chunks, id);
        definitions_have_their_nodes(chunks, last);
        assert(is_id_of(id, chunks[last]));
    }
    if is_added(chunks, id) {
        let (i, j) = choose|i: int, j: int|
            0 <= i < chunks.len() && 0 <= j < chunks[i].referenced_symbols.len() && (adds_variable(
                chunks,
                chunks[i],
                #[trigger] chunks[i].referenced_symbols[j],
                id,
            ) || adds_callee(chunks, chunks[i], chunks[i].referenced_symbols[j], id));
        let symbol = chunks[i].referenced_symbols[j];
        let node = synthesized(chunks, chunks[i], symbol)->0;
        assert(synthesized(chunks, chunks[i], chunks[i].referenced_symbols[j]) == Some(node));
        assert(synthesizes(chunks, node));
        lemma_synthesized_drawn(chunks, node);
        assert(node.id == id);
    }
}

/// How a definition is drawn: its group by its kind; its color by its kind too, unless
/// it makes a low-level call; its risk by the modifiers of the whole codebase and by
/// whether any of its symbols stands for a state variable.
pub proof fn definitions_are_drawn_as_what_they_are(
    chunks: Seq<StoredChunkView>,
    i: int,
    modifiers: Set<Seq<char>>,
    touches_state: bool,
)
    requires
        0 <= i < chunks.len(),
        forall|k: int| i < k < chunks.len() ==> !is_id_of(
            chunks[i].contract_name + "::"@ + chunks[i].function_name,
            #[trigger] chunks[k],
        ),
        forall|name: Seq<char>| #[trigger]
            modifiers.contains(name) <==> exists|k: int|
                #[trigger] has_function(chunks, k, name) && chunks[k].kind == "modifier"@,
        touches_state == exists|j: int|
            0 <= j < chunks[i].referenced_symbols.len() && resolved(
                chunks,
                chunks[i].contract_name,
                #[trigger] chunks[i].referenced_symbols[j],
            ) is StateVariable,
    ensures
        ({
            let chunk = chunks[i];
            let id = chunk.contract_name + "::"@ + chunk.function_name;
            let node = topology(chunks).nodes[id];
            let low = makes_low_level_call(chunk.code_content);
            &&& topology(chunks).nodes.dom().contains(id)
            &&& node.id == id
            &&& node.risk_score == risk_of(chunk, modifiers, touches_state)
            &&& node.size == crate::visualizer::size_for(line_count(chunk))
            &&& line_count(chunk) == if chunk.end_line < chunk.start_line {
                1
            } else {
                chunk.end_line - chunk.start_line + 1
            }
            &&& chunk.kind == "constructor"@ ==> node.group == "constructor"@
            &&& chunk.kind == "modifier"@ ==> node.group == "modifier"@
            &&& chunk.kind == "fallback_or_receive"@ ==> node.group == "receive"@
            &&& chunk.kind != "constructor"@ && chunk.kind != "modifier"@ && chunk.kind
                != "fallback_or_receive"@ ==> node.group == "function"@
            &&& low ==> node.color == "#ff0055"@
            &&& !low && chunk.kind == "constructor"@ ==> node.color == "#ffd166"@
            &&& !low && chunk.kind == "modifier"@ ==> node.color == "#8a2be2"@
            &&& !low && chunk.kind == "fallback_or_receive"@ ==> node.color == "#ff8c42"@
            &&& !low && chunk.kind != "constructor"@ && chunk.kind != "modifier"@ && chunk.kind
                != "fallback_or_receive"@ ==> node.color == "#4e7cff"@
        }),
{
    let chunk = chunks[i];
    low_level_calls_are_known_by_their_text(chunk.code_content);
    assert forall|k: int| i < k < chunks.len() implies node_id_of(#[trigger] chunks[k])
        != node_id_of(chunks[i]) by {
        assert(!is_id_of(node_id_of(chunks[i]), chunks[k]));
    }
    definitions_have_their_nodes(chunks, i);
    assert(modifiers =~= modifier_set(chunks)) by {
        assert forall|name: Seq<char>| #[trigger] modifiers.contains(name) == names_modifier(
            chunks,
            name,
        ) by {
            if names_modifier(chunks, name) {
                let k = choose|k: int|
                    0 <= k < chunks.len() && (#[trigger] chunks[k]).kind == "modifier"@
                        && chunks[k].function_name == name;
                assert(has_function(chunks, k, name) && chunks[k].kind == "modifier"@);
            }
            if modifiers.contains(name) {
                let k = choose|k: int| #[trigger]
                    has_function(chunks, k, name) && chunks[k].kind == "modifier"@;
                assert(chunks[k].kind == "modifier"@ && chunks[k].function_name == name);
            }
        }
    }
    assert(touches_state == touches(chunks, chunk));
    crate::visualizer::risk_follows_the_rules(chunk, modifiers, touches_state);
    reveal_strlit("constructor");
    reveal_strlit("modifier");
    reveal_strlit("fallback_or_receive");
    assert("constructor"@.len() == 11 && "modifier"@.len() == 8 && "fallback_or_receive"@.len()
        == 19);
}

/// How state variables and outside callees are drawn.
pub proof fn variables_and_callees_are_drawn_alike(chunks: Seq<StoredChunkView>, id: Seq<char>)
    requires
        topology(chunks).nodes.dom().contains(id),
        forall|i: int| 0 <= i < chunks.len() ==> !is_id_of(id, #[trigger] chunks[i]),
    ensures
        ({
            let node = topology(chunks).nodes[id];
            &&& node.risk_score == 0
            &&& {
                ||| node.group == "state_variable"@ && node.color == "#00ffcc"@ && node.size
                    == 0x4014_0000_0000_0000
                ||| node.group == "external_call"@ && node.color == "#94a3b8"@ && node.size
                    == 0x4018_0000_0000_0000
            }
            &&& node.group == "state_variable"@ ==> exists|i: int, j: int|
                0 <= i < chunks.len() && 0 <= j < chunks[i].referenced_symbols.len()
                    && adds_variable(chunks, chunks[i], #[trigger] chunks[i].referenced_symbols[j], id)
            &&& node.group == "external_call"@ ==> exists|i: int, j: int|
                0 <= i < chunks.len() && 0 <= j < chunks[i].referenced_symbols.len()
                    && adds_callee(chunks, chunks[i], #[trigger] chunks[i].referenced_symbols[j], id)
        }),
{
    assert(is_undefined(chunks, id)) by {
        assert forall|i: int| 0 <= i < chunks.len() implies node_id_of(#[trigger] chunks[i])
            != id by {
            assert(!is_id_of(id, chunks[i]));
        }
    }
    other_nodes_are_synthesized(chunks, id);
    let node = topology(chunks).nodes[id];
    reveal_strlit("state_variable");
    reveal_strlit("external_call");
    assert("state_variable"@.len() == 14 && "external_call"@.len() == 13);
    let (i, j) = choose|i: int, j: int|
        0 <= i < chunks.len() && 0 <= j < chunks[i].referenced_symbols.len() && synthesized(
            chunks,
            chunks[i],
            #[trigger] chunks[i].referenced_symbols[j],
        ) == Some(node);
    assert(adds_variable(chunks, chunks[i], chunks[i].referenced_symbols[j], id) || adds_callee(
        chunks,
        chunks[i],
        chunks[i].referenced_symbols[j],
        id,
    ));
}

/// The lists of a graph hold all its nodes and links, each once, the nodes in the order
/// of their ids and the links in the order of their sources, then of their targets.
pub proof fn lists_hold_the_whole_graph(
    chunks: Seq<StoredChunkView>,
    nodes: Seq<GraphNodeView>,
    links: Seq<(Seq<char>, Seq<char>)>,
)
    requires
        lists_nodes(topology(chunks).nodes, nodes),
        ascending::<GraphLink>(links),
        links.to_set() == topology(chunks).links,
    ensures
        forall|id: Seq<char>| #[trigger]
            topology(chunks).nodes.dom().contains(id) ==> nodes.contains(topology(chunks).nodes[id]),
        forall|i: int|
            0 <= i < nodes.len() ==> topology(chunks).nodes.dom().contains(
                (#[trigger] nodes[i]).id,
            ) && nodes[i] == topology(chunks).nodes[nodes[i].id],
        forall|i: int, j: int|
            0 <= i < j < nodes.len() ==> text_before((#[trigger] nodes[i]).id, (
            #[trigger] nodes[j]).id),
        forall|link: (Seq<char>, Seq<char>)| #[trigger]
            links.contains(link) <==> topology(chunks).links.contains(link),
        forall|i: int, j: int|
            0 <= i < j < links.len() ==> text_before((#[trigger] links[i]).0, (
            #[trigger] links[j]).0) || links[i].0 == links[j].0 && text_before(
                links[i].1,
                links[j].1,
            ),
{
    let map = topology(chunks).nodes;
    let ids = node_ids(nodes);
    assert forall|id: Seq<char>| #[trigger] map.dom().contains(id) implies nodes.contains(
        map[id],
    ) by {
        assert(ids.to_set().contains(id));
        let i = ids.index_of(id);
        assert(nodes[i].id == id);
        assert(nodes[i] == map[nodes[i].id]);
    }
    assert forall|i: int| 0 <= i < nodes.len() implies map.dom().contains((#[trigger] nodes[i]).id)
        && nodes[i] == map[nodes[i].id] by {
        assert(ids[i] == nodes[i].id);
        assert(ids.to_set().contains(ids[i]));
    }
    assert forall|i: int, j: int| 0 <= i < j < nodes.len() implies text_before(
        (#[trigger] nodes[i]).id,
        (#[trigger] nodes[j]).id,
    ) by {
        assert(ids[i] == nodes[i].id && ids[j] == nodes[j].id);
    }
    assert forall|link: (Seq<char>, Seq<char>)| #[trigger] links.contains(link) <==> topology(
        chunks,
    ).links.contains(link) by {
        assert(links.to_set().contains(link) <==> links.contains(link));
    }
    assert forall|i: int, j: int| 0 <= i < j < links.len() implies text_before(
        (#[trigger] links[i]).0,
        (#[trigger] links[j]).0,
    ) || links[i].0 == links[j].0 && text_before(links[i].1, links[j].1) by {
        assert(link_before(links[i], links[j]));
    }
}

// ---------------------------------------------------------------- the calls

/// Scoring answers with what the properties of the definition add up to.
pub proof fn scoring_answers_with_the_sum(
    chunk: &StoredChunk,
    modifiers: &OrderedSet<String>,
    touches_state: bool,
    score: u8,
    signature: Seq<char>,
    rest: Seq<char>,
)
    requires
        call_ensures(risk_score, (chunk, modifiers, touches_state), score),
        chunk@.code_content == signature + rest,
        !signature.contains('{'),
        rest.len() == 0 || rest[0] == '{',
    ensures
        ({
            let low: int = if makes_low_level_call(chunk@.code_content) {
                4
            } else {
                0
            };
            let exposed: int = if touches_state && is_exposed(signature) {
                3
            } else {
                0
            };
            let entry: int = if chunk@.kind == "fallback_or_receive"@ {
                2
            } else {
                0
            };
            let guarded: int = if is_protected(chunk@.referenced_symbols, modifiers@) {
                3
            } else {
                0
            };
            score == if low + exposed + entry < guarded {
                0
            } else {
                low + exposed + entry - guarded
            }
        }),
{
    risk_is_added_up(chunk@, modifiers@, touches_state, signature, rest);
}

/// Looking a name up answers with its own contract's definition, or that of the only
/// other contract that has one.
pub proof fn looking_up_answers_with_the_nearest_definition(
    name: &str,
    from: &StoredChunk,
    chunks: &Vec<StoredChunk>,
    index: &FunctionIndex,
    id: Option<String>,
)
    requires
        call_ensures(lookup, (name, from, chunks, index), id),
    ensures
        ({
            let all = viewed(chunks@);
            let own = exists|i: int| #[trigger]
                has_function(all, i, name@) && all[i].contract_name == from@.contract_name;
            &&& own ==> text_view(id) == Some(from@.contract_name + "::"@ + name@)
            &&& forall|i: int| #[trigger]
                has_function(all, i, name@) && (forall|j: int| #[trigger]
                    has_function(all, j, name@) ==> all[j].contract_name == all[i].contract_name)
                    ==> text_view(id) == Some(all[i].contract_name + "::"@ + name@)
            &&& (forall|i: int| !#[trigger] has_function(all, i, name@)) ==> id is None
            &&& forall|i: int, j: int| #[trigger]
                has_function(all, i, name@) && #[trigger] has_function(all, j, name@)
                    && all[i].contract_name != all[j].contract_name && !own ==> id is None
        }),
{
    assert(chunks.len() == viewed(chunks@).len());
    names_are_looked_up_in_the_nearest_contract(viewed(chunks@), from@.contract_name, name@);
}

/// Resolving a plain symbol answers as its head is looked up.
pub proof fn resolving_answers_for_plain_symbols(
    symbol: &str,
    from: &StoredChunk,
    chunks: &Vec<StoredChunk>,
    index: &FunctionIndex,
    target: ResolvedTarget,
    lead: Seq<char>,
    head: Seq<char>,
    trail: Seq<char>,
    rest: Seq<char>,
)
    requires
        call_ensures(resolve_symbol, (symbol, from, chunks, index), target),
        is_written(symbol@, lead, head, trail, rest),
        !head.contains('.'),
    ensures
        ({
            let found = looked_up(viewed(chunks@), from@.contract_name, head);
            &&& head.len() == 0 || belongs_to_the_language(head) ==> target is Skip
            &&& head.len() > 0 && !belongs_to_the_language(head) && found is Some ==> target@
                == TargetView::Definition(found->0)
            &&& head.len() > 0 && !belongs_to_the_language(head) && found is None && (97
                <= head[0] as int <= 122 || head[0] == '_') ==> target@
                == TargetView::StateVariable(head)
            &&& head.len() > 0 && !belongs_to_the_language(head) && found is None && (
            head[0] as int) < 97 && head[0] != '_' ==> target is Skip
        }),
{
    if head.len() == 0 || belongs_to_the_language(head) {
        the_languages_own_names_stand_for_nothing(
            viewed(chunks@),
            from@.contract_name,
            symbol@,
            lead,
            head,
            trail,
            rest,
        );
    } else {
        plain_symbols_stand_for_definitions_or_variables(
            viewed(chunks@),
            from@.contract_name,
            symbol@,
            lead,
            head,
            trail,
            rest,
        );
    }
}

/// Resolving a dotted symbol answers as its last name is looked up.
pub proof fn resolving_answers_for_dotted_symbols(
    symbol: &str,
    from: &StoredChunk,
    chunks: &Vec<StoredChunk>,
    index: &FunctionIndex,
    target: ResolvedTarget,
    lead: Seq<char>,
    head: Seq<char>,
    trail: Seq<char>,
    rest: Seq<char>,
    front: Seq<char>,
    name: Seq<char>,
)
    requires
        call_ensures(resolve_symbol, (symbol, from, chunks, index), target),
        is_written(symbol@, lead, head, trail, rest),
        head == front + seq!['.'] + name,
        !name.contains('.'),
    ensures
        ({
            let found = looked_up(viewed(chunks@), from@.contract_name, name);
            target@ == if belongs_to_the_language(name) {
                TargetView::Skip
            } else if found is Some {
                TargetView::Definition(found->0)
            } else {
                TargetView::ExternalCall(head)
            }
        }),
{
    dotted_symbols_stand_for_definitions_or_callees(
        viewed(chunks@),
        from@.contract_name,
        symbol@,
        lead,
        head,
        trail,
        rest,
        front,
        name,
    );
}

/// Building a graph answers with a node for each definition, state variable and outside
/// callee, and a link for each reference, and with no others.
pub proof fn building_answers_with_the_whole_graph(
    chunks: &Vec<StoredChunk>,
    graph: CodeGraph,
)
    requires
        call_ensures(build_graph, (chunks,), graph),
    ensures
        ({
            let all = viewed(chunks@);
            let nodes = viewed(graph.nodes@);
            let links = viewed(graph.links@);
            &&& forall|id: Seq<char>|
                (#[trigger] node_ids(nodes).contains(id)) <==> (exists|i: int|
                    0 <= i < all.len() && is_id_of(id, #[trigger] all[i])) || is_added(all, id)
            &&& forall|i: int, j: int|
                0 <= i < j < nodes.len() ==> text_before((#[trigger] nodes[i]).id, (
                #[trigger] nodes[j]).id)
            &&& forall|i: int|
                0 <= i < nodes.len() ==> (#[trigger] nodes[i]) == topology(all).nodes[nodes[i].id]
            &&& forall|source: Seq<char>, target: Seq<char>| #[trigger]
                links.contains((source, target)) <==> exists|i: int, j: int|
                    0 <= i < all.len() && 0 <= j < all[i].referenced_symbols.len() && is_id_of(
                        source,
                        all[i],
                    ) && leads_to(all, all[i], #[trigger] all[i].referenced_symbols[j], target)
            &&& forall|i: int, j: int|
                0 <= i < j < links.len() ==> text_before((#[trigger] links[i]).0, (
                #[trigger] links[j]).0) || links[i].0 == links[j].0 && text_before(
                    links[i].1,
                    links[j].1,
                )
        }),
{
    let all = viewed(chunks@);
    let nodes = viewed(graph.nodes@);
    let links = viewed(graph.links@);
    lists_hold_the_whole_graph(all, nodes, links);
    assert forall|id: Seq<char>|
        (#[trigger] node_ids(nodes).contains(id)) <==> (exists|i: int|
            0 <= i < all.len() && is_id_of(id, #[trigger] all[i])) || is_added(all, id) by {
        nodes_are_definitions_variables_and_callees(all, id);
        assert(node_ids(nodes).to_set().contains(id) <==> node_ids(nodes).contains(id));
    }
    assert forall|source: Seq<char>, target: Seq<char>| #[trigger]
        links.contains((source, target)) <==> exists|i: int, j: int|
            0 <= i < all.len() && 0 <= j < all[i].referenced_symbols.len() && is_id_of(
                source,
                all[i],
            ) && leads_to(all, all[i], #[trigger] all[i].referenced_symbols[j], target) by {
        links_follow_the_symbols(all, source, target);
    }
}

/// Asking for a keyword answers whether it stands in the text as a word.
pub proof fn asking_for_keywords_answers_by_words(
    signature: &str,
    keywords: &[&str],
    found: bool,
)
    requires
        call_ensures(has_keyword, (signature, keywords), found),
        forall|k: int, i: int|
            0 <= k < keywords@.len() && 0 <= i < keywords@[k]@.len() ==> is_of_a_word(
                #[trigger] keywords@[k]@[i],
            ),
    ensures
        found <==> exists|k: int|
            0 <= k < keywords@.len() && holds_word(signature@, (#[trigger] keywords@[k])@),
{
    let all = crate::visualizer::words(signature@);
    let list = str_views(keywords@);
    if found {
        let i = choose|i: int| 0 <= i < all.len() && list.contains(#[trigger] all[i]);
        let k = list.index_of(all[i]);
        assert(list[k] == keywords@[k]@);
        assert(seq![all[i]][0] == all[i]);
        assert(seq![all[i]].contains(all[i]));
        assert(holds_keyword(signature@, seq![all[i]]));
        assert forall|m: int| 0 <= m < all[i].len() implies is_of_a_word(#[trigger] all[i][m]) by {
            assert(is_of_a_word(keywords@[k]@[m]));
        }
        keywords_are_found_as_words(signature@, all[i]);
    }
    if exists|k: int|
        0 <= k < keywords@.len() && holds_word(signature@, (#[trigger] keywords@[k])@) {
        let k = choose|k: int|
            0 <= k < keywords@.len() && holds_word(signature@, (#[trigger] keywords@[k])@);
        let word = keywords@[k]@;
        assert forall|m: int| 0 <= m < word.len() implies is_of_a_word(#[trigger] word[m]) by {
            assert(is_of_a_word(keywords@[k]@[m]));
        }
        keywords_are_found_as_words(signature@, word);
        let i = choose|i: int| 0 <= i < all.len() && seq![word].contains(#[trigger] all[i]);
        assert(all[i] == word);
        assert(list[k] == word);
        assert(list.contains(all[i]));
    }
}

/// The viewer is one page for all graphs, with the graph in it and nothing else changed.
pub proof fn viewers_differ_in_their_graphs_only(
    a: &str,
    b: &str,
    page_a: String,
    page_b: String,
)
    requires
        call_ensures(viewer_html, (a,), page_a),
        call_ensures(viewer_html, (b,), page_b),
    ensures
        exists|head: Seq<char>, tail: Seq<char>|
            page_a@ == #[trigger] (head + a@ + tail) && page_b@ == head + b@ + tail,
        contains_text(page_a@, a@),
{
    let head = VIEWER_HEAD@;
    let tail = VIEWER_TAIL@;
    assert(page_a@ == head + a@ + tail);
    assert(page_b@ == head + b@ + tail);
    a_text_holds_what_it_is_made_of(head, a@, tail);
}

/// Colors, groups, ids and low-level calls are answered by what a definition is.
pub proof fn definitions_are_answered_for_by_what_they_are(
    chunk: &StoredChunk,
    code: &str,
    low: bool,
    color: &'static str,
    group: &'static str,
    id: String,
)
    requires
        code@ == chunk@.code_content,
        call_ensures(has_low_level_call, (code,), low),
        call_ensures(color_of, (chunk,), color),
        call_ensures(group_of, (chunk,), group),
        call_ensures(node_id, (chunk,), id),
    ensures
        low <==> makes_low_level_call(chunk@.code_content),
        id@ == chunk@.contract_name + "::"@ + chunk@.function_name,
        chunk@.kind == "constructor"@ ==> group@ == "constructor"@,
        chunk@.kind == "modifier"@ ==> group@ == "modifier"@,
        chunk@.kind == "fallback_or_receive"@ ==> group@ == "receive"@,
        chunk@.kind != "constructor"@ && chunk@.kind != "modifier"@ && chunk@.kind
            != "fallback_or_receive"@ ==> group@ == "function"@,
        low ==> color@ == "#ff0055"@,
        !low && group@ == "constructor"@ ==> color@ == "#ffd166"@,
        !low && group@ == "modifier"@ ==> color@ == "#8a2be2"@,
        !low && group@ == "receive"@ ==> color@ == "#ff8c42"@,
        !low && group@ == "function"@ ==> color@ == "#4e7cff"@,
{
    low_level_calls_are_known_by_their_text(chunk@.code_content);
    reveal_strlit("constructor");
    reveal_strlit("modifier");
    reveal_strlit("fallback_or_receive");
    reveal_strlit("receive");
    reveal_strlit("function");
    assert("constructor"@.len() == 11 && "modifier"@.len() == 8 && "fallback_or_receive"@.len()
        == 19);
    assert("receive"@.len() == 7 && "function"@.len() == 8 && "function"@[0] != "modifier"@[0]);
}

} // verus!
