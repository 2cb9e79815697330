//! Promises of the retrieval: what is harvested, what is expanded, and how it is
//! written down.
use vstd::prelude::*;
use vstd::string::*;

use crate::float::four_places_text;
use crate::laws::sorting::{sorting_orders, sorting_permutes};
use crate::laws::text::{
    is_bare, is_blank, is_free_of, texts_are_cut_at_the_first_mark,
    trimming_takes_white_space_off_both_ends, what_follows_the_last_mark_is_found,
};
use crate::ordered::{viewed, Key};
use crate::retrieval::{
    assemble, auxiliary_paths, beyond, builtin_names, chunk_section, closest_first,
    dependency_sections, document, excluded_paths, excluded_segments, exported, exported_chunks,
    first_pass, fuse_rrf, fusion_is_determined, harvest_symbols, harvested, head_of, hits_contract,
    hits_file, holds_segment, is_auxiliary, is_auxiliary_path, is_builtin, is_primary, localities,
    locality_before, locality_of, path_holds_segment, plan_search, primary_sections, rank_words,
    refers, render_chunk, retrieval_line, sort_by_locality, AssembledContext, FirstPass, Locality,
    RankedChunk, RankedView, RetrievalOptions, SearchPlan,
};
use crate::storage::{
    is_identifier, str_views, FtsResult, SearchResult, StoredChunk, StoredChunkView,
};
use crate::text::{decimal, joined, occurs_at, text_before, views};

verus! {

// ---------------------------------------------------------------- dependencies

/// No hit has the id of the chunk.
pub open spec fn is_no_hit(primary: Seq<RankedView>, chunk: StoredChunkView) -> bool {
    forall|i: int| 0 <= i < primary.len() ==> (#[trigger] primary[i]).chunk.id != chunk.id
}

proof fn lemma_beyond_filters(primary: Seq<RankedView>, found: Seq<StoredChunkView>)
    ensures
        beyond(primary, found) == found.filter(|chunk: StoredChunkView| is_no_hit(primary, chunk)),
    decreases found.len(),
{
    reveal(Seq::filter);
    if found.len() > 0 {
        lemma_beyond_filters(primary, found.drop_last());
        let chunk = found.last();
        if is_primary(primary, chunk.id) {
            let i = choose|i: int|
                0 <= i < primary.len() && (#[trigger] primary[i]).chunk.id == chunk.id;
            assert(!is_no_hit(primary, chunk));
        } else {
            assert(is_no_hit(primary, chunk));
        }
    } else {
        assert(beyond(primary, found) =~= found);
    }
}

/// The dependencies are what the second pass found, without the hits: each as often as
/// it was found, from wherever it comes.
pub proof fn dependencies_are_all_that_was_found_besides_the_hits(
    primary: Seq<RankedView>,
    found: Seq<StoredChunkView>,
    dependencies: Seq<StoredChunkView>,
)
    requires
        closest_first(primary, beyond(primary, found), dependencies),
    ensures
        dependencies.to_multiset() == found.filter(
            |chunk: StoredChunkView| is_no_hit(primary, chunk),
        ).to_multiset(),
        forall|k: int|
            0 <= k < found.len() && is_no_hit(primary, found[k]) ==> dependencies.contains(
                #[trigger] found[k],
            ),
{
    broadcast use vstd::seq_lib::group_to_multiset_ensures;

    let kept = beyond(primary, found);
    let outside = |chunk: StoredChunkView| is_no_hit(primary, chunk);
    lemma_beyond_filters(primary, found);
    sorting_permutes::<Locality, StoredChunkView>(localities(primary, kept), kept, dependencies);
    assert forall|k: int|
        0 <= k < found.len() && is_no_hit(primary, found[k]) implies dependencies.contains(
        #[trigger] found[k],
    ) by {
        found.lemma_filter_contains(outside, k);
        assert(kept.to_multiset().count(found[k]) > 0);
    }
}

/// A hit is of the contract of the chunk.
pub open spec fn is_of_a_hit_contract(primary: Seq<RankedView>, chunk: StoredChunkView) -> bool {
    exists|i: int|
        0 <= i < primary.len() && (#[trigger] primary[i]).chunk.contract_name
            == chunk.contract_name
}

/// A hit is of the file of the chunk.
pub open spec fn is_of_a_hit_file(primary: Seq<RankedView>, chunk: StoredChunkView) -> bool {
    exists|i: int|
        0 <= i < primary.len() && (#[trigger] primary[i]).chunk.file_path == chunk.file_path
}

/// Two chunks are as close to the hits as each other.
pub open spec fn as_close(
    primary: Seq<RankedView>,
    a: StoredChunkView,
    b: StoredChunkView,
) -> bool {
    &&& is_of_a_hit_contract(primary, a) == is_of_a_hit_contract(primary, b)
    &&& !is_of_a_hit_contract(primary, a) ==> is_of_a_hit_file(primary, a) == is_of_a_hit_file(
        primary,
        b,
    )
}

/// Dependencies of a hit's contract come first, then those of a hit's file, then the
/// rest; as close ones by the names of their contracts, then of their functions, and
/// then as they were found.
pub proof fn dependencies_come_closest_first(
    primary: Seq<RankedView>,
    found: Seq<StoredChunkView>,
    dependencies: Seq<StoredChunkView>,
    i: int,
    j: int,
)
    requires
        closest_first(primary, beyond(primary, found), dependencies),
        0 <= i < j < dependencies.len(),
    ensures
        ({
            let a = dependencies[i];
            let b = dependencies[j];
            let kept = found.filter(|chunk: StoredChunkView| is_no_hit(primary, chunk));
            &&& is_of_a_hit_contract(primary, b) ==> is_of_a_hit_contract(primary, a)
            &&& !is_of_a_hit_contract(primary, a) && is_of_a_hit_file(primary, b)
                ==> is_of_a_hit_file(primary, a)
            &&& as_close(primary, a, b) ==> !text_before(b.contract_name, a.contract_name)
            &&& as_close(primary, a, b) && a.contract_name == b.contract_name ==> !text_before(
                b.function_name,
                a.function_name,
            )
            &&& as_close(primary, a, b) && a.contract_name == b.contract_name && a.function_name
                == b.function_name ==> exists|m: int, n: int|
                0 <= m < n < kept.len() && #[trigger] kept[m] == a && #[trigger] kept[n] == b
        }),
{
    lemma_beyond_filters(primary, found);
    let kept = beyond(primary, found);
    let keys = localities(primary, kept);
    let (m, n) = sorting_orders::<Locality, StoredChunkView>(keys, kept, dependencies, i, j);
    let a = dependencies[i];
    let b = dependencies[j];
    assert(kept[m] == a && kept[n] == b);
    assert(keys[m] == locality_of(primary, a) && keys[n] == locality_of(primary, b));
    assert(!locality_before(keys[n], keys[m]));
    assert(hits_contract(primary, a.contract_name) == is_of_a_hit_contract(primary, a));
    assert(hits_contract(primary, b.contract_name) == is_of_a_hit_contract(primary, b));
    assert(hits_file(primary, a.file_path) == is_of_a_hit_file(primary, a));
    assert(hits_file(primary, b.file_path) == is_of_a_hit_file(primary, b));
    if as_close(primary, a, b) && a.contract_name == b.contract_name && a.function_name
        == b.function_name {
        crate::text::lemma_text_irreflexive(a.contract_name);
        crate::text::lemma_text_irreflexive(a.function_name);
        assert(m < n);
    }
}

// ---------------------------------------------------------------- names of symbols

/// The characters that a Solidity identifier is made of.
pub open spec fn is_name(name: Seq<char>) -> bool {
    &&& name.len() > 0
    &&& forall|i: int|
        0 <= i < name.len() ==> {
            let code = (#[trigger] name[i]) as int;
            ||| 65 <= code <= 90
            ||| 97 <= code <= 122
            ||| code == 95 || code == 36
            ||| i > 0 && 48 <= code <= 57
        }
}

/// Names that the language itself gives a meaning to: its checks and hashes, its
/// types, and its globals.
pub open spec fn belongs_to_the_language(name: Seq<char>) -> bool {
    ||| name == "require"@ || name == "assert"@ || name == "revert"@ || name == "selfdestruct"@
    ||| name == "keccak256"@ || name == "sha256"@ || name == "ripemd160"@ || name == "ecrecover"@
    ||| name == "addmod"@ || name == "mulmod"@
    ||| name == "uint256"@ || name == "uint128"@ || name == "uint64"@ || name == "uint32"@ || name
        == "uint8"@ || name == "int256"@
    ||| name == "bytes32"@ || name == "bytes"@ || name == "string"@ || name == "bool"@
    ||| name == "address"@ || name == "payable"@ || name == "type"@
    ||| name == "abi"@ || name == "msg"@ || name == "block"@ || name == "tx"@ || name == "super"@
        || name == "this"@
}

/// What can be looked up: identifiers that the language does not give a meaning to.
pub open spec fn can_be_looked_up(name: Seq<char>) -> bool {
    is_name(name) && !belongs_to_the_language(name)
}

/// Built-ins are the names that belong to the language.
pub proof fn builtins_belong_to_the_language(name: Seq<char>)
    ensures
        builtin_names().contains(name) <==> belongs_to_the_language(name),
        is_identifier(name) <==> is_name(name),
{
    let all = builtin_names();
    assert(all.len() == 29);
    if all.contains(name) {
        let i = all.index_of(name);
        assert(all[i] == name);
        assert(0 <= i < 29);
    }
    if belongs_to_the_language(name) {
        assert(all[0] == "require"@);
        assert(all[1] == "assert"@);
        assert(all[2] == "revert"@);
        assert(all[3] == "keccak256"@);
        assert(all[4] == "sha256"@);
        assert(all[5] == "ripemd160"@);
        assert(all[6] == "ecrecover"@);
        assert(all[7] == "addmod"@);
        assert(all[8] == "mulmod"@);
        assert(all[9] == "selfdestruct"@);
        assert(all[10] == "payable"@);
        assert(all[11] == "address"@);
        assert(all[12] == "uint256"@);
        assert(all[13] == "uint128"@);
        assert(all[14] == "uint64"@);
        assert(all[15] == "uint32"@);
        assert(all[16] == "uint8"@);
        assert(all[17] == "int256"@);
        assert(all[18] == "bytes32"@);
        assert(all[19] == "bytes"@);
        assert(all[20] == "string"@);
        assert(all[21] == "bool"@);
        assert(all[22] == "type"@);
        assert(all[23] == "abi"@);
        assert(all[24] == "msg"@);
        assert(all[25] == "block"@);
        assert(all[26] == "tx"@);
        assert(all[27] == "super"@);
        assert(all[28] == "this"@);
    }
    if is_identifier(name) {
        assert forall|i: int| 0 <= i < name.len() implies ({
            let code = (#[trigger] name[i]) as int;
            ||| 65 <= code <= 90
            ||| 97 <= code <= 122
            ||| code == 95 || code == 36
            ||| i > 0 && 48 <= code <= 57
        }) by {
            if i > 0 {
                assert(crate::storage::continues_identifier(name[i]));
            }
        }
    }
    if is_name(name) {
        assert(crate::storage::starts_identifier(name[0]));
        assert forall|i: int| 1 <= i < name.len() implies crate::storage::continues_identifier(
            #[trigger] name[i],
        ) by {
        }
    }
}

/// A symbol is written as a head with white space around it, and what is handed over
/// behind the first brace or bracket.
pub open spec fn is_written(
    symbol: Seq<char>,
    lead: Seq<char>,
    head: Seq<char>,
    trail: Seq<char>,
    rest: Seq<char>,
) -> bool {
    &&& symbol == lead + head + trail + rest
    &&& is_blank(lead) && is_bare(head) && is_blank(trail)
    &&& is_free_of(lead + head + trail, seq!['{', '('])
    &&& rest.len() > 0 ==> rest[0] == '{' || rest[0] == '('
}

/// The head of a symbol is what stands before the first brace or bracket, without
/// white space around it.
pub proof fn heads_are_found(
    symbol: Seq<char>,
    lead: Seq<char>,
    head: Seq<char>,
    trail: Seq<char>,
    rest: Seq<char>,
)
    requires
        is_written(symbol, lead, head, trail, rest),
    ensures
        head_of(symbol) == head,
{
    let marks = seq!['{', '('];
    assert(marks[0] == '{' && marks[1] == '(');
    assert(rest.len() == 0 || marks.contains(rest[0]));
    texts_are_cut_at_the_first_mark(lead + head + trail, rest, marks);
    trimming_takes_white_space_off_both_ends(lead, head, trail);
}

/// A symbol without a dot refers to its head, and to nothing else.
pub proof fn plain_symbols_refer_to_their_heads(
    symbol: Seq<char>,
    lead: Seq<char>,
    head: Seq<char>,
    trail: Seq<char>,
    rest: Seq<char>,
    name: Seq<char>,
)
    requires
        is_written(symbol, lead, head, trail, rest),
        !head.contains('.'),
    ensures
        refers(symbol, name) <==> name == head && can_be_looked_up(name),
{
    heads_are_found(symbol, lead, head, trail, rest);
    builtins_belong_to_the_language(name);
    let dot = seq!['.'];
    assert(dot[0] == '.');
    assert(is_free_of(head, dot)) by {
        assert forall|i: int| 0 <= i < head.len() implies !dot.contains(#[trigger] head[i]) by {
            assert(head.contains(head[i]));
        }
    }
    texts_are_cut_at_the_first_mark(head, Seq::empty(), dot);
    assert(head + Seq::empty() =~= head);
    what_follows_the_last_mark_is_found(Seq::empty(), head, '.');
}

/// A dotted symbol refers to what stands before its first dot and to what stands
/// behind its last one, and to nothing else.
pub proof fn dotted_symbols_refer_to_both_ends(
    symbol: Seq<char>,
    lead: Seq<char>,
    head: Seq<char>,
    trail: Seq<char>,
    rest: Seq<char>,
    start: Seq<char>,
    behind: Seq<char>,
    front: Seq<char>,
    end: Seq<char>,
    name: Seq<char>,
)
    requires
        is_written(symbol, lead, head, trail, rest),
        head == start + seq!['.'] + behind,
        !start.contains('.'),
        head == front + seq!['.'] + end,
        !end.contains('.'),
    ensures
        refers(symbol, name) <==> (name == start || name == end) && can_be_looked_up(name),
{
    heads_are_found(symbol, lead, head, trail, rest);
    builtins_belong_to_the_language(name);
    let dot = seq!['.'];
    assert(dot[0] == '.');
    assert(is_free_of(start, dot)) by {
        assert forall|i: int| 0 <= i < start.len() implies !dot.contains(#[trigger] start[i]) by {
            assert(start.contains(start[i]));
        }
    }
    assert(head =~= start + (dot + behind));
    assert((dot + behind)[0] == '.');
    assert(dot.contains('.'));
    texts_are_cut_at_the_first_mark(start, dot + behind, dot);
    what_follows_the_last_mark_is_found(front, end, '.');
}

/// A name is harvested if some symbol of some hit refers to it, and only then.
pub proof fn every_symbol_of_every_hit_is_harvested(primary: Seq<RankedView>, name: Seq<char>)
    ensures
        harvested(primary, name) <==> exists|hit: RankedView, symbol: Seq<char>|
            primary.contains(hit) && #[trigger] hit.chunk.referenced_symbols.contains(symbol)
                && refers(symbol, name),
{
    if harvested(primary, name) {
        let (i, j) = choose|i: int, j: int|
            0 <= i < primary.len() && 0 <= j < primary[i].chunk.referenced_symbols.len() && refers(
                #[trigger] primary[i].chunk.referenced_symbols[j],
                name,
            );
        let symbol = primary[i].chunk.referenced_symbols[j];
        assert(primary.contains(primary[i]));
        assert(primary[i].chunk.referenced_symbols.contains(symbol));
    }
    if exists|hit: RankedView, symbol: Seq<char>|
        primary.contains(hit) && #[trigger] hit.chunk.referenced_symbols.contains(symbol)
            && refers(symbol, name) {
        let (hit, symbol) = choose|hit: RankedView, symbol: Seq<char>|
            primary.contains(hit) && #[trigger] hit.chunk.referenced_symbols.contains(symbol)
                && refers(symbol, name);
        let i = primary.index_of(hit);
        let j = hit.chunk.referenced_symbols.index_of(symbol);
        assert(refers(primary[i].chunk.referenced_symbols[j], name));
    }
}

// ---------------------------------------------------------------- auxiliary paths

/// The directories of auxiliary code.
pub open spec fn is_auxiliary_directory(name: Seq<char>) -> bool {
    name == "mocks"@ || name == "mock"@ || name == "tests"@ || name == "test"@ || name
        == "interfaces"@
}

/// A path leads through a directory of this name.
pub open spec fn leads_through(path: Seq<char>, name: Seq<char>) -> bool {
    exists|front: Seq<char>, rest: Seq<char>|
        path == #[trigger] (front + name + "/"@ + rest) && (front.len() == 0 || front.last() == '/')
}

proof fn lemma_segment(path: Seq<char>, name: Seq<char>, segment: Seq<char>)
    requires
        segment == name + "/"@,
    ensures
        holds_segment(path, segment) <==> leads_through(path, name),
{
    if holds_segment(path, segment) {
        let k = choose|k: int| #[trigger]
            occurs_at(path, segment, k) && (k == 0 || path[k - 1] == '/');
        let front = path.take(k);
        let rest = path.skip(k + segment.len());
        assert(path =~= front + path.subrange(k, k + segment.len()) + rest);
        assert(front + segment + rest =~= front + name + "/"@ + rest);
        assert(path == front + name + "/"@ + rest);
    }
    if leads_through(path, name) {
        let (front, rest) = choose|front: Seq<char>, rest: Seq<char>|
            path == #[trigger] (front + name + "/"@ + rest) && (front.len() == 0 || front.last()
                == '/');
        let k = front.len() as int;
        assert(path.subrange(k, k + segment.len()) =~= segment);
        assert(occurs_at(path, segment, k));
        if k > 0 {
            assert(path[k - 1] == front.last());
        }
    }
}

proof fn lemma_auxiliary_segments()
    ensures
        auxiliary_paths() == seq![
            "mocks"@ + "/"@,
            "mock"@ + "/"@,
            "tests"@ + "/"@,
            "test"@ + "/"@,
            "interfaces"@ + "/"@,
        ],
{
    reveal_strlit("/");
    reveal_strlit("mocks");
    reveal_strlit("mock");
    reveal_strlit("tests");
    reveal_strlit("test");
    reveal_strlit("interfaces");
    reveal_strlit("mocks/");
    reveal_strlit("mock/");
    reveal_strlit("tests/");
    reveal_strlit("test/");
    reveal_strlit("interfaces/");
    assert("mocks/"@ =~= "mocks"@ + "/"@);
    assert("mock/"@ =~= "mock"@ + "/"@);
    assert("tests/"@ =~= "tests"@ + "/"@);
    assert("test/"@ =~= "test"@ + "/"@);
    assert("interfaces/"@ =~= "interfaces"@ + "/"@);
}

/// A path is auxiliary if it leads through a directory of mocks, tests or interfaces.
pub proof fn auxiliary_paths_lead_through_auxiliary_directories(path: Seq<char>)
    ensures
        is_auxiliary(path) <==> exists|name: Seq<char>|
            is_auxiliary_directory(name) && #[trigger] leads_through(path, name),
{
    lemma_auxiliary_segments();
    let all = auxiliary_paths();
    assert(all.len() == 5);
    lemma_segment(path, "mocks"@, all[0]);
    lemma_segment(path, "mock"@, all[1]);
    lemma_segment(path, "tests"@, all[2]);
    lemma_segment(path, "test"@, all[3]);
    lemma_segment(path, "interfaces"@, all[4]);
    if is_auxiliary(path) {
        let i = choose|i: int| 0 <= i < all.len() && holds_segment(path, #[trigger] all[i]);
        assert(holds_segment(path, all[i]));
    }
    if exists|name: Seq<char>| is_auxiliary_directory(name) && #[trigger] leads_through(path, name) {
        let name = choose|name: Seq<char>|
            is_auxiliary_directory(name) && #[trigger] leads_through(path, name);
        assert(holds_segment(path, all[0]) || holds_segment(path, all[1]) || holds_segment(
            path,
            all[2],
        ) || holds_segment(path, all[3]) || holds_segment(path, all[4]));
    }
}

/// Both passes exclude the directories of auxiliary code, unless they are asked for.
pub proof fn auxiliary_directories_are_excluded(options: RetrievalOptions, segment: Seq<char>)
    ensures
        excluded_paths(options).contains(segment) <==> !options.include_auxiliary && exists|
            name: Seq<char>,
        |
            is_auxiliary_directory(name) && segment == #[trigger] (name + "/"@),
{
    lemma_auxiliary_segments();
    let all = auxiliary_paths();
    if excluded_paths(options).contains(segment) {
        let i = excluded_paths(options).index_of(segment);
        assert(all[i] == segment);
        assert(is_auxiliary_directory("mocks"@));
        assert(is_auxiliary_directory("mock"@));
        assert(is_auxiliary_directory("tests"@));
        assert(is_auxiliary_directory("test"@));
        assert(is_auxiliary_directory("interfaces"@));
        assert(segment == "mocks"@ + "/"@ || segment == "mock"@ + "/"@ || segment == "tests"@
            + "/"@ || segment == "test"@ + "/"@ || segment == "interfaces"@ + "/"@);
    }
    if !options.include_auxiliary && exists|name: Seq<char>|
        is_auxiliary_directory(name) && segment == #[trigger] (name + "/"@) {
        assert(all[0] == segment || all[1] == segment || all[2] == segment || all[3] == segment
            || all[4] == segment);
    }
}

/// A graph is made of all chunks whose paths lead through no auxiliary directory, or
/// of all there are, in their order and as often as they are there.
pub proof fn graphs_are_made_of_the_other_chunks(
    chunks: Seq<StoredChunkView>,
    more: Seq<StoredChunkView>,
    one: StoredChunkView,
)
    ensures
        exported(chunks, true) == chunks,
        exported(Seq::empty(), false).len() == 0,
        exported(chunks + more, false) == exported(chunks, false) + exported(more, false),
        (exists|name: Seq<char>| is_auxiliary_directory(name) && #[trigger] leads_through(
            one.file_path,
            name,
        )) ==> exported(seq![one], false).len() == 0,
        !(exists|name: Seq<char>| is_auxiliary_directory(name) && #[trigger] leads_through(
            one.file_path,
            name,
        )) ==> exported(seq![one], false) == seq![one],
{
    reveal(Seq::filter);
    let outside = |chunk: StoredChunkView| !is_auxiliary(chunk.file_path);
    Seq::filter_distributes_over_add(chunks, more, outside);
    auxiliary_paths_lead_through_auxiliary_directories(one.file_path);
    assert(seq![one].drop_last() =~= Seq::empty());
    assert(seq![one].drop_last().filter(outside) =~= Seq::empty());
    assert(exported(seq![one], false) =~= if is_auxiliary(one.file_path) {
        Seq::empty()
    } else {
        seq![one]
    });
}

// ---------------------------------------------------------------- the document

/// Texts one behind the other.
pub open spec fn in_a_row(parts: Seq<Seq<char>>) -> Seq<char>
    decreases parts.len(),
{
    if parts.len() == 0 {
        Seq::empty()
    } else {
        parts[0] + in_a_row(parts.drop_first())
    }
}

/// The sections of the hits, best first.
pub open spec fn hit_sections(primary: Seq<RankedView>) -> Seq<Seq<char>> {
    primary.map_values(
        |hit: RankedView| chunk_section(hit.chunk, "PRIMARY MATCH"@, retrieval_line(hit)),
    )
}

/// The sections of the dependencies, closest first.
pub open spec fn context_sections(dependencies: Seq<StoredChunkView>) -> Seq<Seq<char>> {
    dependencies.map_values(
        |chunk: StoredChunkView| chunk_section(chunk, "DEPENDENCY CONTEXT"@, Seq::empty()),
    )
}

proof fn lemma_row_grows(parts: Seq<Seq<char>>, last: Seq<char>)
    ensures
        in_a_row(parts.push(last)) == in_a_row(parts) + last,
    decreases parts.len(),
{
    let all = parts.push(last);
    if parts.len() == 0 {
        assert(all.drop_first() =~= parts);
        assert(in_a_row(all) =~= in_a_row(parts) + last);
    } else {
        lemma_row_grows(parts.drop_first(), last);
        assert(all.drop_first() =~= parts.drop_first().push(last));
        assert(in_a_row(all) =~= in_a_row(parts) + last);
    }
}

proof fn lemma_hit_sections(primary: Seq<RankedView>)
    ensures
        primary_sections(primary) == in_a_row(hit_sections(primary)),
    decreases primary.len(),
{
    if primary.len() > 0 {
        let rest = primary.drop_last();
        lemma_hit_sections(rest);
        lemma_row_grows(hit_sections(rest), hit_sections(primary).last());
        assert(hit_sections(rest).push(hit_sections(primary).last()) =~= hit_sections(primary));
    }
}

proof fn lemma_context_sections(dependencies: Seq<StoredChunkView>)
    ensures
        dependency_sections(dependencies) == in_a_row(context_sections(dependencies)),
    decreases dependencies.len(),
{
    if dependencies.len() > 0 {
        let rest = dependencies.drop_last();
        reveal_strlit("");
        assert(""@ =~= Seq::<char>::empty());
        lemma_context_sections(rest);
        lemma_row_grows(context_sections(rest), context_sections(dependencies).last());
        assert(context_sections(rest).push(context_sections(dependencies).last())
            =~= context_sections(dependencies));
    }
}

/// The position at which a part of a row starts.
pub open spec fn starts_at(parts: Seq<Seq<char>>, i: int) -> int
    decreases i,
{
    if i <= 0 {
        0
    } else {
        starts_at(parts, i - 1) + parts[i - 1].len()
    }
}

proof fn lemma_row_holds(parts: Seq<Seq<char>>, n: int, i: int)
    requires
        0 <= i < n <= parts.len(),
    ensures
        0 <= starts_at(parts, i),
        starts_at(parts, i) + parts[i].len() <= in_a_row(parts.take(n)).len(),
        in_a_row(parts.take(n)).subrange(
            starts_at(parts, i),
            starts_at(parts, i) + parts[i].len(),
        ) == parts[i],
        in_a_row(parts.take(n)).len() == starts_at(parts, n),
    decreases n,
{
    let last = parts[n - 1];
    lemma_row_grows(parts.take(n - 1), last);
    assert(parts.take(n) =~= parts.take(n - 1).push(last));
    let before = in_a_row(parts.take(n - 1));
    if i < n - 1 {
        lemma_row_holds(parts, n - 1, i);
        assert((before + last).subrange(starts_at(parts, i), starts_at(parts, i) + parts[i].len())
            =~= before.subrange(starts_at(parts, i), starts_at(parts, i) + parts[i].len()));
    } else {
        lemma_row_length(parts, n - 1);
        assert((before + last).subrange(before.len() as int, (before.len() + last.len()) as int)
            =~= last);
    }
}

proof fn lemma_row_length(parts: Seq<Seq<char>>, n: int)
    requires
        0 <= n <= parts.len(),
    ensures
        in_a_row(parts.take(n)).len() == starts_at(parts, n),
        starts_at(parts, n) >= 0,
    decreases n,
{
    if n > 0 {
        lemma_row_length(parts, n - 1);
        lemma_row_grows(parts.take(n - 1), parts[n - 1]);
        assert(parts.take(n) =~= parts.take(n - 1).push(parts[n - 1]));
    } else {
        assert(parts.take(0).len() == 0);
    }
}

proof fn lemma_starts_grow(parts: Seq<Seq<char>>, i: int, j: int)
    requires
        0 <= i < j <= parts.len(),
    ensures
        starts_at(parts, i) + parts[i].len() <= starts_at(parts, j),
    decreases j,
{
    if i < j - 1 {
        lemma_starts_grow(parts, i, j - 1);
    }
}

proof fn lemma_part_stands(
    all: Seq<char>,
    front: Seq<char>,
    parts: Seq<Seq<char>>,
    back: Seq<char>,
    i: int,
)
    requires
        all == front + in_a_row(parts) + back,
        0 <= i < parts.len(),
    ensures
        starts_at(parts, i) >= 0,
        occurs_at(all, parts[i], front.len() + starts_at(parts, i)),
{
    let row = in_a_row(parts);
    assert(parts.take(parts.len() as int) =~= parts);
    lemma_row_holds(parts, parts.len() as int, i);
    let p = starts_at(parts, i);
    let at = front.len() + p;
    assert(all.subrange(at, at + parts[i].len()) =~= row.subrange(p, p + parts[i].len()));
}

/// A document opens with the query, then has the sections of all hits, one behind the
/// other and best first, and then, if there are any, those of all dependencies.
pub proof fn documents_hold_all_sections_in_order(
    query: Seq<char>,
    primary: Seq<RankedView>,
    dependencies: Seq<StoredChunkView>,
)
    ensures
        dependencies.len() == 0 ==> document(query, primary, dependencies)
            == "# Retrieved context\n\nQuery: **"@ + query + "**\n"@ + in_a_row(
            hit_sections(primary),
        ),
        dependencies.len() > 0 ==> document(query, primary, dependencies)
            == "# Retrieved context\n\nQuery: **"@ + query + "**\n"@ + in_a_row(
            hit_sections(primary),
        )
            + "\n---\n\nThe following definitions are referenced by the primary matches and are included as supporting context.\n"@
            + in_a_row(context_sections(dependencies)),
{
    lemma_hit_sections(primary);
    lemma_context_sections(dependencies);
    let title = "# Retrieved context\n\nQuery: **"@ + query + "**\n"@;
    let hits = in_a_row(hit_sections(primary));
    if dependencies.len() == 0 {
        assert(document(query, primary, dependencies) =~= title + hits);
    } else {
        let note = "\n---\n\nThe following definitions are referenced by the primary matches and are included as supporting context.\n"@;
        assert(document(query, primary, dependencies) =~= title + hits + note + in_a_row(
            context_sections(dependencies),
        ));
    }
}

/// The section of a better hit stands before that of a worse one.
pub proof fn better_hits_stand_earlier(
    query: Seq<char>,
    primary: Seq<RankedView>,
    dependencies: Seq<StoredChunkView>,
    i: int,
    j: int,
) -> (places: (int, int))
    requires
        0 <= i < j < primary.len(),
    ensures
        0 <= places.0,
        places.0 + hit_sections(primary)[i].len() <= places.1,
        occurs_at(document(query, primary, dependencies), hit_sections(primary)[i], places.0),
        occurs_at(document(query, primary, dependencies), hit_sections(primary)[j], places.1),
{
    let all = document(query, primary, dependencies);
    let parts = hit_sections(primary);
    documents_hold_all_sections_in_order(query, primary, dependencies);
    let title = "# Retrieved context\n\nQuery: **"@ + query + "**\n"@;
    let back = all.skip((title.len() + in_a_row(parts).len()) as int);
    assert(all =~= title + in_a_row(parts) + back);
    lemma_part_stands(all, title, parts, back, i);
    lemma_part_stands(all, title, parts, back, j);
    lemma_starts_grow(parts, i, j);
    (title.len() + starts_at(parts, i), title.len() + starts_at(parts, j))
}

/// The section of a closer dependency stands before that of a farther one, and both
/// behind the sections of all hits.
pub proof fn closer_dependencies_stand_earlier(
    query: Seq<char>,
    primary: Seq<RankedView>,
    dependencies: Seq<StoredChunkView>,
    i: int,
    j: int,
) -> (places: (int, int))
    requires
        0 <= i < j < dependencies.len(),
    ensures
        in_a_row(hit_sections(primary)).len() < places.0,
        places.0 + context_sections(dependencies)[i].len() <= places.1,
        occurs_at(document(query, primary, dependencies), context_sections(dependencies)[i], places.0),
        occurs_at(document(query, primary, dependencies), context_sections(dependencies)[j], places.1),
{
    let all = document(query, primary, dependencies);
    let parts = context_sections(dependencies);
    documents_hold_all_sections_in_order(query, primary, dependencies);
    let front = "# Retrieved context\n\nQuery: **"@ + query + "**\n"@ + in_a_row(
        hit_sections(primary),
    )
        + "\n---\n\nThe following definitions are referenced by the primary matches and are included as supporting context.\n"@;
    reveal_strlit("**\n");
    assert(all =~= front + in_a_row(parts) + Seq::empty());
    lemma_part_stands(all, front, parts, Seq::empty(), i);
    lemma_part_stands(all, front, parts, Seq::empty(), j);
    lemma_starts_grow(parts, i, j);
    (front.len() + starts_at(parts, i), front.len() + starts_at(parts, j))
}

/// A section says, line by line, where its chunk is from, of what kind it is, what is
/// told of it, what it refers to, if anything, and its code, as it is stored.
pub proof fn sections_tell_of_their_chunks(
    chunk: StoredChunkView,
    label: Seq<char>,
    detail: Seq<char>,
)
    ensures
        ({
            let heading = "\n## ["@ + label + "] `"@ + chunk.contract_name + "."@
                + chunk.function_name + "`\n\n"@;
            let origin = "- Source: `"@ + chunk.file_path + ":"@ + decimal(chunk.start_line as nat)
                + "-"@ + decimal(chunk.end_line as nat) + "`\n"@;
            let kind = "- Kind: "@ + chunk.kind + "\n"@;
            let symbols = "- References: "@ + joined(chunk.referenced_symbols, ", "@) + "\n"@;
            let code = "\n```solidity\n"@ + chunk.code_content + "\n```\n"@;
            chunk_section(chunk, label, detail) == if chunk.referenced_symbols.len() == 0 {
                heading + origin + kind + detail + code
            } else {
                heading + origin + kind + detail + symbols + code
            }
        }),
{
    reveal_strlit("`\n- Kind: ");
    reveal_strlit("`\n");
    reveal_strlit("- Kind: ");
    assert("`\n- Kind: "@ =~= "`\n"@ + "- Kind: "@);
    let heading = "\n## ["@ + label + "] `"@ + chunk.contract_name + "."@ + chunk.function_name
        + "`\n\n"@;
    let origin = "- Source: `"@ + chunk.file_path + ":"@ + decimal(chunk.start_line as nat) + "-"@
        + decimal(chunk.end_line as nat) + "`\n"@;
    let kind = "- Kind: "@ + chunk.kind + "\n"@;
    let symbols = "- References: "@ + joined(chunk.referenced_symbols, ", "@) + "\n"@;
    let code = "\n```solidity\n"@ + chunk.code_content + "\n```\n"@;
    if chunk.referenced_symbols.len() == 0 {
        assert(chunk_section(chunk, label, detail) =~= heading + origin + kind + detail + code);
    } else {
        assert(chunk_section(chunk, label, detail) =~= heading + origin + kind + detail + symbols
            + code);
    }
}

/// The line of a hit names the searches that found it, the semantic one first, each
/// with the rank that it gave.
pub proof fn hits_name_the_searches_that_found_them(hit: RankedView)
    ensures
        rank_words(hit).contains(
            "semantic #"@ + decimal((hit.vector_rank->0) as nat),
        ) || hit.vector_rank is None,
        rank_words(hit).contains("text #"@ + decimal((hit.fts_rank->0) as nat)) || hit.fts_rank
            is None,
        hit.vector_rank is Some && hit.fts_rank is Some ==> rank_words(hit)[0] == "semantic #"@
            + decimal((hit.vector_rank->0) as nat),
        rank_words(hit).len() == (if hit.vector_rank is Some {
            1int
        } else {
            0
        }) + (if hit.fts_rank is Some {
            1int
        } else {
            0
        }),
        retrieval_line(hit) == "- Retrieval: "@ + joined(rank_words(hit), ", "@) + " (RRF "@
            + four_places_text(hit.score) + ")\n"@,
{
    let words = rank_words(hit);
    if hit.vector_rank is Some {
        assert(words[0] == "semantic #"@ + decimal((hit.vector_rank->0) as nat));
    }
    if hit.fts_rank is Some {
        assert(words[words.len() - 1] == "text #"@ + decimal((hit.fts_rank->0) as nat));
    }
}

// ---------------------------------------------------------------- the calls

/// Assembling answers with the hits and names as they were handed over, and with all
/// that was found besides the hits, closest first.
pub proof fn assembling_answers_with_all_dependencies(
    pass: FirstPass,
    found: Vec<StoredChunk>,
    context: AssembledContext,
)
    requires
        call_ensures(assemble, (pass, found), context),
    ensures
        context.primary == pass.primary,
        context.expanded_symbols == pass.symbols,
        ({
            let primary = viewed(pass.primary@);
            let dependencies = viewed(context.dependencies@);
            let kept = viewed(found@).filter(
                |chunk: StoredChunkView| is_no_hit(primary, chunk),
            );
            &&& dependencies.to_multiset() == kept.to_multiset()
            &&& forall|i: int, j: int|
                0 <= i < j < dependencies.len() ==> is_no_farther(
                    primary,
                    #[trigger] dependencies[i],
                    #[trigger] dependencies[j],
                )
        }),
{
    let primary = viewed(pass.primary@);
    let all = viewed(found@);
    let dependencies = viewed(context.dependencies@);
    dependencies_are_all_that_was_found_besides_the_hits(primary, all, dependencies);
    assert forall|i: int, j: int| 0 <= i < j < dependencies.len() implies is_no_farther(
        primary,
        #[trigger] dependencies[i],
        #[trigger] dependencies[j],
    ) by {
        dependencies_come_closest_first(primary, all, dependencies, i, j);
    }
}

/// One chunk may stand before another: it is closer to the hits, or as close and not
/// later by name.
pub open spec fn is_no_farther(
    primary: Seq<RankedView>,
    a: StoredChunkView,
    b: StoredChunkView,
) -> bool {
    &&& is_of_a_hit_contract(primary, b) ==> is_of_a_hit_contract(primary, a)
    &&& !is_of_a_hit_contract(primary, a) && is_of_a_hit_file(primary, b) ==> is_of_a_hit_file(
        primary,
        a,
    )
    &&& as_close(primary, a, b) ==> !text_before(b.contract_name, a.contract_name)
    &&& as_close(primary, a, b) && a.contract_name == b.contract_name ==> !text_before(
        b.function_name,
        a.function_name,
    )
}

/// Harvesting answers with the names that the symbols of the hits refer to, all of
/// them, each once and in the order of texts.
pub proof fn harvesting_answers_with_all_names(primary: &Vec<RankedChunk>, symbols: Vec<String>)
    requires
        call_ensures(harvest_symbols, (primary,), symbols),
    ensures
        forall|name: Seq<char>| #[trigger]
            views(symbols@).contains(name) <==> exists|hit: RankedView, symbol: Seq<char>|
                viewed(primary@).contains(hit)
                    && #[trigger] hit.chunk.referenced_symbols.contains(symbol) && refers(
                    symbol,
                    name,
                ),
        forall|i: int, j: int|
            0 <= i < j < views(symbols@).len() ==> text_before(
                #[trigger] views(symbols@)[i],
                #[trigger] views(symbols@)[j],
            ),
{
    assert forall|name: Seq<char>| #[trigger]
        views(symbols@).contains(name) <==> exists|hit: RankedView, symbol: Seq<char>|
            viewed(primary@).contains(hit)
                && #[trigger] hit.chunk.referenced_symbols.contains(symbol) && refers(
                symbol,
                name,
            ) by {
        every_symbol_of_every_hit_is_harvested(viewed(primary@), name);
    }
    assert forall|i: int, j: int| 0 <= i < j < views(symbols@).len() implies text_before(
        #[trigger] views(symbols@)[i],
        #[trigger] views(symbols@)[j],
    ) by {
        assert(<String as Key>::before(views(symbols@)[i], views(symbols@)[j]));
    }
}

/// Rendering answers with a document of the query, the sections of all hits, and those
/// of all dependencies, each in the order of the context.
pub proof fn rendering_answers_with_all_sections(
    context: &AssembledContext,
    query: &str,
    md: String,
)
    requires
        call_ensures(AssembledContext::to_markdown, (context, query), md),
    ensures
        ({
            let title = "# Retrieved context\n\nQuery: **"@ + query@ + "**\n"@;
            let hits = in_a_row(hit_sections(viewed(context.primary@)));
            let note = "\n---\n\nThe following definitions are referenced by the primary matches and are included as supporting context.\n"@;
            let rest = in_a_row(context_sections(viewed(context.dependencies@)));
            md@ == if context.dependencies@.len() == 0 {
                title + hits
            } else {
                title + hits + note + rest
            }
        }),
        forall|i: int, j: int|
            0 <= i < j < context.primary@.len() ==> #[trigger] stand_in_order(
                md@,
                hit_sections(viewed(context.primary@)),
                i,
                j,
            ),
        forall|i: int, j: int|
            0 <= i < j < context.dependencies@.len() ==> #[trigger] stand_in_order(
                md@,
                context_sections(viewed(context.dependencies@)),
                i,
                j,
            ),
{
    let primary = viewed(context.primary@);
    let dependencies = viewed(context.dependencies@);
    documents_hold_all_sections_in_order(query@, primary, dependencies);
    assert forall|i: int, j: int| 0 <= i < j < context.primary@.len() implies #[trigger] stand_in_order(
        md@,
        hit_sections(primary),
        i,
        j,
    ) by {
        let (p, q) = better_hits_stand_earlier(query@, primary, dependencies, i, j);
        assert(occurs_at(md@, hit_sections(primary)[i], p));
        assert(occurs_at(md@, hit_sections(primary)[j], q));
    }
    assert forall|i: int, j: int|
        0 <= i < j < context.dependencies@.len() implies #[trigger] stand_in_order(
        md@,
        context_sections(dependencies),
        i,
        j,
    ) by {
        let (p, q) = closer_dependencies_stand_earlier(query@, primary, dependencies, i, j);
        assert(occurs_at(md@, context_sections(dependencies)[i], p));
        assert(occurs_at(md@, context_sections(dependencies)[j], q));
    }
}

/// Two of the parts stand in a text, the first of them before the other.
pub open spec fn stand_in_order(text: Seq<char>, parts: Seq<Seq<char>>, i: int, j: int) -> bool {
    exists|p: int, q: int| #[trigger]
        occurs_at(text, parts[i], p) && #[trigger] occurs_at(text, parts[j], q) && p
            + parts[i].len() <= q
}

/// Asking for a path answers whether it leads through an auxiliary directory.
pub proof fn asking_for_a_path_answers_by_its_directories(path: &str, found: bool)
    requires
        call_ensures(is_auxiliary_path, (path,), found),
    ensures
        found <==> exists|name: Seq<char>|
            is_auxiliary_directory(name) && #[trigger] leads_through(path@, name),
{
    auxiliary_paths_lead_through_auxiliary_directories(path@);
}

/// Exporting answers with the chunks outside auxiliary directories, or with all of
/// them.
pub proof fn exporting_answers_with_the_other_chunks(
    chunks: Vec<StoredChunk>,
    include_auxiliary: bool,
    kept: Vec<StoredChunk>,
)
    requires
        call_ensures(exported_chunks, (chunks, include_auxiliary), kept),
    ensures
        include_auxiliary ==> viewed(kept@) == viewed(chunks@),
        !include_auxiliary ==> viewed(kept@) == viewed(chunks@).filter(
            |chunk: StoredChunkView| is_outside(chunk.file_path),
        ),
{
    assert forall|path: Seq<char>| #[trigger] is_outside(path) == !is_auxiliary(path) by {
        auxiliary_paths_lead_through_auxiliary_directories(path);
    }
    lemma_same_filter(
        viewed(chunks@),
        |chunk: StoredChunkView| !is_auxiliary(chunk.file_path),
        |chunk: StoredChunkView| is_outside(chunk.file_path),
    );
}

/// A path that leads through no auxiliary directory.
pub open spec fn is_outside(path: Seq<char>) -> bool {
    forall|name: Seq<char>|
        is_auxiliary_directory(name) ==> !#[trigger] leads_through(path, name)
}

proof fn lemma_same_filter<T>(items: Seq<T>, a: spec_fn(T) -> bool, b: spec_fn(T) -> bool)
    requires
        forall|item: T| #[trigger] a(item) == b(item),
    ensures
        items.filter(a) == items.filter(b),
    decreases items.len(),
{
    reveal(Seq::filter);
    if items.len() > 0 {
        lemma_same_filter(items.drop_last(), a, b);
        assert(a(items.last()) == b(items.last()));
    }
}

/// A search plan asks each search for twice as many hits as are wanted, and excludes
/// the auxiliary directories unless they are asked for.
pub proof fn plans_ask_for_twice_as_many(
    k: usize,
    options: RetrievalOptions,
    plan: SearchPlan,
    segment: Seq<char>,
)
    requires
        call_ensures(plan_search, (k, options), plan),
    ensures
        plan.limit == 2 * k,
        str_views(plan.excluded@).contains(segment) <==> !options.include_auxiliary && exists|
            name: Seq<char>,
        |
            is_auxiliary_directory(name) && segment == #[trigger] (name + "/"@),
{
    auxiliary_directories_are_excluded(options, segment);
}

/// Asking for a segment answers whether the path has it at its start or behind a
/// slash.
pub proof fn segments_are_found_behind_slashes(path: &str, segment: &str, found: bool)
    requires
        call_ensures(path_holds_segment, (path, segment), found),
    ensures
        found <==> exists|front: Seq<char>, rest: Seq<char>|
            path@ == #[trigger] (front + segment@ + rest) && (front.len() == 0 || front.last()
                == '/'),
{
    if found {
        let k = choose|k: int| #[trigger]
            occurs_at(path@, segment@, k) && (k == 0 || path@[k - 1] == '/');
        let front = path@.take(k);
        let rest = path@.skip(k + segment@.len());
        assert(path@ =~= front + path@.subrange(k, k + segment@.len()) + rest);
        assert(path@ == front + segment@ + rest);
    }
    if exists|front: Seq<char>, rest: Seq<char>|
        path@ == #[trigger] (front + segment@ + rest) && (front.len() == 0 || front.last()
            == '/') {
        let (front, rest) = choose|front: Seq<char>, rest: Seq<char>|
            path@ == #[trigger] (front + segment@ + rest) && (front.len() == 0 || front.last()
                == '/');
        let k = front.len() as int;
        assert(path@.subrange(k, k + segment@.len()) =~= segment@);
        assert(occurs_at(path@, segment@, k));
        if k > 0 {
            assert(path@[k - 1] == front.last());
        }
    }
}

/// The first pass answers with the hits of the fusion and with the names that they
/// refer to.
pub proof fn the_first_pass_fuses_and_harvests(
    vector: Vec<SearchResult>,
    fts: Vec<FtsResult>,
    k: usize,
    pass: FirstPass,
    ranked: Vec<RankedChunk>,
    name: Seq<char>,
)
    requires
        call_ensures(first_pass, (vector, fts, k), pass),
        call_ensures(fuse_rrf, (vector, fts, k), ranked),
    ensures
        viewed(pass.primary@) == viewed(ranked@),
        views(pass.symbols@).contains(name) <==> exists|hit: RankedView, symbol: Seq<char>|
            viewed(ranked@).contains(hit)
                && #[trigger] hit.chunk.referenced_symbols.contains(symbol) && refers(symbol, name),
{
    fusion_is_determined(
        viewed(vector@),
        viewed(fts@),
        k as nat,
        viewed(pass.primary@),
        viewed(ranked@),
    );
    every_symbol_of_every_hit_is_harvested(viewed(ranked@), name);
}

/// Asking for a built-in answers whether the name belongs to the language.
pub proof fn builtins_are_answered_by_name(name: &str, found: bool)
    requires
        call_ensures(is_builtin, (name,), found),
    ensures
        found <==> belongs_to_the_language(name@),
{
    builtins_belong_to_the_language(name@);
}

/// Rendering a chunk answers with its section.
pub proof fn rendering_a_chunk_answers_with_its_section(
    chunk: &StoredChunk,
    label: &str,
    detail: &str,
    md: String,
)
    requires
        call_ensures(render_chunk, (chunk, label, detail), md),
    ensures
        ({
            let heading = "\n## ["@ + label@ + "] `"@ + chunk@.contract_name + "."@
                + chunk@.function_name + "`\n\n"@;
            let origin = "- Source: `"@ + chunk@.file_path + ":"@ + decimal(
                chunk@.start_line as nat,
            ) + "-"@ + decimal(chunk@.end_line as nat) + "`\n"@;
            let kind = "- Kind: "@ + chunk@.kind + "\n"@;
            let symbols = "- References: "@ + joined(chunk@.referenced_symbols, ", "@) + "\n"@;
            let code = "\n```solidity\n"@ + chunk@.code_content + "\n```\n"@;
            md@ == if chunk@.referenced_symbols.len() == 0 {
                heading + origin + kind + detail@ + code
            } else {
                heading + origin + kind + detail@ + symbols + code
            }
        }),
{
    sections_tell_of_their_chunks(chunk@, label@, detail@);
}

/// Sorting by locality keeps all chunks and puts the closest first.
pub proof fn sorting_by_locality_puts_the_closest_first(
    dependencies: &mut Vec<StoredChunk>,
    primary: &Vec<RankedChunk>,
)
    requires
        call_ensures(sort_by_locality, (dependencies, primary), ()),
    ensures
        viewed(final(dependencies)@).to_multiset() == viewed(old(dependencies)@).to_multiset(),
        forall|i: int, j: int|
            0 <= i < j < final(dependencies)@.len() ==> is_no_farther(
                viewed(primary@),
                #[trigger] viewed(final(dependencies)@)[i],
                #[trigger] viewed(final(dependencies)@)[j],
            ),
{
    let hits = viewed(primary@);
    let before = viewed(old(dependencies)@);
    let after = viewed(final(dependencies)@);
    let keys = localities(hits, before);
    sorting_permutes::<Locality, StoredChunkView>(keys, before, after);
    assert forall|i: int, j: int| 0 <= i < j < after.len() implies is_no_farther(
        hits,
        #[trigger] after[i],
        #[trigger] after[j],
    ) by {
        let (m, n) = sorting_orders::<Locality, StoredChunkView>(keys, before, after, i, j);
        let a = after[i];
        let b = after[j];
        assert(keys[m] == locality_of(hits, a) && keys[n] == locality_of(hits, b));
        assert(!locality_before(keys[n], keys[m]));
        assert(hits_contract(hits, a.contract_name) == is_of_a_hit_contract(hits, a));
        assert(hits_contract(hits, b.contract_name) == is_of_a_hit_contract(hits, b));
        assert(hits_file(hits, a.file_path) == is_of_a_hit_file(hits, a));
        assert(hits_file(hits, b.file_path) == is_of_a_hit_file(hits, b));
    }
}

/// Asking for the excluded segments answers with the auxiliary directories, each with
/// a slash behind it, unless they are to be searched; by default they are not.
pub proof fn excluding_answers_with_the_auxiliary_directories(
    options: RetrievalOptions,
    segments: Vec<&'static str>,
    segment: Seq<char>,
    usual: RetrievalOptions,
)
    requires
        call_ensures(excluded_segments, (options,), segments),
        call_ensures(RetrievalOptions::default, (), usual),
    ensures
        str_views(segments@).contains(segment) <==> !options.include_auxiliary && exists|
            name: Seq<char>,
        |
            is_auxiliary_directory(name) && segment == #[trigger] (name + "/"@),
        !usual.include_auxiliary,
{
    auxiliary_directories_are_excluded(options, segment);
}

} // verus!
