//! Two-pass retrieval: hits of the vector search and of the full-text search are
//! fused by rank, the symbols that they refer to are looked up by name, and both
//! are rendered as one document.
use vstd::arithmetic::power2::*;
use vstd::prelude::*;
use vstd::string::*;

use crate::float::{
    add_singles, four_places_text, is_normal, is_sound, lemma_reciprocal_antitone,
    lemma_reciprocal_range, lemma_rounds_at, lemma_single_exact, lemma_single_monotone,
    lemma_single_range, lemma_sum_monotone, lemma_sum_normal, lemma_sum_sound, lemma_twice,
    lemma_unpacked, order_key, pack_single, reciprocal, reciprocal_of, single_from, single_low,
    single_of, sum_of, Single,
};
use crate::ordered::{
    ascending, in_stable_order, lemma_ascending_unique, lemma_order_complete, lemma_sorted_views,
    lemma_zipped, picked, sorting_is_determined, stable_order, stable_sort, stably_sorted, viewed,
    Key, OrderedMap, OrderedSet,
};
use crate::storage::{
    is_identifier, is_solidity_identifier, str_views, FtsResult, HitView, SearchResult, StoredChunk,
    StoredChunkView,
};
use crate::text::{
    after_last, after_last_mark, before_mark, chars_of, decimal, decimal_text, find_mark, join,
    joined, lemma_text_connected, lemma_text_irreflexive, lemma_text_transitive, matches_at,
    occurs_at, same_text, text_before, text_between, text_less, trim_chars, trimmed, views,
};

verus! {

/// At most so many chunks come from the second pass, so that one symbol that is
/// everywhere cannot flood the context.
pub const MAX_DEPENDENCY_CHUNKS: usize = 24;

/// The rank constant of the fusion.
pub const RRF_K: u64 = 60;

/// What retrieval is to do.
#[derive(Debug, Clone, Copy)]
pub struct RetrievalOptions {
    /// Keep chunks from the paths of mocks, tests and interfaces.
    pub include_auxiliary: bool,
}

impl Default for RetrievalOptions {
    fn default() -> (options: Self)
        ensures
            !options.include_auxiliary,
    {
        RetrievalOptions { include_auxiliary: false }
    }
}

/// A hit of the first pass: its rank in each search, and the fused score.
#[derive(Debug)]
pub struct RankedChunk {
    pub chunk: StoredChunk,
    pub rrf_score: Single,
    /// Rank in the vector search, counted from one, if it was found there.
    pub vector_rank: Option<usize>,
    /// Rank in the full-text search, counted from one, if it was found there.
    pub fts_rank: Option<usize>,
}

/// What a [`RankedChunk`] says.
#[verifier::ext_equal]
pub struct RankedView {
    pub chunk: StoredChunkView,
    pub score: u32,
    pub vector_rank: Option<usize>,
    pub fts_rank: Option<usize>,
}

impl View for RankedChunk {
    type V = RankedView;

    open spec fn view(&self) -> RankedView {
        RankedView {
            chunk: self.chunk@,
            score: self.rrf_score.bits,
            vector_rank: self.vector_rank,
            fts_rank: self.fts_rank,
        }
    }
}

impl Clone for RankedChunk {
    fn clone(&self) -> (copy: Self)
        ensures
            copy@ == self@,
    {
        RankedChunk {
            chunk: self.chunk.clone(),
            rrf_score: self.rrf_score,
            vector_rank: self.vector_rank,
            fts_rank: self.fts_rank,
        }
    }
}

/// The search that a rank comes from.
#[derive(Debug, Clone, Copy, PartialEq, Eq, Structural)]
pub enum Channel {
    Vector,
    Fts,
}

// ---------------------------------------------------------------- fusion

/// The share of a rank in a score: `1 / (60 + rank)`, computed in singles.
pub open spec fn rrf_share(rank: nat) -> int {
    reciprocal_of(sum_of(single_of(RRF_K as nat), single_of(rank)))
}

/// A hit with one more rank.
pub open spec fn with_rank(hit: RankedView, rank: nat, channel: Channel) -> RankedView {
    let score = sum_of(hit.score as int, rrf_share(rank)) as u32;
    match channel {
        Channel::Vector => RankedView { score, vector_rank: Some(rank as usize), ..hit },
        Channel::Fts => RankedView { score, fts_rank: Some(rank as usize), ..hit },
    }
}

/// A hit without ranks.
pub open spec fn unranked(chunk: StoredChunkView) -> RankedView {
    RankedView { chunk, score: 0, vector_rank: None, fts_rank: None }
}

/// What is known of a chunk before a hit on it is counted.
pub open spec fn known(fused: Map<Seq<char>, RankedView>, chunk: StoredChunkView) -> RankedView {
    if fused.dom().contains(chunk.id) {
        fused[chunk.id]
    } else {
        unranked(chunk)
    }
}

/// The hits of one search counted, in order, on top of what was known: each adds
/// its rank to the entry of its chunk.
pub open spec fn counted(
    fused: Map<Seq<char>, RankedView>,
    hits: Seq<HitView>,
    channel: Channel,
) -> Map<Seq<char>, RankedView>
    decreases hits.len(),
{
    if hits.len() == 0 {
        fused
    } else {
        let before = counted(fused, hits.drop_last(), channel);
        let chunk = hits.last().chunk;
        before.insert(chunk.id, with_rank(known(before, chunk), hits.len(), channel))
    }
}

/// The hits of both searches counted.
pub open spec fn fused(vector: Seq<HitView>, fts: Seq<HitView>) -> Map<Seq<char>, RankedView> {
    counted(counted(Map::empty(), vector, Channel::Vector), fts, Channel::Fts)
}

/// The entries of a map in the order of their keys.
pub open spec fn entries(map: Map<Seq<char>, RankedView>, ids: Seq<Seq<char>>) -> Seq<RankedView> {
    ids.map_values(|id: Seq<char>| map[id])
}

/// The sort keys for descending scores.
pub open spec fn score_keys(hits: Seq<RankedView>) -> Seq<u32> {
    hits.map_values(|hit: RankedView| (0xffff_ffff - order_key(hit.score)) as u32)
}

/// The first `k` of a list, or all of it.
pub open spec fn first<T>(items: Seq<T>, k: nat) -> Seq<T> {
    if items.len() <= k {
        items
    } else {
        items.take(k as int)
    }
}

/// `ids` lists the keys of a map in ascending order.
pub open spec fn lists_keys(map: Map<Seq<char>, RankedView>, ids: Seq<Seq<char>>) -> bool {
    ascending::<String>(ids) && ids.to_set() == map.dom()
}

/// `ranked` are the best `k` entries of a map: by descending score, and equal ones
/// in the order of their keys.
pub open spec fn best_entries(
    map: Map<Seq<char>, RankedView>,
    k: nat,
    ranked: Seq<RankedView>,
) -> bool {
    exists|ids: Seq<Seq<char>>, sorted: Seq<RankedView>|
        #![trigger lists_keys(map, ids), first(sorted, k)]
        lists_keys(map, ids) && stably_sorted::<u32, RankedView>(
            score_keys(entries(map, ids)),
            entries(map, ids),
            sorted,
        ) && ranked == first(sorted, k)
}

/// The share of a rank is an ordinary number.
pub proof fn lemma_share(rank: nat)
    requires
        0 < rank <= u64::MAX,
    ensures
        is_normal(rrf_share(rank)),
{
    let sixty = single_of(RRF_K as nat);
    lemma_single_range(RRF_K as nat);
    lemma_single_range(rank);
    lemma_sum_normal(sixty, single_of(rank));
    lemma_reciprocal_range(sum_of(sixty, single_of(rank)));
}

/// The share of a rank in a score.
fn share_of(rank: usize) -> (share: Single)
    requires
        rank > 0,
    ensures
        share.bits == rrf_share(rank as nat),
        is_normal(share.bits as int),
{
    let sixty = single_from(RRF_K);
    let place = single_from(rank as u64);
    proof {
        lemma_sum_normal(sixty.bits as int, place.bits as int);
        lemma_share(rank as nat);
    }
    let total = add_singles(sixty, place);
    reciprocal(total)
}

impl RankedChunk {
    /// Counts one more rank.
    pub fn apply_rank(&mut self, rank: usize, channel: Channel)
        requires
            rank > 0,
            is_sound(old(self).rrf_score.bits as int),
        ensures
            final(self)@ == with_rank(old(self)@, rank as nat, channel),
            is_sound(final(self).rrf_score.bits as int),
    {
        self.rrf_score = add_singles(self.rrf_score, share_of(rank));
        match channel {
            Channel::Vector => {
                self.vector_rank = Some(rank);
            },
            Channel::Fts => {
                self.fts_rank = Some(rank);
            },
        }
    }
}

/// All scores are sums of shares.
pub open spec fn sound_scores(map: Map<Seq<char>, RankedView>) -> bool {
    forall|id: Seq<char>| map.dom().contains(id) ==> is_sound((#[trigger] map[id]).score as int)
}

/// Counts one hit.
fn count_hit(entries: &mut OrderedMap<String, RankedChunk>, chunk: StoredChunk, rank: usize, channel: Channel)
    requires
        rank > 0,
        old(entries).wf(),
        sound_scores(old(entries)@),
    ensures
        final(entries).wf(),
        sound_scores(final(entries)@),
        final(entries)@ == old(entries)@.insert(
            chunk@.id,
            with_rank(known(old(entries)@, chunk@), rank as nat, channel),
        ),
{
    let ghost before = entries@;
    let ghost said = chunk@;
    let id = chunk.id.clone();
    let mut hit = match entries.remove(&id) {
        Some(hit) => hit,
        None => RankedChunk {
            chunk,
            rrf_score: Single { bits: 0 },
            vector_rank: None,
            fts_rank: None,
        },
    };
    assert(hit@ == known(before, said));
    hit.apply_rank(rank, channel);
    let ghost ranked = hit@;
    entries.insert(id, hit);
    assert(entries@ =~= before.insert(said.id, ranked));
}

/// The best `k` hits of both searches together. Each chunk scores the sum of
/// `1 / (60 + rank)` over the searches that found it, so that a chunk which both
/// rank well comes before one that only one of them ranks first.
pub fn fuse_rrf(vector: Vec<SearchResult>, fts: Vec<FtsResult>, k: usize) -> (ranked: Vec<
    RankedChunk,
>)
    ensures
        best_entries(fused(viewed(vector@), viewed(fts@)), k as nat, viewed(ranked@)),
{
    let ghost hits = viewed(vector@);
    let ghost texts = viewed(fts@);
    let mut map: OrderedMap<String, RankedChunk> = OrderedMap::new();
    let mut rank: usize = 0;
    assert(hits.take(0) =~= Seq::<HitView>::empty());
    for result in it: vector
        invariant
            it.seq() == vector@,
            vector@.len() == vector.len(),
            hits == viewed(vector@),
            rank == it.index(),
            map.wf(),
            sound_scores(map@),
            map@ == counted(Map::empty(), hits.take(it.index()), Channel::Vector),
    {
        assert(hits.take(it.index() + 1).drop_last() =~= hits.take(it.index()));
        assert(hits.take(it.index() + 1).last() == result@);
        rank += 1;
        count_hit(&mut map, result.chunk, rank, Channel::Vector);
    }
    assert(hits.take(hits.len() as int) =~= hits);
    let ghost first_pass = map@;
    let mut rank: usize = 0;
    assert(texts.take(0) =~= Seq::<HitView>::empty());
    for result in it: fts
        invariant
            it.seq() == fts@,
            fts@.len() == fts.len(),
            texts == viewed(fts@),
            rank == it.index(),
            map.wf(),
            sound_scores(map@),
            map@ == counted(first_pass, texts.take(it.index()), Channel::Fts),
    {
        assert(texts.take(it.index() + 1).drop_last() =~= texts.take(it.index()));
        assert(texts.take(it.index() + 1).last() == result@);
        rank += 1;
        count_hit(&mut map, result.chunk, rank, Channel::Fts);
    }
    assert(texts.take(texts.len() as int) =~= texts);
    let ghost whole = map@;
    let (ids, values) = map.into_parts();
    let ghost id_list = viewed(ids@);
    let ghost unsorted = values@;
    proof {
        assert(id_list.to_set() =~= whole.dom());
        assert forall|i: int| 0 <= i < id_list.len() implies #[trigger] entries(whole, id_list)[i]
            == viewed(unsorted)[i] by {
            lemma_zipped::<String, RankedView>(id_list, viewed(unsorted), i);
        }
        assert(entries(whole, id_list) =~= viewed(unsorted));
        assert(lists_keys(whole, id_list));
    }
    let mut keys: Vec<u32> = Vec::new();
    let mut j: usize = 0;
    while j < values.len()
        invariant
            j <= values.len(),
            keys.len() == j,
            forall|i: int|
                0 <= i < j ==> keys@[i] == 0xffff_ffff - order_key(values@[i].rrf_score.bits),
        decreases values.len() - j,
    {
        keys.push(values[j].rrf_score.descending_key());
        j += 1;
    }
    assert(viewed(keys@) =~= score_keys(viewed(unsorted)));
    let mut ranked = stable_sort(keys, values);
    let ghost sorted = viewed(ranked@);
    proof {
        lemma_sorted_views::<u32, RankedChunk>(score_keys(viewed(unsorted)), unsorted, ranked@);
    }
    ranked.truncate(k);
    assert(viewed(ranked@) =~= first(sorted, k as nat));
    ranked
}

// ---------------------------------------------------------------- laws of fusion

/// A later rank has no larger share.
pub proof fn later_ranks_share_no_more(earlier: nat, later: nat)
    requires
        0 < earlier <= later <= u64::MAX,
    ensures
        rrf_share(later) <= rrf_share(earlier),
{
    let sixty = single_of(RRF_K as nat);
    lemma_single_range(RRF_K as nat);
    lemma_single_range(earlier);
    lemma_single_range(later);
    lemma_single_monotone(earlier, later);
    lemma_sum_monotone(sixty, single_of(earlier), sixty, single_of(later));
    lemma_sum_normal(sixty, single_of(earlier));
    lemma_sum_normal(sixty, single_of(later));
    lemma_reciprocal_antitone(sum_of(sixty, single_of(earlier)), sum_of(sixty, single_of(later)));
}

/// The shares of the first and of the sixty-first rank.
proof fn lemma_named_shares()
    ensures
        rrf_share(1) == pack_single(8801162, -29),
        rrf_share(61) == pack_single(8873899, -30),
{
    let low = single_low();
    lemma2_to64();
    lemma2_to64_rest();
    assert(60 * pow2(18) == 15728640);
    assert(61 * pow2(18) == 15990784);
    assert(121 * pow2(17) == 15859712);
    assert(1 * pow2(23) == 8388608);
    lemma_single_exact(60, 18);
    lemma_single_exact(61, 18);
    lemma_single_exact(121, 17);
    lemma_single_exact(1, 23);
    lemma_unpacked(15728640, -18);
    lemma_unpacked(15990784, -18);
    lemma_unpacked(15859712, -17);
    lemma_unpacked(8388608, -23);
    assert(60 * pow2(149) + 61 * pow2(149) == 121 * pow2(149)) by (nonlinear_arith);
    assert(60 * pow2(149) + 1 * pow2(149) == 61 * pow2(149)) by (nonlinear_arith);
    assert(sum_of(single_of(60), single_of(61)) == pack_single(15859712, -17));
    assert(sum_of(single_of(60), single_of(1)) == pack_single(15990784, -18));
    assert(low * 15859712 <= 1 * pow2(47) < 2 * (low * 15859712));
    assert(low * 15990784 <= 1 * pow2(47) < 2 * (low * 15990784));
    lemma_rounds_at(1, 15859712, low, 47);
    lemma_rounds_at(1, 15990784, low, 47);
    assert(140737488355328nat / 15859712nat == 8873899);
    assert(140737488355328nat % 15859712nat == 5898240);
    assert(140737488355328nat / 15990784nat == 8801162);
    assert(140737488355328nat % 15990784nat == 7864320);
}

/// A chunk that both searches rank within the first sixty-one scores more than a
/// chunk that only one of them finds, at whatever rank.
pub proof fn two_good_ranks_beat_one(vector_rank: nat, fts_rank: nat, only_rank: nat)
    requires
        0 < vector_rank <= 61,
        0 < fts_rank <= 61,
        0 < only_rank <= u64::MAX,
    ensures
        sum_of(rrf_share(vector_rank), rrf_share(fts_rank)) > rrf_share(only_rank),
{
    lemma_share(vector_rank);
    lemma_share(fts_rank);
    lemma_share(61);
    lemma_share(1);
    later_ranks_share_no_more(vector_rank, 61);
    later_ranks_share_no_more(fts_rank, 61);
    later_ranks_share_no_more(1, only_rank);
    lemma_named_shares();
    lemma_unpacked(8873899, -30);
    lemma_unpacked(8801162, -29);
    lemma_twice(rrf_share(61));
    lemma_sum_monotone(rrf_share(61), rrf_share(61), rrf_share(vector_rank), rrf_share(fts_rank));
}

/// No chunk is found twice.
pub open spec fn distinct_hits(hits: Seq<HitView>) -> bool {
    forall|i: int, j: int|
        0 <= i < j < hits.len() ==> (#[trigger] hits[i]).chunk.id != (#[trigger] hits[j]).chunk.id
}

/// No hit is on the chunk.
pub open spec fn not_found(hits: Seq<HitView>, id: Seq<char>) -> bool {
    forall|i: int| 0 <= i < hits.len() ==> (#[trigger] hits[i]).chunk.id != id
}

/// Hits on other chunks leave an entry alone.
proof fn lemma_counted_other(
    map: Map<Seq<char>, RankedView>,
    hits: Seq<HitView>,
    channel: Channel,
    id: Seq<char>,
)
    requires
        not_found(hits, id),
    ensures
        counted(map, hits, channel).dom().contains(id) == map.dom().contains(id),
        counted(map, hits, channel)[id] == map[id],
    decreases hits.len(),
{
    if hits.len() > 0 {
        lemma_counted_other(map, hits.drop_last(), channel, id);
        assert(hits.last().chunk.id != id);
    }
}

/// The one hit on a chunk adds its rank.
proof fn lemma_counted_at(
    map: Map<Seq<char>, RankedView>,
    hits: Seq<HitView>,
    channel: Channel,
    i: int,
)
    requires
        distinct_hits(hits),
        0 <= i < hits.len(),
    ensures
        counted(map, hits, channel).dom().contains(hits[i].chunk.id),
        counted(map, hits, channel)[hits[i].chunk.id] == with_rank(
            known(map, hits[i].chunk),
            (i + 1) as nat,
            channel,
        ),
    decreases hits.len(),
{
    let before = hits.drop_last();
    if i == hits.len() - 1 {
        assert(not_found(before, hits[i].chunk.id));
        lemma_counted_other(map, before, channel, hits[i].chunk.id);
    } else {
        assert(distinct_hits(before));
        lemma_counted_at(map, before, channel, i);
        assert(before[i] == hits[i]);
        assert(hits.last().chunk.id != hits[i].chunk.id);
    }
}

/// A chunk that both searches find once scores the sum of both shares, and keeps
/// both ranks.
pub proof fn found_by_both(vector: Seq<HitView>, fts: Seq<HitView>, i: int, j: int)
    requires
        distinct_hits(vector),
        distinct_hits(fts),
        0 <= i < vector.len() <= usize::MAX,
        0 <= j < fts.len() <= usize::MAX,
        vector[i].chunk.id == fts[j].chunk.id,
    ensures
        fused(vector, fts).dom().contains(vector[i].chunk.id),
        fused(vector, fts)[vector[i].chunk.id] == (RankedView {
            chunk: vector[i].chunk,
            score: sum_of(rrf_share((i + 1) as nat), rrf_share((j + 1) as nat)) as u32,
            vector_rank: Some((i + 1) as usize),
            fts_rank: Some((j + 1) as usize),
        }),
{
    let first_pass = counted(Map::empty(), vector, Channel::Vector);
    lemma_counted_at(Map::empty(), vector, Channel::Vector, i);
    lemma_counted_at(first_pass, fts, Channel::Fts, j);
    lemma_share((i + 1) as nat);
    lemma_sum_sound(0, rrf_share((i + 1) as nat));
}

/// A chunk that only the vector search finds, once, scores the share of its rank,
/// and has no rank in the other search.
pub proof fn found_by_vector_alone(vector: Seq<HitView>, fts: Seq<HitView>, i: int)
    requires
        distinct_hits(vector),
        0 <= i < vector.len() <= usize::MAX,
        not_found(fts, vector[i].chunk.id),
    ensures
        fused(vector, fts).dom().contains(vector[i].chunk.id),
        fused(vector, fts)[vector[i].chunk.id] == (RankedView {
            chunk: vector[i].chunk,
            score: rrf_share((i + 1) as nat) as u32,
            vector_rank: Some((i + 1) as usize),
            fts_rank: None,
        }),
{
    let first_pass = counted(Map::empty(), vector, Channel::Vector);
    lemma_counted_at(Map::empty(), vector, Channel::Vector, i);
    lemma_counted_other(first_pass, fts, Channel::Fts, vector[i].chunk.id);
    lemma_share((i + 1) as nat);
    lemma_sum_sound(0, rrf_share((i + 1) as nat));
}

/// A chunk that only the full-text search finds, once, scores the share of its
/// rank, and has no rank in the other search.
pub proof fn found_by_text_alone(vector: Seq<HitView>, fts: Seq<HitView>, j: int)
    requires
        distinct_hits(fts),
        0 <= j < fts.len() <= usize::MAX,
        not_found(vector, fts[j].chunk.id),
    ensures
        fused(vector, fts).dom().contains(fts[j].chunk.id),
        fused(vector, fts)[fts[j].chunk.id] == (RankedView {
            chunk: fts[j].chunk,
            score: rrf_share((j + 1) as nat) as u32,
            vector_rank: None,
            fts_rank: Some((j + 1) as usize),
        }),
{
    let first_pass = counted(Map::empty(), vector, Channel::Vector);
    lemma_counted_other(Map::empty(), vector, Channel::Vector, fts[j].chunk.id);
    lemma_counted_at(first_pass, fts, Channel::Fts, j);
    lemma_share((j + 1) as nat);
    lemma_sum_sound(0, rrf_share((j + 1) as nat));
}

/// Every entry stands under the id of its chunk, has a sum of shares for its
/// score, and was found.
pub open spec fn sound_entries(map: Map<Seq<char>, RankedView>) -> bool {
    forall|id: Seq<char>| #[trigger]
        map.dom().contains(id) ==> map[id].chunk.id == id && is_sound(map[id].score as int)
}

pub proof fn lemma_counted_sound(
    map: Map<Seq<char>, RankedView>,
    hits: Seq<HitView>,
    channel: Channel,
)
    requires
        sound_entries(map),
        map.dom().finite(),
        hits.len() <= usize::MAX,
    ensures
        sound_entries(counted(map, hits, channel)),
        counted(map, hits, channel).dom().finite(),
    decreases hits.len(),
{
    if hits.len() > 0 {
        lemma_counted_sound(map, hits.drop_last(), channel);
        let before = counted(map, hits.drop_last(), channel);
        let hit = known(before, hits.last().chunk);
        lemma_share(hits.len());
        lemma_sum_sound(hit.score as int, rrf_share(hits.len()));
    }
}

/// The fused hits are the best of all that were found, best first: no chunk comes
/// twice, no later hit scores more than an earlier one, and nothing that was left
/// out scores more than what was kept.
pub proof fn fused_hits_are_the_best(
    vector: Seq<HitView>,
    fts: Seq<HitView>,
    k: nat,
    ranked: Seq<RankedView>,
)
    requires
        vector.len() <= usize::MAX,
        fts.len() <= usize::MAX,
        best_entries(fused(vector, fts), k, ranked),
    ensures
        ranked.len() == if fused(vector, fts).dom().len() <= k {
            fused(vector, fts).dom().len()
        } else {
            k
        },
        forall|i: int|
            0 <= i < ranked.len() ==> fused(vector, fts).dom().contains(
                (#[trigger] ranked[i]).chunk.id,
            ) && ranked[i] == fused(vector, fts)[ranked[i].chunk.id],
        forall|i: int, j: int|
            0 <= i < j < ranked.len() ==> (#[trigger] ranked[i]).chunk.id != (
            #[trigger] ranked[j]).chunk.id && ranked[i].score >= ranked[j].score,
        forall|i: int, id: Seq<char>|
            0 <= i < ranked.len() && fused(vector, fts).dom().contains(id) && (forall|j: int|
                0 <= j < ranked.len() ==> (#[trigger] ranked[j]).chunk.id != id) ==> (
            #[trigger] ranked[i]).score >= (#[trigger] fused(vector, fts)[id]).score,
{
    let map = fused(vector, fts);
    lemma_counted_sound(Map::empty(), vector, Channel::Vector);
    lemma_counted_sound(counted(Map::empty(), vector, Channel::Vector), fts, Channel::Fts);
    let (ids, sorted) = choose|ids: Seq<Seq<char>>, sorted: Seq<RankedView>|
        #![trigger lists_keys(map, ids), first(sorted, k)]
        lists_keys(map, ids) && stably_sorted::<u32, RankedView>(
            score_keys(entries(map, ids)),
            entries(map, ids),
            sorted,
        ) && ranked == first(sorted, k);
    let all = entries(map, ids);
    let keys = score_keys(all);
    let order = choose|order: Seq<int>| #[trigger]
        stable_order::<u32>(keys, order) && sorted == picked(all, order);
    assert forall|i: int, j: int| 0 <= i < j < ids.len() implies #[trigger] ids[i]
        != #[trigger] ids[j] by {
        assert(<String as Key>::before(ids[i], ids[j]));
        <String as Key>::irreflexive(ids[i]);
    }
    assert(ids.no_duplicates());
    ids.unique_seq_to_set();
    assert forall|i: int| 0 <= i < ids.len() implies map.dom().contains(#[trigger] ids[i]) by {
        assert(ids.contains(ids[i]));
        assert(ids.to_set().contains(ids[i]));
    }
    assert forall|i: int| 0 <= i < sorted.len() implies map.dom().contains(
        (#[trigger] sorted[i]).chunk.id,
    ) && sorted[i] == map[sorted[i].chunk.id] && sorted[i].chunk.id == ids[order[i]] by {
        assert(sorted[i] == all[order[i]]);
        assert(map.dom().contains(ids[order[i]]));
    }
    assert forall|i: int, j: int| 0 <= i < j < sorted.len() implies (
    #[trigger] sorted[i]).chunk.id != (#[trigger] sorted[j]).chunk.id && sorted[i].score
        >= sorted[j].score by {
        assert(in_stable_order::<u32>(keys, order[i], order[j]));
        assert(order[i] != order[j]);
        assert(ids[order[i]] != ids[order[j]]);
        assert(keys[order[i]] == 0xffff_ffff - order_key(sorted[i].score));
        assert(keys[order[j]] == 0xffff_ffff - order_key(sorted[j].score));
        assert(is_sound(map[sorted[i].chunk.id].score as int));
        assert(is_sound(map[sorted[j].chunk.id].score as int));
    }
    assert forall|i: int, id: Seq<char>|
        0 <= i < ranked.len() && map.dom().contains(id) && (forall|j: int|
            0 <= j < ranked.len() ==> (#[trigger] ranked[j]).chunk.id != id) implies (
    #[trigger] ranked[i]).score >= (#[trigger] map[id]).score by {
        assert(ids.to_set().contains(id));
        let at = ids.index_of(id);
        lemma_order_complete::<u32>(keys, order, at);
        let place = order.index_of(at);
        assert(sorted[place].chunk.id == id);
        assert(sorted[place] == map[id]);
        if place < ranked.len() {
            assert(ranked[place].chunk.id != id);
        }
        assert(sorted[i].score >= sorted[place].score);
    }
}

/// Fusion is determined: the same hits give the same ranking.
pub proof fn fusion_is_determined(
    vector: Seq<HitView>,
    fts: Seq<HitView>,
    k: nat,
    a: Seq<RankedView>,
    b: Seq<RankedView>,
)
    requires
        best_entries(fused(vector, fts), k, a),
        best_entries(fused(vector, fts), k, b),
    ensures
        a == b,
{
    let map = fused(vector, fts);
    let (ids, sorted) = choose|ids: Seq<Seq<char>>, sorted: Seq<RankedView>|
        #![trigger lists_keys(map, ids), first(sorted, k)]
        lists_keys(map, ids) && stably_sorted::<u32, RankedView>(
            score_keys(entries(map, ids)),
            entries(map, ids),
            sorted,
        ) && a == first(sorted, k);
    let (other_ids, other_sorted) = choose|ids: Seq<Seq<char>>, sorted: Seq<RankedView>|
        #![trigger lists_keys(map, ids), first(sorted, k)]
        lists_keys(map, ids) && stably_sorted::<u32, RankedView>(
            score_keys(entries(map, ids)),
            entries(map, ids),
            sorted,
        ) && b == first(sorted, k);
    lemma_ascending_unique::<String>(ids, other_ids);
    let all = entries(map, ids);
    sorting_is_determined::<u32, RankedView>(score_keys(all), all, sorted, other_sorted);
}

/// Where no search finds a chunk twice, a chunk that both rank within the first
/// sixty-one comes before every chunk that only one of them finds.
pub proof fn chunks_found_by_both_come_first(
    vector: Seq<HitView>,
    fts: Seq<HitView>,
    k: nat,
    ranked: Seq<RankedView>,
    i: int,
    j: int,
    both: int,
    one: int,
)
    requires
        distinct_hits(vector),
        distinct_hits(fts),
        vector.len() <= usize::MAX,
        fts.len() <= usize::MAX,
        best_entries(fused(vector, fts), k, ranked),
        0 <= i < vector.len() && i < 61,
        0 <= j < fts.len() && j < 61,
        vector[i].chunk.id == fts[j].chunk.id,
        0 <= both < ranked.len(),
        ranked[both].chunk.id == vector[i].chunk.id,
        0 <= one < ranked.len(),
        not_found(vector, ranked[one].chunk.id) || not_found(fts, ranked[one].chunk.id),
    ensures
        both < one,
{
    fused_hits_are_the_best(vector, fts, k, ranked);
    found_by_both(vector, fts, i, j);
    let id = ranked[one].chunk.id;
    let map = fused(vector, fts);
    let first_pass = counted(Map::empty(), vector, Channel::Vector);
    assert(map.dom().contains(id));
    if not_found(vector, id) {
        lemma_counted_other(Map::empty(), vector, Channel::Vector, id);
        if not_found(fts, id) {
            lemma_counted_other(first_pass, fts, Channel::Fts, id);
        }
        let at = choose|at: int| 0 <= at < fts.len() && (#[trigger] fts[at]).chunk.id == id;
        found_by_text_alone(vector, fts, at);
        two_good_ranks_beat_one((i + 1) as nat, (j + 1) as nat, (at + 1) as nat);
        lemma_share((at + 1) as nat);
    } else {
        let at = choose|at: int| 0 <= at < vector.len() && (#[trigger] vector[at]).chunk.id == id;
        found_by_vector_alone(vector, fts, at);
        two_good_ranks_beat_one((i + 1) as nat, (j + 1) as nat, (at + 1) as nat);
        lemma_share((at + 1) as nat);
    }
    lemma_share((i + 1) as nat);
    lemma_share((j + 1) as nat);
    lemma_sum_sound(rrf_share((i + 1) as nat), rrf_share((j + 1) as nat));
    assert(ranked[both].score > ranked[one].score);
}

// ---------------------------------------------------------------- names

/// Built-ins and globals that are called but never defined in a source.
pub open spec fn builtin_names() -> Seq<Seq<char>> {
    seq![
        "require"@,
        "assert"@,
        "revert"@,
        "keccak256"@,
        "sha256"@,
        "ripemd160"@,
        "ecrecover"@,
        "addmod"@,
        "mulmod"@,
        "selfdestruct"@,
        "payable"@,
        "address"@,
        "uint256"@,
        "uint128"@,
        "uint64"@,
        "uint32"@,
        "uint8"@,
        "int256"@,
        "bytes32"@,
        "bytes"@,
        "string"@,
        "bool"@,
        "type"@,
        "abi"@,
        "msg"@,
        "block"@,
        "tx"@,
        "super"@,
        "this"@,
    ]
}

/// Whether a name is that of a built-in or a global.
pub fn is_builtin(name: &str) -> (found: bool)
    ensures
        found == builtin_names().contains(name@),
{
    let names = [
        "require",
        "assert",
        "revert",
        "keccak256",
        "sha256",
        "ripemd160",
        "ecrecover",
        "addmod",
        "mulmod",
        "selfdestruct",
        "payable",
        "address",
        "uint256",
        "uint128",
        "uint64",
        "uint32",
        "uint8",
        "int256",
        "bytes32",
        "bytes",
        "string",
        "bool",
        "type",
        "abi",
        "msg",
        "block",
        "tx",
        "super",
        "this",
    ];
    assert(str_views(names@) =~= builtin_names());
    let mut i: usize = 0;
    while i < 29
        invariant
            i <= 29,
            str_views(names@) == builtin_names(),
            names@.len() == 29,
            forall|j: int| 0 <= j < i ==> builtin_names()[j] != name@,
        decreases 29 - i,
    {
        assert(str_views(names@)[i as int] == names@[i as int]@);
        if same_text(names[i], name) {
            return true;
        }
        i += 1;
    }
    false
}

/// Path segments of auxiliary code: test doubles and declarations without bodies.
pub open spec fn auxiliary_paths() -> Seq<Seq<char>> {
    seq!["mocks/"@, "mock/"@, "tests/"@, "test/"@, "interfaces/"@]
}

/// The path segments that both passes exclude.
pub open spec fn excluded_paths(options: RetrievalOptions) -> Seq<Seq<char>> {
    if options.include_auxiliary {
        Seq::empty()
    } else {
        auxiliary_paths()
    }
}

/// The path segments that both passes exclude.
pub fn excluded_segments(options: RetrievalOptions) -> (segments: Vec<&'static str>)
    ensures
        str_views(segments@) == excluded_paths(options),
{
    let mut segments: Vec<&'static str> = Vec::new();
    if !options.include_auxiliary {
        segments.push("mocks/");
        segments.push("mock/");
        segments.push("tests/");
        segments.push("test/");
        segments.push("interfaces/");
    }
    assert(str_views(segments@) =~= excluded_paths(options));
    segments
}

/// A path holds a segment: it stands at the start of the path or behind a slash.
pub open spec fn holds_segment(path: Seq<char>, segment: Seq<char>) -> bool {
    exists|k: int| #[trigger] occurs_at(path, segment, k) && (k == 0 || path[k - 1] == '/')
}

/// Whether a path holds a segment.
pub fn path_holds_segment(path: &str, segment: &str) -> (found: bool)
    ensures
        found == holds_segment(path@, segment@),
{
    let chars = chars_of(path);
    let part = chars_of(segment);
    let mut k: usize = 0;
    while k < chars.len() && part.len() <= chars.len() - k
        invariant
            chars@ == path@,
            part@ == segment@,
            k <= chars.len(),
            forall|j: int| 0 <= j < k && (j == 0 || path@[j - 1] == '/') ==> !#[trigger] occurs_at(
                path@,
                segment@,
                j,
            ),
        decreases chars.len() - k,
    {
        if (k == 0 || chars[k - 1] == '/') && matches_at(&chars, &part, k) {
            return true;
        }
        k += 1;
    }
    if part.len() == 0 && (k == 0 || chars[k - 1] == '/') {
        assert(path@.subrange(k as int, k as int) =~= segment@);
        assert(occurs_at(path@, segment@, k as int));
        return true;
    }
    false
}

/// A path of auxiliary code.
pub open spec fn is_auxiliary(path: Seq<char>) -> bool {
    exists|i: int|
        0 <= i < auxiliary_paths().len() && holds_segment(path, #[trigger] auxiliary_paths()[i])
}

/// Whether a path is one of auxiliary code.
pub fn is_auxiliary_path(path: &str) -> (found: bool)
    ensures
        found == is_auxiliary(path@),
{
    let segments = excluded_segments(RetrievalOptions { include_auxiliary: false });
    let ghost all = auxiliary_paths();
    let mut i: usize = 0;
    while i < segments.len()
        invariant
            i <= segments.len(),
            all == auxiliary_paths(),
            str_views(segments@) == all,
            forall|j: int| 0 <= j < i ==> !holds_segment(path@, #[trigger] all[j]),
        decreases segments.len() - i,
    {
        assert(str_views(segments@)[i as int] == segments@[i as int]@);
        if path_holds_segment(path, segments[i]) {
            assert(holds_segment(path@, auxiliary_paths()[i as int]));
            return true;
        }
        i += 1;
    }
    false
}

/// The chunks that a graph is made of: those outside auxiliary paths, or all of
/// them.
pub open spec fn exported(chunks: Seq<StoredChunkView>, include_auxiliary: bool) -> Seq<
    StoredChunkView,
> {
    if include_auxiliary {
        chunks
    } else {
        chunks.filter(|chunk: StoredChunkView| !is_auxiliary(chunk.file_path))
    }
}

/// The chunks that a graph is made of, in their order.
pub fn exported_chunks(chunks: Vec<StoredChunk>, include_auxiliary: bool) -> (kept: Vec<
    StoredChunk,
>)
    ensures
        viewed(kept@) == exported(viewed(chunks@), include_auxiliary),
{
    if include_auxiliary {
        return chunks;
    }
    let ghost all = viewed(chunks@);
    let ghost outside = |chunk: StoredChunkView| !is_auxiliary(chunk.file_path);
    let mut kept: Vec<StoredChunk> = Vec::new();
    proof {
        reveal(Seq::filter);
    }
    assert(viewed(kept@) =~= all.take(0).filter(outside));
    for chunk in it: chunks
        invariant
            it.seq() == chunks@,
            all == viewed(chunks@),
            outside == (|chunk: StoredChunkView| !is_auxiliary(chunk.file_path)),
            viewed(kept@) == all.take(it.index()).filter(outside),
    {
        proof {
            reveal(Seq::filter);
        }
        let ghost before = viewed(kept@);
        assert(all.take(it.index() + 1).drop_last() =~= all.take(it.index()));
        assert(all.take(it.index() + 1).last() == chunk@);
        let ghost said = chunk@;
        if !is_auxiliary_path(chunk.file_path.as_str()) {
            kept.push(chunk);
            assert(viewed(kept@) =~= before.push(said));
        }
    }
    assert(all.take(all.len() as int) =~= all);
    kept
}

/// What stands before the first `{` or `(` of a symbol, without white space
/// around it: `call{value: x}` is cut to `call`, `f(a)` to `f`.
pub open spec fn head_of(symbol: Seq<char>) -> Seq<char> {
    trimmed(before_mark(symbol, seq!['{', '(']))
}

/// The characters of the head of a symbol.
pub fn head_chars(symbol: &str) -> (head: Vec<char>)
    ensures
        head@ == head_of(symbol@),
{
    let chars = chars_of(symbol);
    let marks = ['{', '('];
    assert(marks@ =~= seq!['{', '(']);
    let mut before = chars;
    let end = find_mark(&before, &marks);
    before.truncate(end);
    assert(before@ =~= before_mark(symbol@, seq!['{', '(']));
    trim_chars(&before)
}

/// What stands before the first dot.
pub open spec fn first_part(head: Seq<char>) -> Seq<char> {
    before_mark(head, seq!['.'])
}

/// A name that a symbol refers to: what stands before its first dot or after its
/// last one, if it could be an identifier and is no built-in.
pub open spec fn refers(symbol: Seq<char>, name: Seq<char>) -> bool {
    let head = head_of(symbol);
    &&& name == first_part(head) || name == after_last(head, '.')
    &&& is_identifier(name)
    &&& !builtin_names().contains(name)
}

/// A name that some symbol of the hits refers to.
pub open spec fn harvested(primary: Seq<RankedView>, name: Seq<char>) -> bool {
    exists|i: int, j: int|
        0 <= i < primary.len() && 0 <= j < primary[i].chunk.referenced_symbols.len() && refers(
            #[trigger] primary[i].chunk.referenced_symbols[j],
            name,
        )
}

/// Adds a name if it could be an identifier and is no built-in.
fn add_name(names: &mut OrderedSet<String>, name: String)
    requires
        old(names).wf(),
    ensures
        final(names).wf(),
        final(names)@ == if is_identifier(name@) && !builtin_names().contains(name@) {
            old(names)@.insert(name@)
        } else {
            old(names)@
        },
{
    if is_solidity_identifier(name.as_str()) && !is_builtin(name.as_str()) {
        names.insert(name);
    }
}

/// The names that one symbol refers to.
fn add_references(names: &mut OrderedSet<String>, symbol: &str)
    requires
        old(names).wf(),
    ensures
        final(names).wf(),
        forall|name: Seq<char>| #[trigger]
            final(names)@.contains(name) == (old(names)@.contains(name) || refers(symbol@, name)),
{
    let head = head_chars(symbol);
    let marks = ['.'];
    assert(marks@ =~= seq!['.']);
    let end = find_mark(&head, &marks);
    let first_name = text_between(&head, 0, end);
    assert(first_name@ =~= first_part(head@));
    let start = after_last_mark(&head, '.');
    let last_name = text_between(&head, start, head.len());
    assert(last_name@ =~= after_last(head@, '.'));
    add_name(names, first_name);
    add_name(names, last_name);
}

/// The names that the symbols of the hits refer to, in ascending order.
pub fn harvest_symbols(primary: &Vec<RankedChunk>) -> (symbols: Vec<String>)
    ensures
        ascending::<String>(views(symbols@)),
        forall|name: Seq<char>| #[trigger]
            views(symbols@).contains(name) == harvested(viewed(primary@), name),
{
    let ghost all = viewed(primary@);
    let mut names: OrderedSet<String> = OrderedSet::new();
    let mut i: usize = 0;
    while i < primary.len()
        invariant
            i <= primary.len(),
            all == viewed(primary@),
            names.wf(),
            forall|name: Seq<char>| #[trigger]
                names@.contains(name) == harvested(all.take(i as int), name),
        decreases primary.len() - i,
    {
        let list = &primary[i].chunk.referenced_symbols;
        let ghost said = views(list@);
        assert(all[i as int].chunk.referenced_symbols == said);
        let ghost before = names@;
        let mut j: usize = 0;
        while j < list.len()
            invariant
                i < primary.len(),
                j <= list.len(),
                said == views(list@),
                names.wf(),
                forall|name: Seq<char>| #[trigger]
                    names@.contains(name) == (before.contains(name) || exists|m: int|
                        0 <= m < j && refers(#[trigger] said[m], name)),
            decreases list.len() - j,
        {
            let ghost known_names = names@;
            assert(said[j as int] == list@[j as int]@);
            add_references(&mut names, list[j].as_str());
            assert forall|name: Seq<char>| #[trigger]
                names@.contains(name) == (before.contains(name) || exists|m: int|
                    0 <= m < j + 1 && refers(#[trigger] said[m], name)) by {
                if refers(said[j as int], name) {
                }
                assert(names@.contains(name) == (known_names.contains(name) || refers(
                    said[j as int],
                    name,
                )));
            }
            j += 1;
        }
        assert forall|name: Seq<char>| #[trigger] names@.contains(name) == harvested(
            all.take(i + 1),
            name,
        ) by {
            let now = all.take(i + 1);
            let then = all.take(i as int);
            if harvested(then, name) {
                let (a, b) = choose|a: int, b: int|
                    0 <= a < then.len() && 0 <= b < then[a].chunk.referenced_symbols.len()
                        && refers(#[trigger] then[a].chunk.referenced_symbols[b], name);
                assert(refers(now[a].chunk.referenced_symbols[b], name));
            }
            if exists|m: int| 0 <= m < j && refers(#[trigger] said[m], name) {
                let m = choose|m: int| 0 <= m < j && refers(#[trigger] said[m], name);
                assert(refers(now[i as int].chunk.referenced_symbols[m], name));
            }
            if harvested(now, name) {
                let (a, b) = choose|a: int, b: int|
                    0 <= a < now.len() && 0 <= b < now[a].chunk.referenced_symbols.len() && refers(
                        #[trigger] now[a].chunk.referenced_symbols[b],
                        name,
                    );
                if a < i {
                    assert(refers(then[a].chunk.referenced_symbols[b], name));
                } else {
                    assert(refers(said[b], name));
                }
            }
        }
        i += 1;
    }
    assert(all.take(i as int) =~= all);
    let ghost found = names@;
    let symbols = names.into_vec();
    assert(viewed(symbols@) =~= views(symbols@));
    assert forall|name: Seq<char>| #[trigger] views(symbols@).contains(name) == harvested(
        all,
        name,
    ) by {
        assert(viewed(symbols@).to_set().contains(name) == found.contains(name));
    }
    symbols
}

// ---------------------------------------------------------------- locality

/// How close a chunk stands to the hits: the tier, then contract and function.
pub struct Locality {
    pub tier: u32,
    pub contract: String,
    pub function: String,
}

impl View for Locality {
    type V = (u32, Seq<char>, Seq<char>);

    open spec fn view(&self) -> (u32, Seq<char>, Seq<char>) {
        (self.tier, self.contract@, self.function@)
    }
}

/// The order of localities: by tier, then by contract, then by function.
pub open spec fn locality_before(
    a: (u32, Seq<char>, Seq<char>),
    b: (u32, Seq<char>, Seq<char>),
) -> bool {
    ||| a.0 < b.0
    ||| a.0 == b.0 && text_before(a.1, b.1)
    ||| a.0 == b.0 && a.1 == b.1 && text_before(a.2, b.2)
}

impl Key for Locality {
    open spec fn before(a: (u32, Seq<char>, Seq<char>), b: (u32, Seq<char>, Seq<char>)) -> bool {
        locality_before(a, b)
    }

    proof fn irreflexive(a: (u32, Seq<char>, Seq<char>)) {
        lemma_text_irreflexive(a.1);
        lemma_text_irreflexive(a.2);
    }

    proof fn transitive(
        a: (u32, Seq<char>, Seq<char>),
        b: (u32, Seq<char>, Seq<char>),
        c: (u32, Seq<char>, Seq<char>),
    ) {
        if text_before(a.1, b.1) && text_before(b.1, c.1) {
            lemma_text_transitive(a.1, b.1, c.1);
        }
        if text_before(a.2, b.2) && text_before(b.2, c.2) {
            lemma_text_transitive(a.2, b.2, c.2);
        }
    }

    proof fn connected(a: (u32, Seq<char>, Seq<char>), b: (u32, Seq<char>, Seq<char>)) {
        if a.1 != b.1 {
            lemma_text_connected(a.1, b.1);
        }
        if a.2 != b.2 {
            lemma_text_connected(a.2, b.2);
        }
    }

    fn less(&self, other: &Self) -> (less: bool) {
        if self.tier != other.tier {
            return self.tier < other.tier;
        }
        if !same_text(self.contract.as_str(), other.contract.as_str()) {
            proof {
                lemma_text_irreflexive(self.contract@);
            }
            return text_less(self.contract.as_str(), other.contract.as_str());
        }
        proof {
            lemma_text_irreflexive(self.contract@);
        }
        text_less(self.function.as_str(), other.function.as_str())
    }
}

/// Some hit is in the contract.
pub open spec fn hits_contract(primary: Seq<RankedView>, contract: Seq<char>) -> bool {
    exists|i: int| 0 <= i < primary.len() && (#[trigger] primary[i]).chunk.contract_name == contract
}

/// Some hit is in the file.
pub open spec fn hits_file(primary: Seq<RankedView>, path: Seq<char>) -> bool {
    exists|i: int| 0 <= i < primary.len() && (#[trigger] primary[i]).chunk.file_path == path
}

/// The tier of a chunk: the contract of a hit, the file of a hit, or elsewhere.
pub open spec fn tier_of(primary: Seq<RankedView>, chunk: StoredChunkView) -> u32 {
    if hits_contract(primary, chunk.contract_name) {
        0
    } else if hits_file(primary, chunk.file_path) {
        1
    } else {
        2
    }
}

/// The locality of a chunk.
pub open spec fn locality_of(primary: Seq<RankedView>, chunk: StoredChunkView) -> (
    u32,
    Seq<char>,
    Seq<char>,
) {
    (tier_of(primary, chunk), chunk.contract_name, chunk.function_name)
}

/// The localities of chunks.
pub open spec fn localities(primary: Seq<RankedView>, chunks: Seq<StoredChunkView>) -> Seq<
    (u32, Seq<char>, Seq<char>),
> {
    chunks.map_values(|chunk: StoredChunkView| locality_of(primary, chunk))
}

/// `sorted` holds the chunks by locality, and those of one locality in their order.
pub open spec fn closest_first(
    primary: Seq<RankedView>,
    chunks: Seq<StoredChunkView>,
    sorted: Seq<StoredChunkView>,
) -> bool {
    stably_sorted::<Locality, StoredChunkView>(localities(primary, chunks), chunks, sorted)
}

/// Of two chunks sorted by locality the earlier one is not further away, and of
/// equally close ones it stood first.
pub proof fn closer_chunks_come_first(
    primary: Seq<RankedView>,
    chunks: Seq<StoredChunkView>,
    sorted: Seq<StoredChunkView>,
    i: int,
    j: int,
)
    requires
        closest_first(primary, chunks, sorted),
        0 <= i < j < sorted.len(),
    ensures
        sorted.len() == chunks.len(),
        !locality_before(locality_of(primary, sorted[j]), locality_of(primary, sorted[i])),
        exists|a: int, b: int|
            0 <= a < chunks.len() && 0 <= b < chunks.len() && sorted[i] == #[trigger] chunks[a]
                && sorted[j] == #[trigger] chunks[b] && a != b && (locality_of(primary, sorted[i])
                == locality_of(primary, sorted[j]) ==> a < b),
{
    let keys = localities(primary, chunks);
    let order = choose|order: Seq<int>| #[trigger]
        stable_order::<Locality>(keys, order) && sorted == picked(chunks, order);
    let a = order[i];
    let b = order[j];
    assert(in_stable_order::<Locality>(keys, order[i], order[j]));
    assert(sorted[i] == chunks[a] && sorted[j] == chunks[b]);
    assert(keys[a] == locality_of(primary, sorted[i]) && keys[b] == locality_of(
        primary,
        sorted[j],
    ));
    <Locality as Key>::irreflexive(keys[a]);
    if locality_before(keys[a], keys[b]) && locality_before(keys[b], keys[a]) {
        <Locality as Key>::transitive(keys[a], keys[b], keys[a]);
    }
}

/// The tier of a chunk.
fn tier(primary: &Vec<RankedChunk>, chunk: &StoredChunk) -> (tier: u32)
    ensures
        tier == tier_of(viewed(primary@), chunk@),
{
    let ghost all = viewed(primary@);
    let mut in_file = false;
    let mut i: usize = 0;
    while i < primary.len()
        invariant
            i <= primary.len(),
            all == viewed(primary@),
            forall|j: int| 0 <= j < i ==> (#[trigger] all[j]).chunk.contract_name != chunk@.contract_name,
            in_file == exists|j: int|
                0 <= j < i && (#[trigger] all[j]).chunk.file_path == chunk@.file_path,
        decreases primary.len() - i,
    {
        assert(all[i as int] == primary@[i as int]@);
        if same_text(primary[i].chunk.contract_name.as_str(), chunk.contract_name.as_str()) {
            return 0;
        }
        if same_text(primary[i].chunk.file_path.as_str(), chunk.file_path.as_str()) {
            in_file = true;
        }
        i += 1;
    }
    if in_file {
        1
    } else {
        2
    }
}

/// Sorts chunks by how close they stand to the hits: those of the same contract,
/// then those of the same file, then all others, each by contract and function.
pub fn sort_by_locality(dependencies: &mut Vec<StoredChunk>, primary: &Vec<RankedChunk>)
    ensures
        closest_first(viewed(primary@), viewed(old(dependencies)@), viewed(final(dependencies)@)),
{
    let ghost hits = viewed(primary@);
    let ghost unsorted = dependencies@;
    let mut keys: Vec<Locality> = Vec::new();
    let mut i: usize = 0;
    while i < dependencies.len()
        invariant
            i <= dependencies.len(),
            dependencies@ == unsorted,
            hits == viewed(primary@),
            keys.len() == i,
            forall|j: int|
                0 <= j < i ==> (#[trigger] keys@[j])@ == locality_of(hits, unsorted[j]@),
        decreases dependencies.len() - i,
    {
        let chunk = &dependencies[i];
        keys.push(
            Locality {
                tier: tier(primary, chunk),
                contract: chunk.contract_name.clone(),
                function: chunk.function_name.clone(),
            },
        );
        i += 1;
    }
    assert(viewed(keys@) =~= localities(hits, viewed(unsorted)));
    let mut chunks: Vec<StoredChunk> = Vec::new();
    std::mem::swap(&mut chunks, dependencies);
    let sorted = stable_sort(keys, chunks);
    proof {
        lemma_sorted_views::<Locality, StoredChunk>(
            localities(hits, viewed(unsorted)),
            unsorted,
            sorted@,
        );
    }
    *dependencies = sorted;
}

// ---------------------------------------------------------------- rendering

/// A chunk as a section of the document.
pub open spec fn chunk_section(
    chunk: StoredChunkView,
    label: Seq<char>,
    detail: Seq<char>,
) -> Seq<char> {
    "\n## ["@ + label + "] `"@ + chunk.contract_name + "."@ + chunk.function_name + "`\n\n"@
        + "- Source: `"@ + chunk.file_path + ":"@ + decimal(chunk.start_line as nat) + "-"@
        + decimal(chunk.end_line as nat) + "`\n- Kind: "@ + chunk.kind + "\n"@ + detail
        + references_of(chunk) + "\n```solidity\n"@ + chunk.code_content + "\n```\n"@
}

/// The line that lists the symbols of a chunk, if it has any.
pub open spec fn references_of(chunk: StoredChunkView) -> Seq<char> {
    if chunk.referenced_symbols.len() == 0 {
        Seq::empty()
    } else {
        "- References: "@ + joined(chunk.referenced_symbols, ", "@) + "\n"@
    }
}

/// Renders a chunk as a section of the document.
pub fn render_chunk(chunk: &StoredChunk, label: &str, detail: &str) -> (md: String)
    ensures
        md@ == chunk_section(chunk@, label@, detail@),
{
    let mut md = "\n## [".to_owned();
    md.append(label);
    md.append("] `");
    md.append(chunk.contract_name.as_str());
    md.append(".");
    md.append(chunk.function_name.as_str());
    md.append("`\n\n");
    md.append("- Source: `");
    md.append(chunk.file_path.as_str());
    md.append(":");
    let start = decimal_text(chunk.start_line as u128);
    md.append(start.as_str());
    md.append("-");
    let end = decimal_text(chunk.end_line as u128);
    md.append(end.as_str());
    md.append("`\n- Kind: ");
    md.append(chunk.kind.as_str());
    md.append("\n");
    md.append(detail);
    let ghost before = md@;
    if chunk.referenced_symbols.len() > 0 {
        md.append("- References: ");
        let list = join(&chunk.referenced_symbols, ", ");
        md.append(list.as_str());
        md.append("\n");
    }
    assert(md@ =~= before + references_of(chunk@));
    md.append("\n```solidity\n");
    md.append(chunk.code_content.as_str());
    md.append("\n```\n");
    md
}

/// The ranks of a hit in words.
pub open spec fn rank_words(hit: RankedView) -> Seq<Seq<char>> {
    let vector = match hit.vector_rank {
        Some(rank) => seq!["semantic #"@ + decimal(rank as nat)],
        None => Seq::empty(),
    };
    let fts = match hit.fts_rank {
        Some(rank) => seq!["text #"@ + decimal(rank as nat)],
        None => Seq::empty(),
    };
    vector + fts
}

/// The line on how a hit was found.
pub open spec fn retrieval_line(hit: RankedView) -> Seq<char> {
    "- Retrieval: "@ + joined(rank_words(hit), ", "@) + " (RRF "@ + four_places_text(hit.score)
        + ")\n"@
}

/// The line on how a hit was found.
fn retrieval_text(hit: &RankedChunk) -> (line: String)
    ensures
        line@ == retrieval_line(hit@),
{
    let mut words: Vec<String> = Vec::new();
    if let Some(rank) = hit.vector_rank {
        let mut word = "semantic #".to_owned();
        let number = decimal_text(rank as u128);
        word.append(number.as_str());
        words.push(word);
    }
    if let Some(rank) = hit.fts_rank {
        let mut word = "text #".to_owned();
        let number = decimal_text(rank as u128);
        word.append(number.as_str());
        words.push(word);
    }
    assert(views(words@) =~= rank_words(hit@));
    let mut line = "- Retrieval: ".to_owned();
    let ranks = join(&words, ", ");
    line.append(ranks.as_str());
    line.append(" (RRF ");
    let score = hit.rrf_score.four_places();
    line.append(score.as_str());
    line.append(")\n");
    line
}

/// The sections of the hits.
pub open spec fn primary_sections(primary: Seq<RankedView>) -> Seq<char>
    decreases primary.len(),
{
    if primary.len() == 0 {
        Seq::empty()
    } else {
        primary_sections(primary.drop_last()) + chunk_section(
            primary.last().chunk,
            "PRIMARY MATCH"@,
            retrieval_line(primary.last()),
        )
    }
}

/// The sections of the chunks that the hits refer to.
pub open spec fn dependency_sections(chunks: Seq<StoredChunkView>) -> Seq<char>
    decreases chunks.len(),
{
    if chunks.len() == 0 {
        Seq::empty()
    } else {
        dependency_sections(chunks.drop_last()) + chunk_section(
            chunks.last(),
            "DEPENDENCY CONTEXT"@,
            ""@,
        )
    }
}

/// The whole document.
pub open spec fn document(
    query: Seq<char>,
    primary: Seq<RankedView>,
    dependencies: Seq<StoredChunkView>,
) -> Seq<char> {
    "# Retrieved context\n\nQuery: **"@ + query + "**\n"@ + primary_sections(primary) + if dependencies.len()
        == 0 {
        Seq::empty()
    } else {
        "\n---\n\nThe following definitions are referenced by the primary matches and are included as supporting context.\n"@
            + dependency_sections(dependencies)
    }
}

/// What both passes found.
#[derive(Debug)]
pub struct AssembledContext {
    /// Hits of the first pass, best first.
    pub primary: Vec<RankedChunk>,
    /// Chunks of the second pass that are no hits of the first.
    pub dependencies: Vec<StoredChunk>,
    /// The names that the second pass looked up.
    pub expanded_symbols: Vec<String>,
}

impl AssembledContext {
    /// Renders the context as one Markdown document.
    pub fn to_markdown(&self, query: &str) -> (md: String)
        ensures
            md@ == document(query@, viewed(self.primary@), viewed(self.dependencies@)),
    {
        let ghost hits = viewed(self.primary@);
        let ghost chunks = viewed(self.dependencies@);
        let mut md = "# Retrieved context\n\nQuery: **".to_owned();
        md.append(query);
        md.append("**\n");
        let ghost title = md@;
        let mut i: usize = 0;
        assert(md@ =~= title + primary_sections(hits.take(0)));
        while i < self.primary.len()
            invariant
                i <= self.primary.len(),
                hits == viewed(self.primary@),
                md@ == title + primary_sections(hits.take(i as int)),
            decreases self.primary.len() - i,
        {
            let hit = &self.primary[i];
            let detail = retrieval_text(hit);
            let section = render_chunk(&hit.chunk, "PRIMARY MATCH", detail.as_str());
            md.append(section.as_str());
            assert(hits.take(i + 1).drop_last() =~= hits.take(i as int));
            assert(hits.take(i + 1).last() == hit@);
            assert(md@ =~= title + primary_sections(hits.take(i + 1)));
            i += 1;
        }
        assert(hits.take(i as int) =~= hits);
        if self.dependencies.len() > 0 {
            md.append(
                "\n---\n\nThe following definitions are referenced by the primary matches and are included as supporting context.\n",
            );
            let ghost above = md@;
            let mut j: usize = 0;
            assert(md@ =~= above + dependency_sections(chunks.take(0)));
            while j < self.dependencies.len()
                invariant
                    j <= self.dependencies.len(),
                    chunks == viewed(self.dependencies@),
                    md@ == above + dependency_sections(chunks.take(j as int)),
                decreases self.dependencies.len() - j,
            {
                let chunk = &self.dependencies[j];
                let section = render_chunk(chunk, "DEPENDENCY CONTEXT", "");
                md.append(section.as_str());
                assert(chunks.take(j + 1).drop_last() =~= chunks.take(j as int));
                assert(chunks.take(j + 1).last() == chunk@);
                assert(md@ =~= above + dependency_sections(chunks.take(j + 1)));
                j += 1;
            }
            assert(chunks.take(j as int) =~= chunks);
        }
        assert(md@ =~= document(query@, hits, chunks));
        md
    }
}

// ---------------------------------------------------------------- assembly

/// What to ask of both searches.
pub struct SearchPlan {
    /// How many hits to ask of each: twice as many as are wanted, so that the fused
    /// ones have candidates from both.
    pub limit: usize,
    /// The path segments to exclude.
    pub excluded: Vec<&'static str>,
}

/// What to ask of both searches for `k` fused hits.
pub fn plan_search(k: usize, options: RetrievalOptions) -> (plan: SearchPlan)
    requires
        2 * k <= usize::MAX,
    ensures
        plan.limit == 2 * k,
        str_views(plan.excluded@) == excluded_paths(options),
{
    SearchPlan { limit: k * 2, excluded: excluded_segments(options) }
}

/// What the first pass gives: the fused hits, and the names to look up.
pub struct FirstPass {
    pub primary: Vec<RankedChunk>,
    pub symbols: Vec<String>,
}

/// Fuses the hits of both searches, and takes from them the names for the second
/// pass.
pub fn first_pass(vector: Vec<SearchResult>, fts: Vec<FtsResult>, k: usize) -> (pass: FirstPass)
    ensures
        best_entries(fused(viewed(vector@), viewed(fts@)), k as nat, viewed(pass.primary@)),
        ascending::<String>(views(pass.symbols@)),
        forall|name: Seq<char>| #[trigger]
            views(pass.symbols@).contains(name) == harvested(viewed(pass.primary@), name),
{
    let primary = fuse_rrf(vector, fts, k);
    let symbols = harvest_symbols(&primary);
    FirstPass { primary, symbols }
}

/// Some hit is on the chunk.
pub open spec fn is_primary(primary: Seq<RankedView>, id: Seq<char>) -> bool {
    exists|i: int| 0 <= i < primary.len() && (#[trigger] primary[i]).chunk.id == id
}

/// The chunks that are no hits.
pub open spec fn beyond(primary: Seq<RankedView>, chunks: Seq<StoredChunkView>) -> Seq<StoredChunkView>
    decreases chunks.len(),
{
    if chunks.len() == 0 {
        Seq::empty()
    } else {
        let before = beyond(primary, chunks.drop_last());
        if is_primary(primary, chunks.last().id) {
            before
        } else {
            before.push(chunks.last())
        }
    }
}

fn has_hit(primary: &Vec<RankedChunk>, id: &str) -> (found: bool)
    ensures
        found == is_primary(viewed(primary@), id@),
{
    let ghost all = viewed(primary@);
    let mut i: usize = 0;
    while i < primary.len()
        invariant
            i <= primary.len(),
            all == viewed(primary@),
            forall|j: int| 0 <= j < i ==> (#[trigger] all[j]).chunk.id != id@,
        decreases primary.len() - i,
    {
        assert(all[i as int] == primary@[i as int]@);
        if same_text(primary[i].chunk.id.as_str(), id) {
            return true;
        }
        i += 1;
    }
    false
}

/// Puts both passes together: what the second pass found, without the hits of the
/// first, sorted by locality.
pub fn assemble(pass: FirstPass, found: Vec<StoredChunk>) -> (context: AssembledContext)
    ensures
        context.primary == pass.primary,
        context.expanded_symbols == pass.symbols,
        closest_first(
            viewed(pass.primary@),
            beyond(viewed(pass.primary@), viewed(found@)),
            viewed(context.dependencies@),
        ),
{
    let primary = pass.primary;
    let ghost hits = viewed(primary@);
    let ghost all = viewed(found@);
    let mut dependencies: Vec<StoredChunk> = Vec::new();
    assert(viewed(dependencies@) =~= beyond(hits, all.take(0)));
    for chunk in it: found
        invariant
            it.seq() == found@,
            hits == viewed(primary@),
            all == viewed(found@),
            viewed(dependencies@) == beyond(hits, all.take(it.index())),
    {
        let ghost before = viewed(dependencies@);
        assert(all.take(it.index() + 1).drop_last() =~= all.take(it.index()));
        assert(all.take(it.index() + 1).last() == chunk@);
        let ghost said = chunk@;
        if !has_hit(&primary, chunk.id.as_str()) {
            dependencies.push(chunk);
            assert(viewed(dependencies@) =~= before.push(said));
        }
    }
    assert(all.take(all.len() as int) =~= all);
    sort_by_locality(&mut dependencies, &primary);
    AssembledContext { primary, dependencies, expanded_symbols: pass.symbols }
}

/// No chunk beyond the hits is a hit.
proof fn lemma_beyond(primary: Seq<RankedView>, chunks: Seq<StoredChunkView>, i: int)
    requires
        0 <= i < beyond(primary, chunks).len(),
    ensures
        !is_primary(primary, beyond(primary, chunks)[i].id),
        chunks.contains(beyond(primary, chunks)[i]),
    decreases chunks.len(),
{
    let before = beyond(primary, chunks.drop_last());
    if i < before.len() {
        lemma_beyond(primary, chunks.drop_last(), i);
        let at = chunks.drop_last().index_of(before[i]);
        assert(chunks[at] == before[i]);
    } else {
        assert(chunks[chunks.len() - 1] == chunks.last());
    }
}

/// The dependencies of an assembled context are chunks that the second pass found,
/// and none of them is a hit of the first pass.
pub proof fn dependencies_are_no_hits(
    primary: Seq<RankedView>,
    found: Seq<StoredChunkView>,
    dependencies: Seq<StoredChunkView>,
    i: int,
)
    requires
        closest_first(primary, beyond(primary, found), dependencies),
        0 <= i < dependencies.len(),
    ensures
        !is_primary(primary, dependencies[i].id),
        found.contains(dependencies[i]),
{
    let rest = beyond(primary, found);
    let keys = localities(primary, rest);
    let order = choose|order: Seq<int>| #[trigger]
        stable_order::<Locality>(keys, order) && dependencies == picked(rest, order);
    assert(dependencies[i] == rest[order[i]]);
    lemma_beyond(primary, found, order[i]);
}

} // verus!
