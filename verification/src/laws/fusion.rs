//! Promises of the fusion by rank.
use vstd::arithmetic::power2::*;
use vstd::prelude::*;

use crate::float::{
    exponent, half_even, lemma_rounds_at, lemma_single_exact, lemma_sum_sound, lemma_unpacked,
    pack_single, reciprocal_of, significand, single_low, single_of, sum_of, value,
};
use crate::ordered::{in_stable_order, picked, stable_order, stably_sorted, viewed, Key};
use crate::retrieval::{
    best_entries, counted, distinct_hits, entries, first, found_by_both, found_by_text_alone,
    found_by_vector_alone, fuse_rrf, fused, fused_hits_are_the_best, lemma_counted_sound,
    lemma_share, lists_keys, not_found, rrf_share, score_keys, Channel, RankedChunk, RankedView,
};
use crate::storage::{FtsResult, HitView, SearchResult};
use crate::text::text_before;

verus! {

/// Some hit is on the chunk.
pub open spec fn is_hit(hits: Seq<HitView>, id: Seq<char>) -> bool {
    exists|i: int| 0 <= i < hits.len() && (#[trigger] hits[i]).chunk.id == id
}

proof fn lemma_counted_domain(
    map: Map<Seq<char>, RankedView>,
    hits: Seq<HitView>,
    channel: Channel,
    id: Seq<char>,
)
    ensures
        counted(map, hits, channel).dom().contains(id) <==> map.dom().contains(id) || is_hit(
            hits,
            id,
        ),
    decreases hits.len(),
{
    if hits.len() > 0 {
        let rest = hits.drop_last();
        lemma_counted_domain(map, rest, channel, id);
        if is_hit(hits, id) {
            let i = choose|i: int| 0 <= i < hits.len() && (#[trigger] hits[i]).chunk.id == id;
            if i < rest.len() {
                assert(rest[i].chunk.id == id);
            }
        }
        if is_hit(rest, id) {
            let i = choose|i: int| 0 <= i < rest.len() && (#[trigger] rest[i]).chunk.id == id;
            assert(hits[i].chunk.id == id);
        }
        if hits.last().chunk.id == id {
            assert(hits[hits.len() - 1].chunk.id == id);
        }
    }
}

/// What either search found takes part in the fusion, and nothing else.
pub proof fn all_hits_take_part(vector: Seq<HitView>, fts: Seq<HitView>, id: Seq<char>)
    ensures
        fused(vector, fts).dom().contains(id) <==> is_hit(vector, id) || is_hit(fts, id),
{
    lemma_counted_domain(Map::empty(), vector, Channel::Vector, id);
    lemma_counted_domain(counted(Map::empty(), vector, Channel::Vector), fts, Channel::Fts, id);
}

/// Of hits with equal scores the one with the smaller id comes first.
pub proof fn equal_scores_are_ordered_by_id(
    vector: Seq<HitView>,
    fts: Seq<HitView>,
    k: nat,
    ranked: Seq<RankedView>,
    i: int,
    j: int,
)
    requires
        vector.len() <= usize::MAX,
        fts.len() <= usize::MAX,
        best_entries(fused(vector, fts), k, ranked),
        0 <= i < j < ranked.len(),
        ranked[i].score == ranked[j].score,
    ensures
        text_before(ranked[i].chunk.id, ranked[j].chunk.id),
{
    let map = fused(vector, fts);
    lemma_counted_sound(Map::empty(), vector, Channel::Vector);
    lemma_counted_sound(counted(Map::empty(), vector, Channel::Vector), fts, Channel::Fts);
    let (ids, sorted) = choose|ids: Seq<Seq<char>>, sorted: Seq<RankedView>|
        #![trigger lists_keys(map, ids), first(sorted, k)]
        lists_keys(map, ids) && stably_sorted::<u32, RankedView>(
            score_keys(entries(map, ids)),
            entries(map, ids),
            sorted,
        ) && ranked == first(sorted, k);
    let all = entries(map, ids);
    let keys = score_keys(all);
    let order = choose|order: Seq<int>| #[trigger]
        stable_order::<u32>(keys, order) && sorted == picked(all, order);
    let a = order[i];
    let b = order[j];
    assert(sorted[i] == all[a] && sorted[j] == all[b]);
    assert(in_stable_order::<u32>(keys, order[i], order[j]));
    assert(keys[a] == keys[b]);
    assert(a < b);
    assert(<String as Key>::before(ids[a], ids[b]));
    assert(ids.to_set().contains(ids[a]) && ids.to_set().contains(ids[b]));
    assert(map.dom().contains(ids[a]) && map.dom().contains(ids[b]));
}

proof fn lemma_scale(n: nat) -> (k: nat)
    requires
        0 < n < 2 * single_low(),
    ensures
        single_low() <= n * pow2(k) < 2 * single_low(),
        k <= 100,
        n * pow2(k) > 0,
{
    lemma2_to64();
    assert(n * pow2(23) >= pow2(23)) by (nonlinear_arith)
        requires
            n > 0,
    ;
    lemma_scale_within(n, 23)
}

proof fn lemma_scale_within(n: nat, room: nat) -> (k: nat)
    requires
        0 < n < 2 * single_low(),
        single_low() <= n * pow2(room),
    ensures
        single_low() <= n * pow2(k) < 2 * single_low(),
        k <= room,
    decreases room,
{
    lemma2_to64();
    if n >= single_low() {
        assert(n * pow2(0) == n) by (nonlinear_arith)
            requires
                pow2(0) == 1,
        ;
        0
    } else if room == 0 {
        assert(n * pow2(0) == n) by (nonlinear_arith)
            requires
                pow2(0) == 1,
        ;
        0
    } else {
        let less = (room - 1) as nat;
        lemma_pow2_unfold(room);
        assert((2 * n) * pow2(less) == n * pow2(room)) by (nonlinear_arith)
            requires
                pow2(room) == 2 * pow2(less),
        ;
        let k = lemma_scale_within(2 * n, less);
        lemma_pow2_unfold(k + 1);
        assert((2 * n) * pow2(k) == n * pow2(k + 1)) by (nonlinear_arith)
            requires
                pow2(k + 1) == 2 * pow2(k),
        ;
        k + 1
    }
}

/// A quotient is rounded by half a unit at most.
pub proof fn lemma_half_unit(a: nat, b: nat)
    requires
        b > 0,
    ensures
        2 * (half_even(a, b) * b - a) <= b,
        2 * (a - half_even(a, b) * b) <= b,
{
    let whole = a / b;
    let rest = a % b;
    assert(a == whole * b + rest && rest < b) by {
        vstd::arithmetic::div_mod::lemma_fundamental_div_mod(a as int, b as int);
        assert(b * whole == whole * b) by (nonlinear_arith);
    }
    assert((whole + 1) * b == whole * b + b) by (nonlinear_arith);
}

proof fn lemma_reciprocal_value(n: nat)
    requires
        0 < n < 2 * single_low(),
    ensures
        ({
            let product = value(reciprocal_of(single_of(n))) * n * 0x100_0000;
            &&& product <= pow2(149) * 0x100_0001
            &&& product >= pow2(149) * 0xff_ffff
        }),
{
    let low = single_low();
    let k = lemma_scale(n);
    lemma_single_exact(n, k);
    let q = n * pow2(k);
    lemma_unpacked(q, -(k as int));
    let a = single_of(n);
    assert(significand(a) == q && exponent(a) == -(k as int));
    lemma2_to64();
    let j: nat = if q == low {
        46
    } else {
        47
    };
    lemma2_to64_rest();
    assert(pow2(46) == 0x4000_0000_0000 && pow2(47) == 0x8000_0000_0000);
    assert(low * q <= 1 * pow2(j) < 2 * (low * q));
    lemma_rounds_at(1, q, low, j);
    let m = half_even(1 * pow2(j), q);
    lemma_half_unit(1 * pow2(j), q);
    assert(rounded_bounds(m, q, j));
    let e = k - j;
    assert(low <= m <= 2 * low) by {
        crate::float::lemma_reciprocal_range(a);
    }
    assert(reciprocal_of(a) == pack_single(m, e as int));
    let up = (e + 149) as nat;
    assert(value(reciprocal_of(a)) == m * pow2(up)) by {
        if m < 2 * low {
            lemma_unpacked(m, e as int);
        } else {
            assert(pack_single(m, e as int) == pack_single(low, e + 1));
            lemma_unpacked(low, e + 1);
            lemma_pow2_unfold(up + 1);
            assert(low * pow2(up + 1) == m * pow2(up)) by (nonlinear_arith)
                requires
                    pow2(up + 1) == 2 * pow2(up),
                    m == 2 * low,
            ;
        }
    }
    let rest = (149 - j) as nat;
    assert(up == rest + k);
    lemma_pow2_adds(rest, k);
    lemma_pow2_adds(rest, j);
    let v = m * pow2(up);
    assert(v * n == m * q * pow2(rest)) by (nonlinear_arith)
        requires
            v == m * pow2(up),
            pow2(up) == pow2(rest) * pow2(k),
            q == n * pow2(k),
    ;
    let mq = m * q;
    let p = pow2(j);
    let r = pow2(rest);
    assert(pow2(149) == r * p);
    assert(mq * 0x100_0000 <= p * 0x100_0001 && mq * 0x100_0000 >= p * 0xff_ffff);
    assert(mq * r * 0x100_0000 <= r * p * 0x100_0001) by (nonlinear_arith)
        requires
            mq * 0x100_0000 <= p * 0x100_0001,
    ;
    assert(mq * r * 0x100_0000 >= r * p * 0xff_ffff) by (nonlinear_arith)
        requires
            mq * 0x100_0000 >= p * 0xff_ffff,
    ;
}

spec fn rounded_bounds(m: nat, q: nat, j: nat) -> bool {
    2 * (m * q - pow2(j)) <= q && 2 * (pow2(j) - m * q) <= q
}

/// The share of a rank is the reciprocal of sixty and the rank, as exactly as a single
/// tells it: the relative error is one in two to the twenty-fourth at most. A single is
/// told here in its smallest units, of which one has two to the one hundred and
/// forty-ninth.
pub proof fn shares_are_reciprocals_of_sixty_and_the_rank(rank: nat)
    requires
        0 < rank,
        60 + rank < 0x100_0000,
    ensures
        ({
            let product = value(rrf_share(rank)) * (60 + rank) * 0x100_0000;
            &&& product <= pow2(149) * 0x100_0001
            &&& product >= pow2(149) * 0xff_ffff
        }),
{
    let n = 60 + rank;
    let k1 = lemma_scale(60);
    let k2 = lemma_scale(rank);
    let k3 = lemma_scale(n);
    lemma_single_exact(60, k1);
    lemma_single_exact(rank, k2);
    lemma_single_exact(n, k3);
    lemma_unpacked(60 * pow2(k1), -(k1 as int));
    lemma_unpacked(rank * pow2(k2), -(k2 as int));
    assert(60 * pow2(149) + rank * pow2(149) == n * pow2(149)) by (nonlinear_arith)
        requires
            n == 60 + rank,
    ;
    assert(sum_of(single_of(60), single_of(rank)) == single_of(n));
    lemma_reciprocal_value(n);
}

/// Fusing answers with the best of all hits, no chunk twice: no more than were asked
/// for, and all there are where they are fewer.
pub proof fn fusing_answers_with_the_best_hits(
    vector: Vec<SearchResult>,
    fts: Vec<FtsResult>,
    k: usize,
    ranked: Vec<RankedChunk>,
)
    requires
        call_ensures(fuse_rrf, (vector, fts, k), ranked),
    ensures
        ({
            let near = viewed(vector@);
            let text = viewed(fts@);
            let best = viewed(ranked@);
            &&& best.len() <= k
            &&& forall|i: int|
                0 <= i < best.len() ==> is_hit(near, (#[trigger] best[i]).chunk.id) || is_hit(
                    text,
                    best[i].chunk.id,
                )
            &&& best.len() < k ==> forall|id: Seq<char>|
                #![trigger is_hit(near, id)]
                #![trigger is_hit(text, id)]
                is_hit(near, id) || is_hit(text, id) ==> exists|i: int|
                    0 <= i < best.len() && (#[trigger] best[i]).chunk.id == id
            &&& forall|i: int, j: int|
                0 <= i < j < best.len() ==> (#[trigger] best[i]).chunk.id != (
                #[trigger] best[j]).chunk.id && (best[i].score > best[j].score || best[i].score
                    == best[j].score && text_before(best[i].chunk.id, best[j].chunk.id))
        }),
{
    let near = viewed(vector@);
    let text = viewed(fts@);
    let best = viewed(ranked@);
    let map = fused(near, text);
    assert(vector.len() == near.len() && fts.len() == text.len());
    fused_hits_are_the_best(near, text, k as nat, best);
    lemma_counted_sound(Map::empty(), near, Channel::Vector);
    lemma_counted_sound(counted(Map::empty(), near, Channel::Vector), text, Channel::Fts);
    assert forall|i: int| 0 <= i < best.len() implies is_hit(near, (#[trigger] best[i]).chunk.id)
        || is_hit(text, best[i].chunk.id) by {
        all_hits_take_part(near, text, best[i].chunk.id);
    }
    assert forall|i: int, j: int| 0 <= i < j < best.len() implies (#[trigger] best[i]).chunk.id != (
    #[trigger] best[j]).chunk.id && (best[i].score > best[j].score || best[i].score
        == best[j].score && text_before(best[i].chunk.id, best[j].chunk.id)) by {
        if best[i].score == best[j].score {
            equal_scores_are_ordered_by_id(near, text, k as nat, best, i, j);
        }
    }
    if best.len() < k {
        let ids = Seq::new(best.len(), |i: int| best[i].chunk.id);
        assert forall|i: int, j: int| 0 <= i < j < ids.len() implies #[trigger] ids[i]
            != #[trigger] ids[j] by {
            assert(best[i].chunk.id != best[j].chunk.id);
        }
        assert(ids.no_duplicates());
        ids.unique_seq_to_set();
        assert(ids.to_set().subset_of(map.dom())) by {
            assert forall|id: Seq<char>| ids.to_set().contains(id) implies map.dom().contains(id) by {
                let i = ids.index_of(id);
                assert(ids[i] == best[i].chunk.id);
            }
        }
        assert(ids.to_set().len() == map.dom().len());
        vstd::set_lib::lemma_subset_equality(ids.to_set(), map.dom());
        assert forall|id: Seq<char>|
            #![trigger is_hit(near, id)]
            #![trigger is_hit(text, id)]
            is_hit(near, id) || is_hit(text, id) implies exists|i: int|
            0 <= i < best.len() && (#[trigger] best[i]).chunk.id == id by {
            all_hits_take_part(near, text, id);
            assert(ids.to_set().contains(id));
            let i = ids.index_of(id);
            assert(best[i].chunk.id == id);
        }
    }
}

/// A chunk that both searches found once has the ranks of both, and the sum of their
/// shares; one that a single search found has its rank, and its share.
pub proof fn fusing_counts_each_rank(
    vector: Vec<SearchResult>,
    fts: Vec<FtsResult>,
    k: usize,
    ranked: Vec<RankedChunk>,
    n: int,
    i: int,
    j: int,
)
    requires
        call_ensures(fuse_rrf, (vector, fts, k), ranked),
        0 <= n < ranked@.len(),
        distinct_hits(viewed(vector@)),
        distinct_hits(viewed(fts@)),
    ensures
        ({
            let near = viewed(vector@);
            let text = viewed(fts@);
            let hit = viewed(ranked@)[n];
            let in_near = 0 <= i < near.len() && near[i].chunk.id == hit.chunk.id;
            let in_text = 0 <= j < text.len() && text[j].chunk.id == hit.chunk.id;
            &&& in_near && in_text ==> hit == (RankedView {
                chunk: near[i].chunk,
                score: sum_of(rrf_share((i + 1) as nat), rrf_share((j + 1) as nat)) as u32,
                vector_rank: Some((i + 1) as usize),
                fts_rank: Some((j + 1) as usize),
            })
            &&& in_near && !is_hit(text, hit.chunk.id) ==> hit == (RankedView {
                chunk: near[i].chunk,
                score: rrf_share((i + 1) as nat) as u32,
                vector_rank: Some((i + 1) as usize),
                fts_rank: None,
            })
            &&& in_text && !is_hit(near, hit.chunk.id) ==> hit == (RankedView {
                chunk: text[j].chunk,
                score: rrf_share((j + 1) as nat) as u32,
                vector_rank: None,
                fts_rank: Some((j + 1) as usize),
            })
        }),
{
    let near = viewed(vector@);
    let text = viewed(fts@);
    let best = viewed(ranked@);
    let hit = best[n];
    assert(vector.len() == near.len() && fts.len() == text.len());
    fused_hits_are_the_best(near, text, k as nat, best);
    assert(hit == fused(near, text)[hit.chunk.id]);
    if 0 <= i < near.len() && near[i].chunk.id == hit.chunk.id {
        if 0 <= j < text.len() && text[j].chunk.id == hit.chunk.id {
            found_by_both(near, text, i, j);
        }
        if !is_hit(text, hit.chunk.id) {
            assert(not_found(text, hit.chunk.id));
            found_by_vector_alone(near, text, i);
        }
    }
    if 0 <= j < text.len() && text[j].chunk.id == hit.chunk.id && !is_hit(near, hit.chunk.id) {
        assert(not_found(near, hit.chunk.id));
        found_by_text_alone(near, text, j);
    }
}

/// A further hit of the text search adds the share of its rank to the chunk that it is
/// on, and leaves all other chunks alone.
pub proof fn further_text_hits_add_their_shares(
    vector: Seq<HitView>,
    fts: Seq<HitView>,
    hit: HitView,
    id: Seq<char>,
)
    requires
        vector.len() <= usize::MAX,
        fts.len() < usize::MAX,
    ensures
        ({
            let before = fused(vector, fts);
            let after = fused(vector, fts.push(hit));
            let rank = fts.len() + 1;
            let one = hit.chunk.id;
            &&& after.dom().contains(one)
            &&& after[one].fts_rank == Some(rank as usize)
            &&& before.dom().contains(one) ==> after[one].vector_rank == before[one].vector_rank
            &&& before.dom().contains(one) ==> after[one].chunk == before[one].chunk
            &&& before.dom().contains(one) ==> after[one].score == sum_of(
                before[one].score as int,
                rrf_share(rank),
            ) as u32
            &&& !before.dom().contains(one) ==> after[one] == (RankedView {
                chunk: hit.chunk,
                score: rrf_share(rank) as u32,
                vector_rank: None,
                fts_rank: Some(rank as usize),
            })
            &&& id != one ==> after.dom().contains(id) == before.dom().contains(id)
            &&& id != one && before.dom().contains(id) ==> after[id] == before[id]
        }),
{
    let rank = fts.len() + 1;
    assert(fts.push(hit).drop_last() =~= fts);
    lemma_share(rank);
    lemma_sum_sound(0, rrf_share(rank));
}

/// A further hit of the vector search does the same with its rank.
pub proof fn further_near_hits_add_their_shares(
    vector: Seq<HitView>,
    hit: HitView,
    id: Seq<char>,
)
    requires
        vector.len() < usize::MAX,
    ensures
        ({
            let before = fused(vector, Seq::empty());
            let after = fused(vector.push(hit), Seq::empty());
            let rank = vector.len() + 1;
            let one = hit.chunk.id;
            &&& after.dom().contains(one)
            &&& after[one].vector_rank == Some(rank as usize)
            &&& before.dom().contains(one) ==> after[one].chunk == before[one].chunk
            &&& before.dom().contains(one) ==> after[one].score == sum_of(
                before[one].score as int,
                rrf_share(rank),
            ) as u32
            &&& !before.dom().contains(one) ==> after[one] == (RankedView {
                chunk: hit.chunk,
                score: rrf_share(rank) as u32,
                vector_rank: Some(rank as usize),
                fts_rank: None,
            })
            &&& id != one ==> after.dom().contains(id) == before.dom().contains(id)
            &&& id != one && before.dom().contains(id) ==> after[id] == before[id]
        }),
{
    let rank = vector.len() + 1;
    assert(vector.push(hit).drop_last() =~= vector);
    lemma_share(rank);
    lemma_sum_sound(0, rrf_share(rank));
}

/// Counting a rank adds its share to the score, writes the rank down for the search that
/// found the chunk, and leaves everything else as it was.
pub proof fn counting_a_rank_adds_its_share(
    hit: &mut RankedChunk,
    rank: usize,
    channel: Channel,
)
    requires
        call_ensures(RankedChunk::apply_rank, (hit, rank, channel), ()),
        0 < rank,
        60 + rank < 0x100_0000,
    ensures
        final(hit)@.score == sum_of(old(hit)@.score as int, rrf_share(rank as nat)) as u32,
        final(hit)@.chunk == old(hit)@.chunk,
        channel is Vector ==> final(hit)@.vector_rank == Some(rank) && final(hit)@.fts_rank
            == old(hit)@.fts_rank,
        channel is Fts ==> final(hit)@.fts_rank == Some(rank) && final(hit)@.vector_rank
            == old(hit)@.vector_rank,
        ({
            let product = value(rrf_share(rank as nat)) * (60 + rank) * 0x100_0000;
            &&& product <= pow2(149) * 0x100_0001
            &&& product >= pow2(149) * 0xff_ffff
        }),
{
    shares_are_reciprocals_of_sixty_and_the_rank(rank as nat);
}

} // verus!
