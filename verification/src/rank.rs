//! Hits in order of score.
use vstd::prelude::*;

use crate::hits::{
    all_numbers, hit_views, lemma_distinct, one_per_commit, HitView, SearchHit,
};
use crate::text::chars_of;

verus! {

/// `a` comes before `b` in the dictionary order of their characters.
pub open spec fn text_less(a: Seq<char>, b: Seq<char>) -> bool
    decreases a.len(),
{
    if b.len() == 0 {
        false
    } else if a.len() == 0 {
        true
    } else if a[0] != b[0] {
        a[0] < b[0]
    } else {
        text_less(a.drop_first(), b.drop_first())
    }
}

/// The dictionary order is a strict total order.
pub proof fn law_text_order(a: Seq<char>, b: Seq<char>, c: Seq<char>)
    ensures
        !text_less(a, a),
        !(text_less(a, b) && text_less(b, a)),
        a != b ==> text_less(a, b) || text_less(b, a),
        text_less(a, b) && text_less(b, c) ==> text_less(a, c),
    decreases a.len() + b.len() + c.len(),
{
    if a.len() > 0 && b.len() > 0 && c.len() > 0 {
        law_text_order(a.drop_first(), b.drop_first(), c.drop_first());
    } else if a.len() > 0 && b.len() > 0 {
        law_text_order(a.drop_first(), b.drop_first(), c);
    } else if a.len() > 0 {
        law_text_order(a.drop_first(), b, c);
    }
    if a != b {
        if a.len() == 0 || b.len() == 0 {
            if a.len() == b.len() {
                assert(a =~= b);
            }
        } else if a[0] == b[0] {
            if a.drop_first() == b.drop_first() {
                assert(a =~= seq![a[0]] + a.drop_first());
                assert(b =~= seq![b[0]] + b.drop_first());
            }
        }
    }
}

/// Whether `a` comes before `b` in the dictionary order of their characters.
pub fn is_text_less(a: &str, b: &str) -> (r: bool)
    ensures
        r == text_less(a@, b@),
{
    let x: Vec<char> = chars_of(a);
    let y: Vec<char> = chars_of(b);
    let mut i: usize = 0;
    assert(x@.skip(0) =~= x@);
    assert(y@.skip(0) =~= y@);
    while i < x.len() && i < y.len() && x[i] == y[i]
        invariant
            i <= x@.len(),
            i <= y@.len(),
            x@ == a@,
            y@ == b@,
            text_less(a@, b@) == text_less(x@.skip(i as int), y@.skip(i as int)),
        decreases x@.len() - i,
    {
        assert(x@.skip(i as int).drop_first() =~= x@.skip(i + 1));
        assert(y@.skip(i as int).drop_first() =~= y@.skip(i + 1));
        i = i + 1;
    }
    if i == y.len() {
        false
    } else if i == x.len() {
        true
    } else {
        x[i] < y[i]
    }
}

/// `a` is to stand before `b`: it has the higher score or, where `by_sha` and
/// neither score is higher, the lesser object name.
pub open spec fn precedes(by_sha: bool, a: HitView, b: HitView) -> bool {
    ||| a.score.above(b.score)
    ||| by_sha && !b.score.above(a.score) && text_less(a.sha, b.sha)
}

/// The hit at `i` is to stand before the one at `j`: it precedes it, or neither
/// precedes the other and it came first.
pub open spec fn before(by_sha: bool, hits: Seq<HitView>, i: int, j: int) -> bool {
    ||| precedes(by_sha, hits[i], hits[j])
    ||| !precedes(by_sha, hits[j], hits[i]) && i < j
}

/// `p` holds each of `lo..hi` once.
pub open spec fn listing(p: Seq<int>, lo: int, hi: int) -> bool {
    &&& p.len() == hi - lo
    &&& forall|k: int| 0 <= k < p.len() ==> lo <= #[trigger] p[k] < hi
    &&& forall|k: int, l: int| 0 <= k < l < p.len() ==> #[trigger] p[k] != #[trigger] p[l]
}

/// The places in `p` stand in the order of [`before`].
pub open spec fn in_order(by_sha: bool, hits: Seq<HitView>, p: Seq<int>) -> bool {
    forall|k: int, l: int|
        0 <= k < l < p.len() ==> before(by_sha, hits, #[trigger] p[k], #[trigger] p[l])
}

/// The hits at the places `p`.
pub open spec fn picked(hits: Seq<HitView>, p: Seq<int>) -> Seq<HitView> {
    Seq::new(p.len(), |k: int| hits[p[k]])
}

/// `p` says how to bring `hits` into order.
pub open spec fn ranking(by_sha: bool, hits: Seq<HitView>, p: Seq<int>) -> bool {
    &&& listing(p, 0, hits.len() as int)
    &&& all_numbers(hits) ==> in_order(by_sha, hits, p)
}

/// `sorted` holds the hits of `hits`, each once; if every score is a number, they
/// stand in the order of [`before`], which leaves one order only.
pub open spec fn ranked(by_sha: bool, hits: Seq<HitView>, sorted: Seq<HitView>) -> bool {
    exists|p: Seq<int>| #[trigger] ranking(by_sha, hits, p) && sorted == picked(hits, p)
}

proof fn lemma_before_transitive(by_sha: bool, hits: Seq<HitView>, i: int, j: int, k: int)
    requires
        all_numbers(hits),
        0 <= i < hits.len(),
        0 <= j < hits.len(),
        0 <= k < hits.len(),
        before(by_sha, hits, i, j),
        before(by_sha, hits, j, k),
    ensures
        before(by_sha, hits, i, k),
{
    assert(!hits[i].score.is_nan());
    assert(!hits[j].score.is_nan());
    assert(!hits[k].score.is_nan());
    law_text_order(hits[i].sha, hits[j].sha, hits[k].sha);
    law_text_order(hits[k].sha, hits[j].sha, hits[i].sha);
    law_text_order(hits[j].sha, hits[k].sha, hits[i].sha);
    law_text_order(hits[j].sha, hits[i].sha, hits[k].sha);
    law_text_order(hits[i].sha, hits[k].sha, hits[j].sha);
    law_text_order(hits[k].sha, hits[i].sha, hits[j].sha);
}

/// The places as integers.
pub open spec fn places_of(p: Seq<usize>) -> Seq<int> {
    Seq::new(p.len(), |k: int| p[k] as int)
}

fn is_preceding(by_sha: bool, a: &SearchHit, b: &SearchHit) -> (r: bool)
    ensures
        r == precedes(by_sha, a@, b@),
{
    a.score.is_above(b.score) || (by_sha && !b.score.is_above(a.score) && is_text_less(
        a.full_sha.as_str(),
        b.full_sha.as_str(),
    ))
}

/// Every place in `p` comes before every place of `q` from `from` on.
spec fn all_before(by_sha: bool, hits: Seq<HitView>, p: Seq<int>, q: Seq<int>, from: int) -> bool {
    forall|k: int, l: int|
        0 <= k < p.len() && from <= l < q.len() ==> before(
            by_sha,
            hits,
            #[trigger] p[k],
            #[trigger] q[l],
        )
}

/// One place is taken over from the run `from` at `i`, while `other` waits at `j`.
proof fn lemma_take_one(
    by_sha: bool,
    hits: Seq<HitView>,
    out: Seq<int>,
    from: Seq<int>,
    i: int,
    other: Seq<int>,
    j: int,
)
    requires
        all_numbers(hits),
        forall|k: int| 0 <= k < from.len() ==> 0 <= #[trigger] from[k] < hits.len(),
        forall|k: int| 0 <= k < other.len() ==> 0 <= #[trigger] other[k] < hits.len(),
        0 <= i < from.len(),
        0 <= j <= other.len(),
        in_order(by_sha, hits, from),
        in_order(by_sha, hits, other),
        in_order(by_sha, hits, out),
        all_before(by_sha, hits, out, from, i),
        all_before(by_sha, hits, out, other, j),
        j < other.len() ==> before(by_sha, hits, from[i], other[j]),
    ensures
        in_order(by_sha, hits, out.push(from[i])),
        all_before(by_sha, hits, out.push(from[i]), from, i + 1),
        all_before(by_sha, hits, out.push(from[i]), other, j),
{
    let now = out.push(from[i]);
    assert forall|k: int, l: int| 0 <= k < l < now.len() implies before(
        by_sha,
        hits,
        #[trigger] now[k],
        #[trigger] now[l],
    ) by {
        if l == out.len() {
            assert(before(by_sha, hits, out[k], from[i]));
        } else {
            assert(before(by_sha, hits, out[k], out[l]));
        }
    }
    assert forall|k: int, l: int| 0 <= k < now.len() && i + 1 <= l < from.len() implies before(
        by_sha,
        hits,
        #[trigger] now[k],
        #[trigger] from[l],
    ) by {
        if k == out.len() {
            assert(before(by_sha, hits, from[i], from[l]));
        } else {
            assert(before(by_sha, hits, out[k], from[l]));
        }
    }
    assert forall|k: int, l: int| 0 <= k < now.len() && j <= l < other.len() implies before(
        by_sha,
        hits,
        #[trigger] now[k],
        #[trigger] other[l],
    ) by {
        if k == out.len() {
            if l > j {
                assert(before(by_sha, hits, other[j], other[l]));
                lemma_before_transitive(by_sha, hits, from[i], other[j], other[l]);
            }
        } else {
            assert(before(by_sha, hits, out[k], other[l]));
        }
    }
}

/// Merges two runs of places into one.
fn merge(
    hits: &Vec<SearchHit>,
    by_sha: bool,
    left: &Vec<usize>,
    right: &Vec<usize>,
    Ghost(lo): Ghost<int>,
    Ghost(mid): Ghost<int>,
    Ghost(hi): Ghost<int>,
) -> (r: Vec<usize>)
    requires
        0 <= lo <= mid <= hi <= hits@.len(),
        listing(places_of(left@), lo, mid),
        listing(places_of(right@), mid, hi),
        all_numbers(hit_views(hits@)) ==> in_order(by_sha, hit_views(hits@), places_of(left@)),
        all_numbers(hit_views(hits@)) ==> in_order(by_sha, hit_views(hits@), places_of(right@)),
    ensures
        listing(places_of(r@), lo, hi),
        all_numbers(hit_views(hits@)) ==> in_order(by_sha, hit_views(hits@), places_of(r@)),
{
    let ghost v = hit_views(hits@);
    let ghost lp = places_of(left@);
    let ghost rp = places_of(right@);
    let mut out: Vec<usize> = Vec::new();
    let mut i: usize = 0;
    let mut j: usize = 0;
    while i < left.len() || j < right.len()
        invariant
            0 <= lo <= mid <= hi <= hits@.len(),
            i <= left@.len(),
            j <= right@.len(),
            v == hit_views(hits@),
            lp == places_of(left@),
            rp == places_of(right@),
            listing(lp, lo, mid),
            listing(rp, mid, hi),
            all_numbers(v) ==> in_order(by_sha, v, lp) && in_order(by_sha, v, rp),
            out@.len() == i + j,
            forall|k: int|
                0 <= k < out@.len() ==> {
                    ||| lo <= #[trigger] places_of(out@)[k] < mid && lp.take(i as int).contains(
                        places_of(out@)[k],
                    )
                    ||| mid <= places_of(out@)[k] < hi && rp.take(j as int).contains(
                        places_of(out@)[k],
                    )
                },
            forall|k: int, l: int|
                0 <= k < l < out@.len() ==> #[trigger] places_of(out@)[k]
                    != #[trigger] places_of(out@)[l],
            all_numbers(v) ==> in_order(by_sha, v, places_of(out@)),
            all_numbers(v) ==> all_before(by_sha, v, places_of(out@), lp, i as int),
            all_numbers(v) ==> all_before(by_sha, v, places_of(out@), rp, j as int),
        decreases left@.len() - i + right@.len() - j,
    {
        let ghost done = places_of(out@);
        let take_left: bool = if i == left.len() {
            false
        } else if j == right.len() {
            true
        } else {
            proof {
                assert(lo <= lp[i as int] < mid);
                assert(mid <= rp[j as int] < hi);
            }
            !is_preceding(by_sha, &hits[right[j]], &hits[left[i]])
        };
        if take_left {
            proof {
                assert(lo <= lp[i as int] < mid);
                if j < right@.len() {
                    assert(mid <= rp[j as int] < hi);
                    assert(before(by_sha, v, lp[i as int], rp[j as int]));
                }
                if all_numbers(v) {
                    lemma_take_one(by_sha, v, done, lp, i as int, rp, j as int);
                }
                assert(lp.take(i + 1)[i as int] == lp[i as int]);
                assert forall|x: int| lp.take(i as int).contains(x) implies lp.take(
                    i + 1,
                ).contains(x) by {
                    let q = choose|q: int| 0 <= q < i && lp.take(i as int)[q] == x;
                    assert(lp.take(i + 1)[q] == x);
                }
                assert forall|k: int| 0 <= k < done.len() implies #[trigger] done[k]
                    != lp[i as int] by {
                    if done[k] < mid {
                        assert(lp.take(i as int).contains(done[k]));
                        let q = choose|q: int| 0 <= q < i && lp.take(i as int)[q] == done[k];
                        assert(lp[q] != lp[i as int]);
                    }
                }
            }
            out.push(left[i]);
            i = i + 1;
            proof {
                assert(places_of(out@) =~= done.push(lp[i - 1]));
            }
        } else {
            proof {
                assert(mid <= rp[j as int] < hi);
                if i < left@.len() {
                    assert(lo <= lp[i as int] < mid);
                    assert(before(by_sha, v, rp[j as int], lp[i as int]));
                }
                if all_numbers(v) {
                    lemma_take_one(by_sha, v, done, rp, j as int, lp, i as int);
                }
                assert(rp.take(j + 1)[j as int] == rp[j as int]);
                assert forall|x: int| rp.take(j as int).contains(x) implies rp.take(
                    j + 1,
                ).contains(x) by {
                    let q = choose|q: int| 0 <= q < j && rp.take(j as int)[q] == x;
                    assert(rp.take(j + 1)[q] == x);
                }
                assert forall|k: int| 0 <= k < done.len() implies #[trigger] done[k]
                    != rp[j as int] by {
                    if done[k] >= mid {
                        assert(rp.take(j as int).contains(done[k]));
                        let q = choose|q: int| 0 <= q < j && rp.take(j as int)[q] == done[k];
                        assert(rp[q] != rp[j as int]);
                    }
                }
            }
            out.push(right[j]);
            j = j + 1;
            proof {
                assert(places_of(out@) =~= done.push(rp[j - 1]));
            }
        }
    }
    out
}

/// The places `lo..hi` in order.
fn sort_places(hits: &Vec<SearchHit>, by_sha: bool, lo: usize, hi: usize) -> (r: Vec<usize>)
    requires
        lo <= hi <= hits@.len(),
    ensures
        listing(places_of(r@), lo as int, hi as int),
        all_numbers(hit_views(hits@)) ==> in_order(by_sha, hit_views(hits@), places_of(r@)),
    decreases hi - lo,
{
    if hi - lo < 2 {
        let mut r: Vec<usize> = Vec::new();
        if lo < hi {
            r.push(lo);
        }
        r
    } else {
        let mid: usize = lo + (hi - lo) / 2;
        let left: Vec<usize> = sort_places(hits, by_sha, lo, mid);
        let right: Vec<usize> = sort_places(hits, by_sha, mid, hi);
        merge(hits, by_sha, &left, &right, Ghost(lo as int), Ghost(mid as int), Ghost(hi as int))
    }
}

/// The hits by descending score; where `by_sha`, those of equal score by object
/// name; what is then still equal stays in the order it had.
pub fn sort_hits(hits: &Vec<SearchHit>, by_sha: bool) -> (r: Vec<SearchHit>)
    ensures
        ranked(by_sha, hit_views(hits@), hit_views(r@)),
{
    let places: Vec<usize> = sort_places(hits, by_sha, 0, hits.len());
    let mut r: Vec<SearchHit> = Vec::new();
    let ghost v = hit_views(hits@);
    let ghost p = places_of(places@);
    let mut k: usize = 0;
    while k < places.len()
        invariant
            k <= places@.len(),
            v == hit_views(hits@),
            p == places_of(places@),
            listing(p, 0, hits@.len() as int),
            hit_views(r@) == picked(v, p.take(k as int)),
        decreases places@.len() - k,
    {
        let ghost done = hit_views(r@);
        assert(0 <= p[k as int] < hits@.len());
        let hit: SearchHit = hits[places[k]].clone();
        r.push(hit);
        k = k + 1;
        assert(hit@ == v[p[k - 1]]);
        assert(hit_views(r@) =~= done.push(hit@));
        assert(hit_views(r@) =~= picked(v, p.take(k as int)));
    }
    proof {
        assert(p.take(k as int) =~= p);
        assert(ranking(by_sha, v, p));
    }
    r
}

/// The hits by descending score, those of equal score by object name.
pub fn rank_hits(hits: &Vec<SearchHit>) -> (r: Vec<SearchHit>)
    ensures
        ranked(true, hit_views(hits@), hit_views(r@)),
{
    sort_hits(hits, true)
}

proof fn lemma_listing_is_full(p: Seq<int>, n: int)
    requires
        listing(p, 0, n),
    ensures
        forall|x: int| 0 <= x < n ==> p.contains(x),
{
    p.unique_seq_to_set();
    let range = vstd::set_lib::set_int_range(0, n);
    vstd::set_lib::lemma_int_range(0, n);
    assert(p.to_set().subset_of(range)) by {
        assert forall|x: int| p.to_set().contains(x) implies range.contains(x) by {
            let k = choose|k: int| 0 <= k < p.len() && p[k] == x;
            assert(0 <= p[k] < n);
        }
    }
    vstd::set_lib::lemma_subset_equality(p.to_set(), range);
    assert forall|x: int| 0 <= x < n implies p.contains(x) by {
        assert(range.contains(x));
        assert(p.to_set().contains(x));
    }
}

/// Picking by a listing keeps what is there.
proof fn lemma_picked_keeps(hits: Seq<HitView>, p: Seq<int>)
    requires
        listing(p, 0, hits.len() as int),
    ensures
        picked(hits, p).to_multiset() == hits.to_multiset(),
    decreases hits.len(),
{
    broadcast use vstd::seq_lib::group_to_multiset_ensures;

    let r = picked(hits, p);
    let n = hits.len() as int;
    if n == 0 {
        assert(r =~= hits);
    } else {
        lemma_listing_is_full(p, n);
        assert(p.contains(n - 1));
        let k = choose|k: int| 0 <= k < p.len() && p[k] == n - 1;
        let q = p.remove(k);
        let rest = hits.drop_last();
        assert(listing(q, 0, n - 1)) by {
            assert forall|i: int| 0 <= i < q.len() implies 0 <= #[trigger] q[i] < n - 1 by {
                let j = if i < k {
                    i
                } else {
                    i + 1
                };
                assert(q[i] == p[j]);
                assert(p[j] != p[k]);
                assert(0 <= p[j] < n);
            }
            assert forall|i: int, j: int| 0 <= i < j < q.len() implies #[trigger] q[i]
                != #[trigger] q[j] by {
                let a = if i < k {
                    i
                } else {
                    i + 1
                };
                let b = if j < k {
                    j
                } else {
                    j + 1
                };
                assert(q[i] == p[a] && q[j] == p[b]);
            }
        }
        lemma_picked_keeps(rest, q);
        assert(picked(rest, q) =~= r.remove(k));
        assert(r.remove(k).to_multiset() == r.to_multiset().remove(r[k]));
        assert(hits =~= rest.push(hits.last()));
        assert(hits.to_multiset() =~= rest.to_multiset().insert(hits.last()));
        assert(r[k] == hits.last());
        assert(r.to_multiset().contains(r[k])) by {
            assert(r.contains(r[k]));
        }
        assert(r.to_multiset() =~= r.to_multiset().remove(r[k]).insert(r[k]));
    }
}

/// Ranking loses no hit and adds none; the best comes first; where `by_sha`,
/// equal scores stand by object name.
pub proof fn law_ranked_best_first(by_sha: bool, hits: Seq<HitView>, sorted: Seq<HitView>)
    requires
        ranked(by_sha, hits, sorted),
    ensures
        sorted.len() == hits.len(),
        sorted.to_multiset() == hits.to_multiset(),
        one_per_commit(hits) ==> one_per_commit(sorted),
        all_numbers(hits) ==> all_numbers(sorted),
        all_numbers(hits) ==> forall|i: int, j: int|
            0 <= i < j < sorted.len() ==> !precedes(
                by_sha,
                #[trigger] sorted[j],
                #[trigger] sorted[i],
            ),
{
    let p = choose|p: Seq<int>| #[trigger] ranking(by_sha, hits, p) && sorted == picked(hits, p);
    lemma_picked_keeps(hits, p);
    if one_per_commit(hits) {
        assert forall|i: int, j: int| 0 <= i < j < sorted.len() implies #[trigger] sorted[i].sha
            != #[trigger] sorted[j].sha by {
            assert(p[i] != p[j]);
            assert(0 <= p[i] < hits.len() && 0 <= p[j] < hits.len());
            if p[i] < p[j] {
                assert(hits[p[i]].sha != hits[p[j]].sha);
            } else {
                assert(hits[p[j]].sha != hits[p[i]].sha);
            }
        }
    }
    if all_numbers(hits) {
        assert forall|i: int| 0 <= i < sorted.len() implies !(
        #[trigger] sorted[i]).score.is_nan() by {
            assert(0 <= p[i] < hits.len());
            assert(!hits[p[i]].score.is_nan());
        }
        assert forall|i: int, j: int| 0 <= i < j < sorted.len() implies !precedes(
            by_sha,
            #[trigger] sorted[j],
            #[trigger] sorted[i],
        ) by {
            assert(before(by_sha, hits, p[i], p[j]));
            law_text_order(sorted[i].sha, sorted[j].sha, sorted[i].sha);
        }
    }
}

/// With one hit per commit, the ranking does not depend on the order in which the
/// hits came.
pub proof fn law_ranking_ignores_arrival(
    a: Seq<HitView>,
    b: Seq<HitView>,
    ranked_a: Seq<HitView>,
    ranked_b: Seq<HitView>,
)
    requires
        one_per_commit(a),
        all_numbers(a),
        a.to_multiset() == b.to_multiset(),
        ranked(true, a, ranked_a),
        ranked(true, b, ranked_b),
    ensures
        ranked_a == ranked_b,
{
    broadcast use vstd::seq_lib::group_to_multiset_ensures;

    assert(a.to_multiset().len() == a.len() && b.to_multiset().len() == b.len());
    assert forall|h: HitView| b.contains(h) implies a.contains(h) by {
        assert(b.to_multiset().contains(h));
        assert(a.to_multiset().contains(h));
    }
    assert(all_numbers(b)) by {
        assert forall|i: int| 0 <= i < b.len() implies !(#[trigger] b[i]).score.is_nan() by {
            assert(b.contains(b[i]));
            let j = choose|j: int| 0 <= j < a.len() && a[j] == b[i];
            assert(!a[j].score.is_nan());
        }
    }
    law_ranked_best_first(true, a, ranked_a);
    law_ranked_best_first(true, b, ranked_b);
    lemma_same_ranking(ranked_a, ranked_b, ranked_a.len() as int);
    assert(ranked_a =~= ranked_b);
}

proof fn lemma_same_ranking(x: Seq<HitView>, y: Seq<HitView>, n: int)
    requires
        0 <= n <= x.len(),
        x.len() == y.len(),
        one_per_commit(x),
        all_numbers(x),
        x.to_multiset() == y.to_multiset(),
        forall|i: int, j: int|
            0 <= i < j < x.len() ==> !precedes(true, #[trigger] x[j], #[trigger] x[i]),
        forall|i: int, j: int|
            0 <= i < j < y.len() ==> !precedes(true, #[trigger] y[j], #[trigger] y[i]),
    ensures
        forall|k: int| 0 <= k < n ==> x[k] == y[k],
    decreases n,
{
    broadcast use vstd::seq_lib::group_to_multiset_ensures;

    if n > 0 {
        lemma_same_ranking(x, y, n - 1);
        let k = n - 1;
        if x[k] != y[k] {
            assert(x.contains(x[k]));
            assert(y.to_multiset().contains(x[k]));
            assert(y.contains(x[k]));
            let l = choose|l: int| 0 <= l < y.len() && y[l] == x[k];
            if l < k {
                assert(x[l].sha != x[k].sha);
            }
            assert(y.contains(y[k]));
            assert(x.to_multiset().contains(y[k]));
            assert(x.contains(y[k]));
            let m = choose|m: int| 0 <= m < x.len() && x[m] == y[k];
            if m < k {
                assert(y[m] == x[m]);
                lemma_distinct(x);
                x.lemma_multiset_has_no_duplicates();
                assert(y.no_duplicates()) by {
                    y.lemma_multiset_has_no_duplicates_conv();
                }
                assert(y[m] != y[k]);
            }
            assert(k < l && k < m);
            assert(x[k].sha != x[m].sha);
            assert(!precedes(true, x[m], x[k]));
            assert(!precedes(true, y[l], y[k]));
            law_text_order(x[k].sha, x[m].sha, x[k].sha);
            assert(!x[k].score.is_nan() && !x[m].score.is_nan());
        }
    }
}

/// The dictionary order goes by the first place where two texts differ; a text comes
/// after each of its beginnings.
pub proof fn law_first_difference_decides(
    p: Seq<char>,
    c: char,
    d: char,
    x: Seq<char>,
    y: Seq<char>,
)
    ensures
        c != d ==> (text_less(p + seq![c] + x, p + seq![d] + y) <==> (c as int) < (d as int)),
        text_less(p, p + seq![c] + x),
        !text_less(p + x, p),
    decreases p.len(),
{
    let a = p + seq![c] + x;
    let b = p + seq![d] + y;
    if p.len() == 0 {
        assert(a[0] == c && b[0] == d);
    } else {
        let q = p.drop_first();
        law_first_difference_decides(q, c, d, x, y);
        assert(a.drop_first() =~= q + seq![c] + x);
        assert(b.drop_first() =~= q + seq![d] + y);
        assert(a[0] == p[0] && b[0] == p[0]);
        assert((p + x).drop_first() =~= q + x);
        assert((p + x)[0] == p[0]);
    }
}

/// What a ranking is, where every score is a number: the same hits, each as often;
/// no hit has a higher score than one before it; and of two with equal scores, the
/// one whose object name comes later in the dictionary does not stand first, where
/// names count.
pub proof fn law_ranking_descends(by_sha: bool, hits: Seq<HitView>, sorted: Seq<HitView>)
    requires
        ranked(by_sha, hits, sorted),
        forall|i: int| 0 <= i < hits.len() ==> !(#[trigger] hits[i]).score.is_nan(),
    ensures
        sorted.to_multiset() == hits.to_multiset(),
        forall|i: int, j: int|
            0 <= i < j < sorted.len() ==> !(#[trigger] sorted[j]).score.above(
                (#[trigger] sorted[i]).score,
            ),
        by_sha ==> forall|i: int, j: int|
            0 <= i < j < sorted.len() && !(#[trigger] sorted[i]).score.above(
                (#[trigger] sorted[j]).score,
            ) ==> !text_less(sorted[j].sha, sorted[i].sha),
{
    law_ranked_best_first(by_sha, hits, sorted);
    assert forall|i: int, j: int| 0 <= i < j < sorted.len() implies !(
    #[trigger] sorted[j]).score.above((#[trigger] sorted[i]).score) by {
        assert(!precedes(by_sha, sorted[j], sorted[i]));
    }
    if by_sha {
        assert forall|i: int, j: int|
            0 <= i < j < sorted.len() && !(#[trigger] sorted[i]).score.above(
                (#[trigger] sorted[j]).score,
            ) implies !text_less(sorted[j].sha, sorted[i].sha) by {
            assert(!precedes(by_sha, sorted[j], sorted[i]));
        }
    }
}

/// Where names do not count, hits with equal scores keep the order they had.
pub proof fn law_ranking_is_stable(hits: Seq<HitView>, sorted: Seq<HitView>, k: int, l: int)
    requires
        ranked(false, hits, sorted),
        forall|i: int| 0 <= i < hits.len() ==> !(#[trigger] hits[i]).score.is_nan(),
        hits.no_duplicates(),
        0 <= k < l < sorted.len(),
        !sorted[k].score.above(sorted[l].score),
    ensures
        exists|i: int, j: int|
            0 <= i < j < hits.len() && #[trigger] hits[i] == sorted[k] && #[trigger] hits[j]
                == sorted[l],
{
    let p = choose|p: Seq<int>| #[trigger] ranking(false, hits, p) && sorted == picked(hits, p);
    assert(all_numbers(hits));
    assert(before(false, hits, p[k], p[l]));
    assert(hits[p[k]] == sorted[k] && hits[p[l]] == sorted[l]);
}

} // verus!
