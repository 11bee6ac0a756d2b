//! Search hits: what the engine found, and the one hit that is kept for each commit.
use vstd::hash_map::StringHashMap;
use vstd::prelude::*;

use crate::score::Score;

verus! {

/// A commit that matched a query.
#[derive(Debug)]
pub struct SearchHit {
    pub full_sha: String,
    pub message: String,
    pub score: Score,
}

/// What a [`SearchHit`] says.
pub struct HitView {
    pub sha: Seq<char>,
    pub message: Seq<char>,
    pub score: Score,
}

impl View for SearchHit {
    type V = HitView;

    open spec fn view(&self) -> HitView {
        HitView { sha: self.full_sha@, message: self.message@, score: self.score }
    }
}

impl Clone for SearchHit {
    fn clone(&self) -> (r: Self)
        ensures
            r == *self,
    {
        SearchHit {
            full_sha: self.full_sha.clone(),
            message: self.message.clone(),
            score: self.score,
        }
    }
}

/// What the hits say, in order.
pub open spec fn hit_views(hits: Seq<SearchHit>) -> Seq<HitView> {
    hits.map_values(|h: SearchHit| h@)
}

/// A document that the engine found: the commit it was made from, its message
/// if the engine stored one, and its score.
#[derive(Debug)]
pub struct RawMatch {
    pub id: String,
    pub message: Option<String>,
    pub score: Score,
}

impl RawMatch {
    /// The hit that the document stands for: a message that was not stored is empty.
    pub open spec fn hit(self) -> HitView {
        HitView {
            sha: self.id@,
            message: match self.message {
                Some(m) => m@,
                None => Seq::empty(),
            },
            score: self.score,
        }
    }

    /// The hit that the document stands for.
    pub fn into_hit(self) -> (r: SearchHit)
        ensures
            r@ == self.hit(),
    {
        let message: String = match self.message {
            Some(m) => m,
            None => String::new(),
        };
        SearchHit { full_sha: self.id, message, score: self.score }
    }
}

/// The hits that the documents stand for, in order.
pub open spec fn match_hits(matches: Seq<RawMatch>) -> Seq<HitView> {
    matches.map_values(|m: RawMatch| m.hit())
}

/// The last place in `hits` of a hit on the commit `sha`.
pub open spec fn last_place(hits: Seq<HitView>, sha: Seq<char>) -> Option<int>
    decreases hits.len(),
{
    if hits.len() == 0 {
        None
    } else if hits.last().sha == sha {
        Some(hits.len() - 1)
    } else {
        last_place(hits.drop_last(), sha)
    }
}

/// Some hit is on the commit `sha`.
pub open spec fn has_sha(hits: Seq<HitView>, sha: Seq<char>) -> bool {
    exists|i: int| 0 <= i < hits.len() && #[trigger] hits[i].sha == sha
}

/// No two hits are on the same commit.
pub open spec fn one_per_commit(hits: Seq<HitView>) -> bool {
    forall|i: int, j: int|
        0 <= i < j < hits.len() ==> #[trigger] hits[i].sha != #[trigger] hits[j].sha
}

/// Every score is a number.
pub open spec fn all_numbers(hits: Seq<HitView>) -> bool {
    forall|i: int| 0 <= i < hits.len() ==> !(#[trigger] hits[i]).score.is_nan()
}

/// With one hit per commit, no hit stands twice.
pub proof fn lemma_distinct(hits: Seq<HitView>)
    requires
        one_per_commit(hits),
    ensures
        hits.no_duplicates(),
{
    assert forall|i: int, j: int| 0 <= i < hits.len() && 0 <= j < hits.len() && i != j implies hits[i]
        != hits[j] by {
        if i < j {
            assert(hits[i].sha != hits[j].sha);
        } else {
            assert(hits[j].sha != hits[i].sha);
        }
    }
}

/// [`last_place`] finds a hit on the commit if there is one, and the last such.
pub proof fn lemma_last_place(hits: Seq<HitView>, sha: Seq<char>)
    ensures
        last_place(hits, sha) is Some <==> has_sha(hits, sha),
        last_place(hits, sha) matches Some(i) ==> 0 <= i < hits.len() && hits[i].sha == sha
            && forall|j: int| i < j < hits.len() ==> #[trigger] hits[j].sha != sha,
    decreases hits.len(),
{
    if hits.len() > 0 {
        let t = hits.drop_last();
        lemma_last_place(t, sha);
        if hits.last().sha == sha {
            assert(hits[hits.len() - 1].sha == sha);
        } else {
            if has_sha(t, sha) {
                let i = choose|i: int| 0 <= i < t.len() && #[trigger] t[i].sha == sha;
                assert(hits[i].sha == sha);
            }
            if has_sha(hits, sha) {
                let i = choose|i: int| 0 <= i < hits.len() && #[trigger] hits[i].sha == sha;
                assert(t[i].sha == sha);
            }
            if last_place(t, sha) is Some {
                let i = last_place(t, sha)->0;
                assert(hits[i] == t[i]);
                assert forall|j: int| i < j < hits.len() implies #[trigger] hits[j].sha != sha by {
                    if j < t.len() {
                        assert(hits[j] == t[j]);
                    }
                }
            }
        }
    }
}

/// The hits kept so far, once `h` has been seen: a hit on a commit not met before
/// is added at the end; one with a higher score takes the place of the earlier one.
pub open spec fn keep_better(kept: Seq<HitView>, h: HitView) -> Seq<HitView> {
    match last_place(kept, h.sha) {
        None => kept.push(h),
        Some(i) => if h.score.above(kept[i].score) {
            kept.update(i, h)
        } else {
            kept
        },
    }
}

/// The best hit on each commit, commits in the order in which they were first met.
pub open spec fn best_of(found: Seq<HitView>) -> Seq<HitView>
    decreases found.len(),
{
    if found.len() == 0 {
        Seq::empty()
    } else {
        keep_better(best_of(found.drop_last()), found.last())
    }
}

/// `places` maps each commit of `hits` to a place where it stands.
spec fn indexes(places: Map<Seq<char>, usize>, hits: Seq<HitView>) -> bool {
    &&& forall|sha: Seq<char>| #[trigger]
        places.contains_key(sha) ==> places[sha] < hits.len() && hits[places[sha] as int].sha == sha
    &&& forall|i: int| 0 <= i < hits.len() ==> places.contains_key(#[trigger] hits[i].sha)
}

/// The best hit on each commit, commits in the order in which they were first met.
pub fn best_hits(matches: Vec<RawMatch>) -> (r: Vec<SearchHit>)
    ensures
        hit_views(r@) == best_of(match_hits(matches@)),
        one_per_commit(hit_views(r@)),
{
    let ghost found = match_hits(matches@);
    let mut out: Vec<SearchHit> = Vec::new();
    let mut places: StringHashMap<usize> = StringHashMap::new();
    assert(found.take(0) =~= Seq::<HitView>::empty());
    assert(hit_views(out@) =~= Seq::<HitView>::empty());
    for m in it: matches
        invariant
            it.seq() == matches@,
            found == match_hits(matches@),
            hit_views(out@) == best_of(found.take(it.index() as int)),
            one_per_commit(hit_views(out@)),
            indexes(places@, hit_views(out@)),
    {
        let ghost n = it.index() as int;
        let ghost kept = hit_views(out@);
        let hit: SearchHit = m.into_hit();
        proof {
            assert(found[n] == hit@);
            assert(found.take(n + 1).drop_last() =~= found.take(n));
            assert(found.take(n + 1).last() == hit@);
            assert(best_of(found.take(n + 1)) == keep_better(kept, hit@));
            lemma_last_place(kept, hit@.sha);
        }
        let place: Option<usize> = match places.get(hit.full_sha.as_str()) {
            Some(i) => Some(*i),
            None => None,
        };
        match place {
            None => {
                proof {
                    if has_sha(kept, hit@.sha) {
                        let i = choose|i: int| 0 <= i < kept.len() && #[trigger] kept[i].sha == hit@.sha;
                        assert(places@.contains_key(kept[i].sha));
                    }
                }
                places.insert(hit.full_sha.clone(), out.len());
                out.push(hit);
                proof {
                    assert(hit_views(out@) =~= kept.push(hit@));
                    assert forall|i: int| 0 <= i < hit_views(out@).len() implies places@.contains_key(
                        #[trigger] hit_views(out@)[i].sha,
                    ) by {
                        if i < kept.len() {
                            assert(hit_views(out@)[i] == kept[i]);
                        }
                    }
                }
            },
            Some(i) => {
                proof {
                    let l = last_place(kept, hit@.sha);
                    assert(kept[i as int].sha == hit@.sha);
                    assert(has_sha(kept, hit@.sha));
                    assert(l->0 == i);
                    assert(kept[i as int] == out@[i as int]@);
                }
                if hit.score.is_above(out[i].score) {
                    out[i] = hit;
                    proof {
                        assert(hit_views(out@) =~= kept.update(i as int, hit@));
                        assert forall|k: int| 0 <= k < hit_views(out@).len() implies places@.contains_key(
                            #[trigger] hit_views(out@)[k].sha,
                        ) by {
                            assert(hit_views(out@)[k].sha == kept[k].sha);
                        }
                        assert forall|a: int, b: int| 0 <= a < b < hit_views(out@).len() implies
                            #[trigger] hit_views(out@)[a].sha != #[trigger] hit_views(out@)[b].sha by {
                            assert(hit_views(out@)[a].sha == kept[a].sha);
                            assert(hit_views(out@)[b].sha == kept[b].sha);
                        }
                        assert forall|sha: Seq<char>| #[trigger] places@.contains_key(sha) implies
                            places@[sha] < hit_views(out@).len() && hit_views(out@)[places@[sha] as int].sha == sha by {
                            assert(kept[places@[sha] as int].sha == sha);
                        }
                    }
                }
            },
        }
    }
    assert(found.take(found.len() as int) =~= found);
    out
}

/// Each commit that was found is kept once, with one of the hits on it, and none
/// of the hits on it has a higher score. The scores that are kept are numbers if
/// all are.
pub proof fn law_best_hit_per_commit(found: Seq<HitView>)
    ensures
        one_per_commit(best_of(found)),
        forall|sha: Seq<char>| has_sha(best_of(found), sha) <==> has_sha(found, sha),
        forall|i: int|
            0 <= i < best_of(found).len() ==> found.contains(#[trigger] best_of(found)[i]),
        all_numbers(found) ==> all_numbers(best_of(found)),
        all_numbers(found) ==> forall|i: int, j: int|
            0 <= i < best_of(found).len() && 0 <= j < found.len() && best_of(found)[i].sha
                == found[j].sha ==> !(#[trigger] found[j]).score.above(
                (#[trigger] best_of(found)[i]).score,
            ),
    decreases found.len(),
{
    if found.len() > 0 {
        let before = found.drop_last();
        let h = found.last();
        let kept = best_of(before);
        let now = best_of(found);
        law_best_hit_per_commit(before);
        lemma_last_place(kept, h.sha);
        assert(now == keep_better(kept, h));
        assert(found[found.len() - 1] == h);
        assert(before.len() + 1 == found.len());
        assert forall|j: int| 0 <= j < before.len() implies found[j] == before[j] by {}
        let place = last_place(kept, h.sha);
        assert forall|k: int| 0 <= k < kept.len() implies k < now.len() && now[k].sha == kept[k].sha by {}
        assert forall|k: int| 0 <= k < now.len() implies now[k] == h || (k < kept.len() && now[k]
            == kept[k]) by {}
        assert(has_sha(now, h.sha)) by {
            if place is None {
                assert(now[kept.len() as int].sha == h.sha);
            } else {
                assert(now[place->0].sha == h.sha);
            }
        }
        assert forall|sha: Seq<char>| has_sha(now, sha) <==> has_sha(found, sha) by {
            if has_sha(now, sha) {
                let k = choose|k: int| 0 <= k < now.len() && #[trigger] now[k].sha == sha;
                if now[k] == h {
                    assert(found[found.len() - 1].sha == sha);
                } else {
                    assert(kept[k].sha == sha);
                    assert(has_sha(before, sha));
                    let j = choose|j: int| 0 <= j < before.len() && #[trigger] before[j].sha == sha;
                    assert(found[j].sha == sha);
                }
            }
            if has_sha(found, sha) {
                let j = choose|j: int| 0 <= j < found.len() && #[trigger] found[j].sha == sha;
                if j < before.len() {
                    assert(before[j].sha == sha);
                    assert(has_sha(before, sha));
                    assert(has_sha(kept, sha) <==> has_sha(before, sha));
                    let k = choose|k: int| 0 <= k < kept.len() && #[trigger] kept[k].sha == sha;
                    assert(now[k].sha == sha);
                } else {
                    assert(sha == h.sha);
                }
            }
        }
        assert forall|i: int| 0 <= i < now.len() implies found.contains(#[trigger] now[i]) by {
            if now[i] == h {
                assert(found[found.len() - 1] == h);
            } else {
                assert(before.contains(kept[i]));
                let j = choose|j: int| 0 <= j < before.len() && before[j] == kept[i];
                assert(found[j] == now[i]);
            }
        }
        if all_numbers(found) {
            assert(all_numbers(before)) by {
                assert forall|i: int| 0 <= i < before.len() implies !(
                #[trigger] before[i]).score.is_nan() by {
                    assert(found[i] == before[i]);
                }
            }
            assert(!h.score.is_nan());
            assert forall|i: int, j: int|
                0 <= i < now.len() && 0 <= j < found.len() && now[i].sha == found[j].sha implies !(
            #[trigger] found[j]).score.above((#[trigger] now[i]).score) by {
                if j < before.len() {
                    if i < kept.len() {
                        assert(!before[j].score.above(kept[i].score));
                        assert(before.contains(kept[i]));
                        let q = choose|q: int| 0 <= q < before.len() && before[q] == kept[i];
                        assert(!before[q].score.is_nan());
                        assert(!before[j].score.is_nan());
                    } else {
                        assert(has_sha(before, h.sha)) by {
                            assert(before[j].sha == h.sha);
                        }
                        assert(has_sha(kept, h.sha));
                    }
                } else {
                    if now[i] != h {
                        assert(now[i] == kept[i]);
                        assert(has_sha(kept, h.sha)) by {
                            assert(kept[i].sha == h.sha);
                        }
                        assert(place->0 == i);
                    }
                }
            }
        }
    }
}

/// A hit says what the match says that it stands for, with no message where the
/// engine stored none; and the hits of matches are those of each, in order.
pub proof fn law_hit_says_what_the_match_says(matches: Seq<RawMatch>, hit: SearchHit, i: int)
    requires
        0 <= i < matches.len(),
        hit@ == match_hits(matches)[i],
    ensures
        match_hits(matches).len() == matches.len(),
        hit.full_sha@ == matches[i].id@,
        matches[i].message matches Some(text) ==> hit.message@ == text@,
        matches[i].message is None ==> hit.message@.len() == 0,
        hit.score.bits == matches[i].score.bits,
{
}

/// One more hit: on a commit that none was on before it is added; with a higher
/// score than the one that is kept on its commit it takes its place; otherwise
/// nothing changes.
pub proof fn law_one_more_hit(found: Seq<HitView>, h: HitView)
    ensures
        (forall|i: int| 0 <= i < found.len() ==> #[trigger] found[i].sha != h.sha) ==> best_of(
            found.push(h),
        ) == best_of(found).push(h),
        forall|i: int|
            0 <= i < best_of(found).len() && #[trigger] best_of(found)[i].sha == h.sha ==> best_of(
                found.push(h),
            ) == (if h.score.above(best_of(found)[i].score) {
                best_of(found).update(i, h)
            } else {
                best_of(found)
            }),
        best_of(Seq::<HitView>::empty()) == Seq::<HitView>::empty(),
{
    let kept = best_of(found);
    law_best_hit_per_commit(found);
    lemma_last_place(kept, h.sha);
    assert(found.push(h).drop_last() =~= found);
    assert(found.push(h).last() == h);
    assert(has_sha(kept, h.sha) <==> has_sha(found, h.sha));
    assert forall|i: int|
        0 <= i < kept.len() && #[trigger] kept[i].sha == h.sha implies last_place(kept, h.sha)
        == Some(i) by {
        let p = last_place(kept, h.sha)->0;
        assert(has_sha(kept, h.sha));
        if p < i {
            assert(kept[i].sha != h.sha);
        } else if i < p {
            assert(kept[i].sha != kept[p].sha);
        }
    }
}

/// The hit at `j` is the one to keep on its commit: it is above those before it and
/// none after it is above it.
pub open spec fn first_best(found: Seq<HitView>, j: int) -> bool {
    &&& 0 <= j < found.len()
    &&& forall|q: int|
        0 <= q < j && #[trigger] found[q].sha == found[j].sha ==> found[j].score.above(
            found[q].score,
        )
    &&& forall|q: int|
        j < q < found.len() && #[trigger] found[q].sha == found[j].sha ==> !found[q].score.above(
            found[j].score,
        )
}

/// Where every score is a number, the hit that is kept on a commit is the first of
/// those with the highest score.
pub proof fn law_first_of_the_best_is_kept(found: Seq<HitView>)
    requires
        forall|i: int| 0 <= i < found.len() ==> !(#[trigger] found[i]).score.is_nan(),
    ensures
        forall|i: int|
            0 <= i < best_of(found).len() ==> exists|j: int| #[trigger]
                first_best(found, j) && found[j] == #[trigger] best_of(found)[i],
    decreases found.len(),
{
    if found.len() > 0 {
        let before = found.drop_last();
        let n = before.len() as int;
        let h = found.last();
        let kept = best_of(before);
        let now = best_of(found);
        assert forall|i: int| 0 <= i < before.len() implies #[trigger] before[i] == found[i] by {}
        assert(!found[n].score.is_nan());
        law_first_of_the_best_is_kept(before);
        law_best_hit_per_commit(before);
        lemma_last_place(kept, h.sha);
        let place = last_place(kept, h.sha);
        assert forall|i: int| 0 <= i < now.len() implies exists|j: int| #[trigger]
            first_best(found, j) && found[j] == #[trigger] now[i] by {
            let fresh = place is None && i == kept.len() || place == Some(i) && h.score.above(
                kept[i].score,
            );
            if fresh {
                assert forall|q: int| 0 <= q < n && #[trigger] found[q].sha == h.sha implies h.score.above(
                    found[q].score,
                ) by {
                    assert(before[q].sha == h.sha);
                    assert(has_sha(before, h.sha));
                    assert(has_sha(kept, h.sha));
                    assert(!before[q].score.above(kept[i].score));
                    assert(before.contains(kept[i]));
                }
                assert(first_best(found, n));
            } else {
                assert(now[i] == kept[i]);
                let j = choose|j: int| #[trigger] first_best(before, j) && before[j] == kept[i];
                assert forall|q: int|
                    j < q < found.len() && #[trigger] found[q].sha == found[j].sha implies !found[q].score.above(
                found[j].score) by {
                    if q < n {
                        assert(before[q].sha == before[j].sha);
                    } else {
                        assert(kept[i].sha == h.sha);
                        assert(has_sha(kept, h.sha));
                        let p = place->0;
                        if p < i {
                            assert(kept[p].sha != kept[i].sha);
                        } else if i < p {
                            assert(kept[i].sha != kept[p].sha);
                        }
                    }
                }
                assert forall|q: int|
                    0 <= q < j && #[trigger] found[q].sha == found[j].sha implies found[j].score.above(
                found[q].score) by {
                    assert(before[q].sha == before[j].sha);
                }
                assert(first_best(found, j));
            }
        }
    }
}

/// What hits say, place by place: the name, the message and the score of each.
pub proof fn law_hits_say_what_they_hold(hits: Seq<SearchHit>, i: int)
    requires
        0 <= i < hits.len(),
    ensures
        hit_views(hits).len() == hits.len(),
        hit_views(hits)[i].sha == hits[i].full_sha@,
        hit_views(hits)[i].message == hits[i].message@,
        hit_views(hits)[i].score.bits == hits[i].score.bits,
{
}

} // verus!
