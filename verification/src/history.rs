//! Hits in the order of the history of `main`.
use vstd::hash_map::StringHashMap;
use vstd::prelude::*;

use crate::hits::{
    has_sha, hit_views, last_place, lemma_distinct, lemma_last_place, one_per_commit, HitView,
    SearchHit,
};
use crate::text::text_views;

verus! {

/// The hits on the commits of `rev_list`, in its order; of several hits on a
/// commit, the last.
pub open spec fn on_main(rev_list: Seq<Seq<char>>, hits: Seq<HitView>) -> Seq<HitView>
    decreases rev_list.len(),
{
    if rev_list.len() == 0 {
        Seq::empty()
    } else {
        let before = on_main(rev_list.drop_last(), hits);
        match last_place(hits, rev_list.last()) {
            Some(i) => before.push(hits[i]),
            None => before,
        }
    }
}

/// `placed`, followed by the first hit on each commit that it lacks.
pub open spec fn with_missing(placed: Seq<HitView>, hits: Seq<HitView>) -> Seq<HitView>
    decreases hits.len(),
{
    if hits.len() == 0 {
        placed
    } else {
        let before = with_missing(placed, hits.drop_last());
        if has_sha(before, hits.last().sha) {
            before
        } else {
            before.push(hits.last())
        }
    }
}

/// The hits in the order of `rev_list`, then those on commits that it does not list.
pub open spec fn by_history(rev_list: Seq<Seq<char>>, hits: Seq<HitView>) -> Seq<HitView> {
    with_missing(on_main(rev_list, hits), hits)
}

/// `last` maps each commit of `hits` to the last place where it stands.
spec fn last_places(last: Map<Seq<char>, usize>, hits: Seq<HitView>) -> bool {
    forall|sha: Seq<char>|
        #![trigger last.contains_key(sha)]
        #![trigger last_place(hits, sha)]
        if last.contains_key(sha) {
            last_place(hits, sha) == Some(last[sha] as int)
        } else {
            last_place(hits, sha) is None
        }
}

/// `seen` holds the commits of `hits`.
spec fn holds_commits(seen: Map<Seq<char>, bool>, hits: Seq<HitView>) -> bool {
    forall|sha: Seq<char>|
        #![trigger seen.contains_key(sha)]
        #![trigger has_sha(hits, sha)]
        seen.contains_key(sha) <==> has_sha(hits, sha)
}

proof fn lemma_has_sha_push(hits: Seq<HitView>, h: HitView)
    ensures
        forall|sha: Seq<char>| #[trigger]
            has_sha(hits.push(h), sha) <==> has_sha(hits, sha) || h.sha == sha,
{
    assert forall|sha: Seq<char>| #[trigger]
        has_sha(hits.push(h), sha) <==> has_sha(hits, sha) || h.sha == sha by {
        let now = hits.push(h);
        if has_sha(hits, sha) {
            let i = choose|i: int| 0 <= i < hits.len() && #[trigger] hits[i].sha == sha;
            assert(now[i].sha == sha);
        }
        if h.sha == sha {
            assert(now[hits.len() as int].sha == sha);
        }
        if has_sha(now, sha) && h.sha != sha {
            let i = choose|i: int| 0 <= i < now.len() && #[trigger] now[i].sha == sha;
            assert(hits[i].sha == sha);
        }
    }
}

/// The hits in the order of `rev_list`, the commits of `main` newest first; those
/// that it does not list follow in the order they had.
pub fn order_hits_by_main_history(rev_list: &Vec<String>, hits: &Vec<SearchHit>) -> (r: Vec<
    SearchHit,
>)
    ensures
        hit_views(r@) == by_history(text_views(rev_list@), hit_views(hits@)),
{
    let ghost v = hit_views(hits@);
    let ghost revs = text_views(rev_list@);
    let mut last: StringHashMap<usize> = StringHashMap::new();
    let mut i: usize = 0;
    assert(v.take(0) =~= Seq::<HitView>::empty());
    while i < hits.len()
        invariant
            i <= hits@.len(),
            v == hit_views(hits@),
            last_places(last@, v.take(i as int)),
        decreases hits@.len() - i,
    {
        let ghost had = last@;
        last.insert(hits[i].full_sha.clone(), i);
        proof {
            let now = v.take(i + 1);
            assert(now.drop_last() =~= v.take(i as int));
            assert(now.last() == hits@[i as int]@);
            assert forall|sha: Seq<char>|
                if #[trigger] last@.contains_key(sha) {
                    last_place(now, sha) == Some(last@[sha] as int)
                } else {
                    last_place(now, sha) is None
                } by {
                assert(had.contains_key(sha) || !had.contains_key(sha));
            }
        }
        i = i + 1;
    }
    assert(v.take(i as int) =~= v);

    let mut out: Vec<SearchHit> = Vec::new();
    let mut seen: StringHashMap<bool> = StringHashMap::new();
    let mut k: usize = 0;
    assert(revs.take(0) =~= Seq::<Seq<char>>::empty());
    assert(hit_views(out@) =~= Seq::<HitView>::empty());
    while k < rev_list.len()
        invariant
            k <= rev_list@.len(),
            v == hit_views(hits@),
            revs == text_views(rev_list@),
            last_places(last@, v),
            hit_views(out@) == on_main(revs.take(k as int), v),
            holds_commits(seen@, hit_views(out@)),
        decreases rev_list@.len() - k,
    {
        let ghost had = hit_views(out@);
        proof {
            assert(revs.take(k + 1).drop_last() =~= revs.take(k as int));
            assert(revs.take(k + 1).last() == rev_list@[k as int]@);
            lemma_last_place(v, rev_list@[k as int]@);
        }
        match last.get(rev_list[k].as_str()) {
            Some(p) => {
                let hit: SearchHit = hits[*p].clone();
                seen.insert(hit.full_sha.clone(), true);
                out.push(hit);
                proof {
                    assert(hit_views(out@) =~= had.push(hit@));
                    lemma_has_sha_push(had, hit@);
                }
            },
            None => {},
        }
        k = k + 1;
    }
    assert(revs.take(k as int) =~= revs);

    let mut j: usize = 0;
    assert(v.take(0) =~= Seq::<HitView>::empty());
    while j < hits.len()
        invariant
            j <= hits@.len(),
            v == hit_views(hits@),
            hit_views(out@) == with_missing(on_main(revs, v), v.take(j as int)),
            holds_commits(seen@, hit_views(out@)),
        decreases hits@.len() - j,
    {
        let ghost had = hit_views(out@);
        proof {
            assert(v.take(j + 1).drop_last() =~= v.take(j as int));
            assert(v.take(j + 1).last() == hits@[j as int]@);
        }
        if !seen.contains_key(hits[j].full_sha.as_str()) {
            let hit: SearchHit = hits[j].clone();
            seen.insert(hit.full_sha.clone(), true);
            out.push(hit);
            proof {
                assert(hit_views(out@) =~= had.push(hit@));
                lemma_has_sha_push(had, hit@);
            }
        }
        j = j + 1;
    }
    assert(v.take(j as int) =~= v);
    out
}

/// The commits of `p` stand in the order of `list`.
pub open spec fn follows(list: Seq<Seq<char>>, p: Seq<HitView>) -> bool {
    forall|k: int, l: int, a: int, b: int|
        0 <= k < l < p.len() && 0 <= a < list.len() && 0 <= b < list.len() && #[trigger] list[a]
            == (#[trigger] p[k]).sha && #[trigger] list[b] == (#[trigger] p[l]).sha ==> a < b
}

proof fn lemma_on_main(rev_list: Seq<Seq<char>>, hits: Seq<HitView>)
    requires
        one_per_commit(hits),
        rev_list.no_duplicates(),
    ensures
        follows(rev_list, on_main(rev_list, hits)),
        one_per_commit(on_main(rev_list, hits)),
        forall|i: int|
            0 <= i < on_main(rev_list, hits).len() ==> hits.contains(
                #[trigger] on_main(rev_list, hits)[i],
            ) && rev_list.contains(on_main(rev_list, hits)[i].sha),
        forall|i: int|
            0 <= i < hits.len() && rev_list.contains(#[trigger] hits[i].sha) ==> has_sha(
                on_main(rev_list, hits),
                hits[i].sha,
            ),
    decreases rev_list.len(),
{
    if rev_list.len() > 0 {
        let t = rev_list.drop_last();
        let sha = rev_list.last();
        let n = rev_list.len() - 1;
        assert(t.no_duplicates());
        lemma_on_main(t, hits);
        lemma_last_place(hits, sha);
        let had = on_main(t, hits);
        let now = on_main(rev_list, hits);
        assert forall|x: Seq<char>| t.contains(x) implies rev_list.contains(x) && x != sha by {
            let a = choose|a: int| 0 <= a < t.len() && t[a] == x;
            assert(rev_list[a] == x);
            assert(rev_list[n] == sha);
        }
        assert(rev_list[n] == sha);
        assert forall|i: int| 0 <= i < now.len() implies hits.contains(#[trigger] now[i])
            && rev_list.contains(now[i].sha) by {
            if i < had.len() {
                assert(now[i] == had[i]);
            } else {
                assert(hits.contains(hits[last_place(hits, sha)->0]));
            }
        }
        assert forall|k: int, l: int| 0 <= k < l < now.len() implies #[trigger] now[k].sha
            != #[trigger] now[l].sha by {
            assert(now[k] == had[k]);
            if l < had.len() {
                assert(now[l] == had[l]);
            } else {
                assert(t.contains(had[k].sha));
            }
        }
        assert forall|k: int, l: int, a: int, b: int|
            0 <= k < l < now.len() && 0 <= a < rev_list.len() && 0 <= b < rev_list.len()
                && #[trigger] rev_list[a] == (#[trigger] now[k]).sha && #[trigger] rev_list[b] == (
            #[trigger] now[l]).sha implies a < b by {
            assert(now[k] == had[k]);
            assert(t.contains(had[k].sha));
            assert(a != n);
            assert(t[a] == had[k].sha);
            if l < had.len() {
                assert(now[l] == had[l]);
                assert(t.contains(had[l].sha));
                assert(b != n);
                assert(t[b] == had[l].sha);
            } else {
                assert(now[l].sha == sha);
                if b != n {
                    assert(t[b] == sha);
                    assert(t.contains(sha));
                }
            }
        }
        assert forall|i: int| 0 <= i < hits.len() && rev_list.contains(#[trigger] hits[i].sha) implies has_sha(
            now,
            hits[i].sha,
        ) by {
            let a = choose|a: int| 0 <= a < rev_list.len() && rev_list[a] == hits[i].sha;
            if a < n {
                assert(t[a] == hits[i].sha);
                assert(t.contains(hits[i].sha));
                assert(has_sha(had, hits[i].sha));
                let q = choose|q: int| 0 <= q < had.len() && #[trigger] had[q].sha == hits[i].sha;
                assert(now[q].sha == hits[i].sha);
            } else {
                assert(has_sha(hits, sha));
                assert(now[now.len() - 1].sha == sha);
            }
        }
    }
}

/// The hit on the same commit, in a list with one per commit.
proof fn lemma_same_commit(hits: Seq<HitView>, a: HitView, b: HitView)
    requires
        one_per_commit(hits),
        hits.contains(a),
        hits.contains(b),
        a.sha == b.sha,
    ensures
        a == b,
{
    let i = choose|i: int| 0 <= i < hits.len() && hits[i] == a;
    let j = choose|j: int| 0 <= j < hits.len() && hits[j] == b;
    if i < j {
        assert(hits[i].sha != hits[j].sha);
    } else if j < i {
        assert(hits[j].sha != hits[i].sha);
    }
}

proof fn lemma_with_missing(placed: Seq<HitView>, hits: Seq<HitView>)
    requires
        one_per_commit(placed),
        one_per_commit(hits),
    ensures
        one_per_commit(with_missing(placed, hits)),
        placed.len() <= with_missing(placed, hits).len(),
        with_missing(placed, hits).take(placed.len() as int) == placed,
        forall|i: int|
            placed.len() <= i < with_missing(placed, hits).len() ==> hits.contains(
                #[trigger] with_missing(placed, hits)[i],
            ) && !has_sha(placed, with_missing(placed, hits)[i].sha),
        forall|i: int|
            0 <= i < hits.len() ==> has_sha(with_missing(placed, hits), #[trigger] hits[i].sha),
        forall|k: int, l: int, i: int, j: int|
            placed.len() <= k < l < with_missing(placed, hits).len() && 0 <= i < hits.len() && 0
                <= j < hits.len() && #[trigger] hits[i] == #[trigger] with_missing(placed, hits)[k]
                && #[trigger] hits[j] == #[trigger] with_missing(placed, hits)[l] ==> i < j,
    decreases hits.len(),
{
    let now = with_missing(placed, hits);
    if hits.len() == 0 {
        assert(now.take(placed.len() as int) =~= placed);
    } else {
        let t = hits.drop_last();
        let h = hits.last();
        let n = hits.len() - 1;
        assert(hits[n] == h);
        assert(one_per_commit(t)) by {
            assert forall|i: int, j: int| 0 <= i < j < t.len() implies #[trigger] t[i].sha
                != #[trigger] t[j].sha by {
                assert(hits[i].sha != hits[j].sha);
            }
        }
        lemma_with_missing(placed, t);
        let had = with_missing(placed, t);
        assert forall|x: HitView| t.contains(x) implies hits.contains(x) && x != h by {
            let i = choose|i: int| 0 <= i < t.len() && t[i] == x;
            assert(hits[i] == x);
            assert(hits[i].sha != hits[n].sha);
        }
        lemma_has_sha_push(had, h);
        assert(now.take(placed.len() as int) =~= placed) by {
            assert(had.take(placed.len() as int) =~= now.take(placed.len() as int));
        }
        assert forall|i: int| placed.len() <= i < now.len() implies hits.contains(#[trigger] now[i])
            && !has_sha(placed, now[i].sha) by {
            if i < had.len() {
                assert(now[i] == had[i]);
                assert(t.contains(had[i]));
            } else {
                if has_sha(placed, h.sha) {
                    let q = choose|q: int| 0 <= q < placed.len() && #[trigger] placed[q].sha == h.sha;
                    assert(had.take(placed.len() as int)[q] == placed[q]);
                    assert(had[q].sha == h.sha);
                    assert(has_sha(had, h.sha));
                }
            }
        }
        assert forall|i: int, j: int| 0 <= i < j < now.len() implies #[trigger] now[i].sha
            != #[trigger] now[j].sha by {
            assert(now[i] == had[i]);
            if j < had.len() {
                assert(now[j] == had[j]);
            } else {
                assert(had[i].sha != h.sha) by {
                    if had[i].sha == h.sha {
                        assert(has_sha(had, h.sha));
                    }
                }
            }
        }
        assert forall|i: int| 0 <= i < hits.len() implies has_sha(now, #[trigger] hits[i].sha) by {
            if i < n {
                assert(hits[i] == t[i]);
                assert(has_sha(had, t[i].sha));
            }
        }
        assert forall|k: int, l: int, i: int, j: int|
            placed.len() <= k < l < now.len() && 0 <= i < hits.len() && 0 <= j < hits.len()
                && #[trigger] hits[i] == #[trigger] now[k] && #[trigger] hits[j]
                == #[trigger] now[l] implies i < j by {
            assert(now[k] == had[k]);
            assert(t.contains(had[k]));
            assert(i != n);
            assert(t[i] == had[k]);
            if l < had.len() {
                assert(now[l] == had[l]);
                assert(t.contains(had[l]));
                assert(j != n);
                assert(t[j] == had[l]);
            } else {
                if j != n {
                    assert(t[j] == h);
                    assert(t.contains(h));
                }
            }
        }
    }
}

/// With one hit per commit and each commit listed once, ordering by history
/// loses no hit and adds none. The hits on listed commits come first, in the
/// order of the list; the others follow in the order they had.
pub proof fn law_history_order(rev_list: Seq<Seq<char>>, hits: Seq<HitView>)
    requires
        one_per_commit(hits),
        rev_list.no_duplicates(),
    ensures
        by_history(rev_list, hits).to_multiset() == hits.to_multiset(),
        one_per_commit(by_history(rev_list, hits)),
        on_main(rev_list, hits).len() <= by_history(rev_list, hits).len(),
        forall|i: int|
            0 <= i < by_history(rev_list, hits).len() ==> (rev_list.contains(
                (#[trigger] by_history(rev_list, hits)[i]).sha,
            ) <==> i < on_main(rev_list, hits).len()),
        follows(
            rev_list,
            by_history(rev_list, hits).take(on_main(rev_list, hits).len() as int),
        ),
        forall|k: int, l: int, i: int, j: int|
            on_main(rev_list, hits).len() <= k < l < by_history(rev_list, hits).len() && 0 <= i
                < hits.len() && 0 <= j < hits.len() && #[trigger] hits[i]
                == #[trigger] by_history(rev_list, hits)[k] && #[trigger] hits[j]
                == #[trigger] by_history(rev_list, hits)[l] ==> i < j,
{
    broadcast use vstd::seq_lib::group_to_multiset_ensures;

    let m = on_main(rev_list, hits);
    let r = by_history(rev_list, hits);
    lemma_on_main(rev_list, hits);
    lemma_with_missing(m, hits);
    assert forall|i: int| 0 <= i < r.len() implies (rev_list.contains((#[trigger] r[i]).sha) <==> i
        < m.len()) by {
        if i < m.len() {
            assert(r.take(m.len() as int)[i] == m[i]);
            assert(rev_list.contains(m[i].sha));
        } else {
            assert(hits.contains(r[i]));
            let q = choose|q: int| 0 <= q < hits.len() && hits[q] == r[i];
            if rev_list.contains(hits[q].sha) {
                assert(has_sha(m, hits[q].sha));
            }
        }
    }
    // Same elements, none twice on either side.
    assert forall|h: HitView| r.contains(h) implies hits.contains(h) by {
        let i = choose|i: int| 0 <= i < r.len() && r[i] == h;
        if i < m.len() {
            assert(r.take(m.len() as int)[i] == m[i]);
            assert(hits.contains(m[i]));
        } else {
            assert(hits.contains(r[i]));
        }
    }
    assert forall|h: HitView| hits.contains(h) implies r.contains(h) by {
        let i = choose|i: int| 0 <= i < hits.len() && hits[i] == h;
        assert(has_sha(r, hits[i].sha));
        let q = choose|q: int| 0 <= q < r.len() && #[trigger] r[q].sha == hits[i].sha;
        assert(r.contains(r[q]));
        lemma_same_commit(hits, h, r[q]);
    }
    lemma_distinct(r);
    lemma_distinct(hits);
    r.lemma_multiset_has_no_duplicates();
    hits.lemma_multiset_has_no_duplicates();
    assert(r.to_multiset() =~= hits.to_multiset()) by {
        assert forall|h: HitView| r.to_multiset().count(h) == hits.to_multiset().count(h) by {
            assert(r.contains(h) <==> r.to_multiset().count(h) > 0);
            assert(hits.contains(h) <==> hits.to_multiset().count(h) > 0);
            if r.contains(h) {
                assert(r.to_multiset().contains(h));
                assert(hits.to_multiset().contains(h));
            }
        }
    }
}

/// The order of history, with one hit per commit and each commit listed once: every
/// hit stands there once. Of two, the one on the commit that is listed earlier stands
/// first; one on a listed commit stands before one on a commit that is not; and two
/// on commits that are not listed keep the order they had.
pub proof fn law_history_places(rev_list: Seq<Seq<char>>, hits: Seq<HitView>)
    requires
        forall|i: int, j: int|
            0 <= i < j < hits.len() ==> #[trigger] hits[i].sha != #[trigger] hits[j].sha,
        forall|i: int, j: int|
            0 <= i < j < rev_list.len() ==> #[trigger] rev_list[i] != #[trigger] rev_list[j],
    ensures
        ({
            let r = by_history(rev_list, hits);
            &&& r.len() == hits.len()
            &&& forall|i: int| 0 <= i < hits.len() ==> r.contains(#[trigger] hits[i])
            &&& forall|a: int| 0 <= a < r.len() ==> hits.contains(#[trigger] r[a])
            &&& forall|a: int, b: int|
                0 <= a < b < r.len() ==> #[trigger] r[a].sha != #[trigger] r[b].sha
            &&& forall|a: int, b: int|
                0 <= a < b < r.len() && rev_list.contains((#[trigger] r[b]).sha)
                    ==> rev_list.contains((#[trigger] r[a]).sha)
            &&& forall|a: int, b: int, p: int, q: int|
                0 <= a < b < r.len() && 0 <= p < rev_list.len() && 0 <= q < rev_list.len()
                    && #[trigger] rev_list[p] == (#[trigger] r[a]).sha && #[trigger] rev_list[q] == (
                #[trigger] r[b]).sha ==> p < q
            &&& forall|a: int, b: int, i: int, j: int|
                0 <= a < b < r.len() && 0 <= i < hits.len() && 0 <= j < hits.len()
                    && #[trigger] hits[i] == #[trigger] r[a] && #[trigger] hits[j] == #[trigger] r[b]
                    && !rev_list.contains(r[a].sha) ==> i < j
        }),
{
    broadcast use vstd::seq_lib::group_to_multiset_ensures;

    assert(rev_list.no_duplicates()) by {
        assert forall|i: int, j: int|
            0 <= i < rev_list.len() && 0 <= j < rev_list.len() && i != j implies rev_list[i]
            != rev_list[j] by {
            if i < j {
                assert(rev_list[i] != rev_list[j]);
            } else {
                assert(rev_list[j] != rev_list[i]);
            }
        }
    }
    law_history_order(rev_list, hits);
    let r = by_history(rev_list, hits);
    let m = on_main(rev_list, hits).len() as int;
    assert(r.to_multiset().len() == r.len() && hits.to_multiset().len() == hits.len());
    assert forall|i: int| 0 <= i < hits.len() implies r.contains(#[trigger] hits[i]) by {
        assert(hits.contains(hits[i]));
        assert(r.to_multiset().count(hits[i]) > 0);
    }
    assert forall|a: int| 0 <= a < r.len() implies hits.contains(#[trigger] r[a]) by {
        assert(r.contains(r[a]));
        assert(hits.to_multiset().count(r[a]) > 0);
    }
    let listed = r.take(m);
    assert forall|a: int, b: int, p: int, q: int|
        0 <= a < b < r.len() && 0 <= p < rev_list.len() && 0 <= q < rev_list.len()
            && #[trigger] rev_list[p] == (#[trigger] r[a]).sha && #[trigger] rev_list[q] == (
        #[trigger] r[b]).sha implies p < q by {
        assert(rev_list.contains(rev_list[p]) && rev_list.contains(rev_list[q]));
        assert(a < m && b < m);
        assert(listed[a] == r[a] && listed[b] == r[b]);
    }
}

} // verus!
