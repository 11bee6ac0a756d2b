//! Bringing the index up to date with `main`.
use vstd::prelude::*;
use vstd::string::*;

use crate::index::MAIN_BRANCH;
use crate::revision::has_two_dots;
use crate::text::{
    joined, law_trim_takes_white_space_off, same_text, trim, trim_end_of, trim_of, trim_start_of,
    trimmed, white_space,
};

verus! {

/// One step of an update of the index. The steps are taken in order, and the
/// first that fails ends the update.
#[derive(Debug)]
pub enum SyncStep {
    /// Tell the user.
    Warn { notice: String },
    /// Remove the directory of the index and what is in it, if it is there.
    RemoveIndex,
    /// Create the directory of the index.
    CreateDirectory,
    /// Index the commits that `revision` stands for.
    Index { revision: String },
    /// Write the file that names the last commit indexed.
    WriteLast { contents: String },
}

/// What a [`SyncStep`] says.
pub enum StepView {
    Warn(Seq<char>),
    RemoveIndex,
    CreateDirectory,
    Index(Seq<char>),
    WriteLast(Seq<char>),
}

impl View for SyncStep {
    type V = StepView;

    open spec fn view(&self) -> StepView {
        match *self {
            SyncStep::Warn { notice } => StepView::Warn(notice@),
            SyncStep::RemoveIndex => StepView::RemoveIndex,
            SyncStep::CreateDirectory => StepView::CreateDirectory,
            SyncStep::Index { revision } => StepView::Index(revision@),
            SyncStep::WriteLast { contents } => StepView::WriteLast(contents@),
        }
    }
}

/// What the steps say, in order.
pub open spec fn step_views(steps: Seq<SyncStep>) -> Seq<StepView> {
    steps.map_values(|s: SyncStep| s@)
}

/// The commit that the file of the last commit names: its contents without white
/// space around them. A file that is empty, or that cannot be read, names none.
pub open spec fn recorded(contents: Option<Seq<char>>) -> Option<Seq<char>> {
    match contents {
        Some(c) if trim_of(c).len() > 0 => Some(trim_of(c)),
        _ => None,
    }
}

/// The contents of the file that names `sha` as the last commit indexed.
pub open spec fn last_line(sha: Seq<char>) -> Seq<char> {
    sha + "\n"@
}

/// The text of an optional string.
pub open spec fn option_view(s: Option<String>) -> Option<Seq<char>> {
    match s {
        Some(t) => Some(t@),
        None => None,
    }
}

/// The commit that was indexed last, from the contents of the file that names it.
pub fn read_last(contents: Option<String>) -> (r: Option<String>)
    ensures
        option_view(r) == recorded(option_view(contents)),
{
    match contents {
        None => None,
        Some(c) => {
            let s: &str = trim(c.as_str());
            if s.is_empty() {
                None
            } else {
                Some(s.to_owned())
            }
        },
    }
}

/// The contents of the file that names `sha` as the last commit indexed.
pub fn write_last(sha: &str) -> (r: String)
    ensures
        r@ == last_line(sha@),
{
    joined(sha, "\n")
}

/// What the user is told before an index is rebuilt.
pub open spec fn rebuild_notice() -> Seq<char> {
    "git-varro: indexed tip is not an ancestor of main; rebuilding index."@
}

/// Build the index anew: clear it, index all of `main`, and record its tip. If
/// there was a recorded commit, say so first.
pub open spec fn rebuild_steps(had_last: bool, main_tip: Seq<char>) -> Seq<StepView> {
    let work = seq![
        StepView::RemoveIndex,
        StepView::CreateDirectory,
        StepView::Index(MAIN_BRANCH@),
        StepView::WriteLast(last_line(main_tip)),
    ];
    if had_last {
        seq![StepView::Warn(rebuild_notice())] + work
    } else {
        work
    }
}

/// The commits of `main` that `last` does not reach, as a range.
pub open spec fn range_from(last: Seq<char>) -> Seq<char> {
    last + ".."@ + MAIN_BRANCH@
}

/// Index what came after `last`, and record the tip of `main`.
pub open spec fn extend_steps(last: Seq<char>, main_tip: Seq<char>) -> Seq<StepView> {
    seq![StepView::Index(range_from(last)), StepView::WriteLast(last_line(main_tip))]
}

/// The whole update: nothing where the recorded commit is the tip; the new commits
/// where it is an ancestor of the tip; all of them otherwise.
pub open spec fn sync_steps(
    last: Option<Seq<char>>,
    main_tip: Seq<char>,
    is_ancestor: bool,
) -> Seq<StepView> {
    match last {
        None => rebuild_steps(false, main_tip),
        Some(l) => if l == main_tip {
            Seq::empty()
        } else if is_ancestor {
            extend_steps(l, main_tip)
        } else {
            rebuild_steps(true, main_tip)
        },
    }
}

/// How an update begins: with steps, or with the question whether the recorded
/// commit is an ancestor of `main`.
#[derive(Debug)]
pub enum SyncStart {
    Steps { steps: Vec<SyncStep> },
    CheckAncestor { last: String },
}

fn rebuild(had_last: bool, main_tip: &str) -> (r: Vec<SyncStep>)
    ensures
        step_views(r@) == rebuild_steps(had_last, main_tip@),
{
    let mut steps: Vec<SyncStep> = Vec::new();
    if had_last {
        steps.push(
            SyncStep::Warn {
                notice: "git-varro: indexed tip is not an ancestor of main; rebuilding index."
                    .to_owned(),
            },
        );
    }
    steps.push(SyncStep::RemoveIndex);
    steps.push(SyncStep::CreateDirectory);
    steps.push(SyncStep::Index { revision: MAIN_BRANCH.to_owned() });
    steps.push(SyncStep::WriteLast { contents: write_last(main_tip) });
    assert(step_views(steps@) =~= rebuild_steps(had_last, main_tip@));
    steps
}

fn extend(last: &str, main_tip: &str) -> (r: Vec<SyncStep>)
    ensures
        step_views(r@) == extend_steps(last@, main_tip@),
{
    let mut steps: Vec<SyncStep> = Vec::new();
    steps.push(SyncStep::Index { revision: joined(last, "..").concat(MAIN_BRANCH) });
    steps.push(SyncStep::WriteLast { contents: write_last(main_tip) });
    assert(step_views(steps@) =~= extend_steps(last@, main_tip@));
    steps
}

/// Begins an update of the index to the commit `main_tip`, from the contents of
/// the file that names the last commit indexed (none where it cannot be read).
pub fn start_sync(last_file: Option<String>, main_tip: &str) -> (r: SyncStart)
    ensures
        match r {
            SyncStart::Steps { steps } => {
                let last = recorded(option_view(last_file));
                &&& last is None || last == Some(main_tip@)
                &&& forall|is_ancestor: bool|
                    step_views(steps@) == #[trigger] sync_steps(last, main_tip@, is_ancestor)
            },
            SyncStart::CheckAncestor { last } => recorded(option_view(last_file)) == Some(last@)
                && last@ != main_tip@,
        },
{
    match read_last(last_file) {
        None => SyncStart::Steps { steps: rebuild(false, main_tip) },
        Some(last) => {
            if same_text(last.as_str(), main_tip) {
                let steps: Vec<SyncStep> = Vec::new();
                assert(step_views(steps@) =~= Seq::<StepView>::empty());
                SyncStart::Steps { steps }
            } else {
                SyncStart::CheckAncestor { last }
            }
        },
    }
}

/// Goes on with an update once it is known whether the recorded commit `last` is
/// an ancestor of `main`.
pub fn finish_sync(last: &str, main_tip: &str, is_ancestor: bool) -> (r: Vec<SyncStep>)
    requires
        last@ != main_tip@,
    ensures
        step_views(r@) == sync_steps(Some(last@), main_tip@, is_ancestor),
{
    if is_ancestor {
        extend(last, main_tip)
    } else {
        rebuild(true, main_tip)
    }
}

/// A document in the index: the name of a commit and its message.
pub type Indexed = (Seq<char>, Seq<char>);

/// The state that an update works on: the documents in the index, and the contents
/// of the file that names the last commit.
pub struct IndexState {
    pub documents: Set<Indexed>,
    pub last: Option<Seq<char>>,
}

/// The state after a step that succeeds; `walk` gives the documents of the
/// commits that a revision stands for.
pub open spec fn after_step(
    state: IndexState,
    step: StepView,
    walk: spec_fn(Seq<char>) -> Set<Indexed>,
) -> IndexState {
    match step {
        StepView::Warn(_) => state,
        StepView::RemoveIndex => IndexState { documents: Set::empty(), last: None },
        StepView::CreateDirectory => state,
        StepView::Index(revision) => IndexState {
            documents: state.documents.union(walk(revision)),
            last: state.last,
        },
        StepView::WriteLast(contents) => IndexState { documents: state.documents, last: Some(contents) },
    }
}

/// The state after the steps.
pub open spec fn after_steps(
    state: IndexState,
    steps: Seq<StepView>,
    walk: spec_fn(Seq<char>) -> Set<Indexed>,
) -> IndexState
    decreases steps.len(),
{
    if steps.len() == 0 {
        state
    } else {
        after_step(after_steps(state, steps.drop_last(), walk), steps.last(), walk)
    }
}

/// What revisions stand for, where `reach` gives the documents of the commits that
/// a commit reaches: `main` stands for what its tip reaches, and a range, which has
/// a commit before its two dots and `main` after them, for what of that the commit
/// does not reach.
pub open spec fn walks_as_git(
    walk: spec_fn(Seq<char>) -> Set<Indexed>,
    reach: spec_fn(Seq<char>) -> Set<Indexed>,
    main_tip: Seq<char>,
) -> bool {
    &&& walk("main"@) == reach(main_tip)
    &&& forall|last: Seq<char>| #[trigger]
        walk(last + "..main"@) == reach(main_tip).difference(reach(last))
}

/// What git makes of the revisions that an update indexes.
proof fn lemma_walks(
    walk: spec_fn(Seq<char>) -> Set<Indexed>,
    reach: spec_fn(Seq<char>) -> Set<Indexed>,
    main_tip: Seq<char>,
    last: Seq<char>,
)
    requires
        walks_as_git(walk, reach, main_tip),
    ensures
        walk(MAIN_BRANCH@) == reach(main_tip),
        walk(range_from(last)) == reach(main_tip).difference(reach(last)),
{
    reveal_strlit("main");
    reveal_strlit("..");
    reveal_strlit("..main");
    assert(range_from(last) =~= last + "..main"@);
}

/// The index holds what the recorded commit reaches, and nothing else.
pub open spec fn index_exact(
    state: IndexState,
    reach: spec_fn(Seq<char>) -> Set<Indexed>,
) -> bool {
    recorded(state.last) matches Some(l) ==> state.documents == reach(l)
}

/// The index holds what the recorded commit reaches.
pub open spec fn index_covers(
    state: IndexState,
    reach: spec_fn(Seq<char>) -> Set<Indexed>,
) -> bool {
    recorded(state.last) matches Some(l) ==> reach(l).subset_of(state.documents)
}

/// What is written is what is read: the file written for a commit names that commit.
pub proof fn law_last_is_read_back(sha: Seq<char>)
    requires
        trimmed(sha),
        sha.len() > 0,
    ensures
        recorded(Some(last_line(sha))) == Some(sha),
{
    reveal_strlit("\n");
    let line = last_line(sha);
    assert(line[0] == sha[0]);
    assert(trim_start_of(line) == line);
    assert(line.last() == '\n');
    assert(white_space('\n'));
    assert(line.drop_last() =~= sha);
    assert(trim_end_of(line) == trim_end_of(sha));
}

/// Right after an update to a tip, there is nothing more to do for that tip.
pub proof fn law_second_sync_does_nothing(main_tip: Seq<char>, is_ancestor: bool)
    requires
        trimmed(main_tip),
        main_tip.len() > 0,
    ensures
        sync_steps(recorded(Some(last_line(main_tip))), main_tip, is_ancestor)
            == Seq::<StepView>::empty(),
{
    law_last_is_read_back(main_tip);
}

proof fn lemma_run_rebuild(
    state: IndexState,
    had_last: bool,
    main_tip: Seq<char>,
    walk: spec_fn(Seq<char>) -> Set<Indexed>,
    k: int,
)
    requires
        0 <= k <= rebuild_steps(had_last, main_tip).len(),
    ensures
        ({
            let run = after_steps(state, rebuild_steps(had_last, main_tip).take(k), walk);
            let d: int = if had_last {
                1
            } else {
                0
            };
            &&& k <= d ==> run == state
            &&& d < k < d + 4 ==> run.last is None
            &&& k == d + 4 ==> run.last == Some(last_line(main_tip)) && run.documents == walk(
                MAIN_BRANCH@,
            )
        }),
{
    let steps = rebuild_steps(had_last, main_tip);
    let d: int = if had_last {
        1
    } else {
        0
    };
    let start = steps.take(0);
    let one = steps.take(1);
    let two = steps.take(2);
    let three = steps.take(3);
    let four = steps.take(4);
    assert(start =~= Seq::empty());
    assert(one.drop_last() =~= start);
    assert(two.drop_last() =~= one);
    assert(three.drop_last() =~= two);
    assert(four.drop_last() =~= three);
    let s0 = after_steps(state, start, walk);
    let s1 = after_steps(state, one, walk);
    let s2 = after_steps(state, two, walk);
    let s3 = after_steps(state, three, walk);
    let s4 = after_steps(state, four, walk);
    assert(s1 == after_step(s0, steps[0], walk));
    assert(s2 == after_step(s1, steps[1], walk));
    assert(s3 == after_step(s2, steps[2], walk));
    assert(s4 == after_step(s3, steps[3], walk));
    if had_last {
        let five = steps.take(5);
        assert(five.drop_last() =~= four);
        assert(after_steps(state, five, walk) == after_step(s4, steps[4], walk));
        assert(s4.documents =~= walk(MAIN_BRANCH@));
    } else {
        assert(s3.documents =~= walk(MAIN_BRANCH@));
    }
}

proof fn lemma_run_extend(
    state: IndexState,
    last: Seq<char>,
    main_tip: Seq<char>,
    walk: spec_fn(Seq<char>) -> Set<Indexed>,
    k: int,
)
    requires
        0 <= k <= 2,
    ensures
        ({
            let run = after_steps(state, extend_steps(last, main_tip).take(k), walk);
            &&& k == 0 ==> run == state
            &&& k > 0 ==> run.documents == state.documents.union(walk(range_from(last)))
            &&& k == 1 ==> run.last == state.last
            &&& k == 2 ==> run.last == Some(last_line(main_tip))
        }),
{
    let steps = extend_steps(last, main_tip);
    assert(steps.take(0) =~= Seq::empty());
    assert(steps.take(1).drop_last() =~= steps.take(0));
    assert(steps.take(2).drop_last() =~= steps.take(1));
    let s0 = after_steps(state, steps.take(0), walk);
    let s1 = after_steps(state, steps.take(1), walk);
    assert(s1 == after_step(s0, steps[0], walk));
    assert(after_steps(state, steps.take(2), walk) == after_step(s1, steps[1], walk));
}

/// What an update comes to, from an index that holds at least what its recorded
/// commit reaches and, where that commit is kept, at most what the tip reaches.
proof fn lemma_sync_completes(
    state: IndexState,
    main_tip: Seq<char>,
    is_ancestor: bool,
    walk: spec_fn(Seq<char>) -> Set<Indexed>,
    reach: spec_fn(Seq<char>) -> Set<Indexed>,
)
    requires
        trimmed(main_tip),
        main_tip.len() > 0,
        walks_as_git(walk, reach, main_tip),
        index_covers(state, reach),
        recorded(state.last) matches Some(l) ==> (l == main_tip || is_ancestor)
            ==> state.documents.subset_of(reach(main_tip)),
    ensures
        ({
            let steps = sync_steps(recorded(state.last), main_tip, is_ancestor);
            let done = after_steps(state, steps, walk);
            done.documents == reach(main_tip) && recorded(done.last) == Some(main_tip)
        }),
{
    law_last_is_read_back(main_tip);
    lemma_walks(walk, reach, main_tip, Seq::empty());
    let steps = sync_steps(recorded(state.last), main_tip, is_ancestor);
    let done = after_steps(state, steps, walk);
    assert(steps.take(steps.len() as int) =~= steps);
    match recorded(state.last) {
        None => {
            lemma_run_rebuild(state, false, main_tip, walk, steps.len() as int);
        },
        Some(l) => {
            if l == main_tip {
                assert(done.documents =~= reach(main_tip));
            } else if is_ancestor {
                lemma_run_extend(state, l, main_tip, walk, 2);
                lemma_walks(walk, reach, main_tip, l);
                assert(done.documents =~= reach(main_tip));
            } else {
                lemma_run_rebuild(state, true, main_tip, walk, steps.len() as int);
            }
        },
    }
}

/// After an update the index holds every commit that the tip of `main` reaches and
/// no other, and the tip is recorded. This is so from the first run on, which
/// finds no recorded commit; and where the recorded commit is an ancestor of the
/// tip, only commits that the index does not hold yet are indexed.
pub proof fn law_sync_indexes_main(
    state: IndexState,
    main_tip: Seq<char>,
    is_ancestor: bool,
    walk: spec_fn(Seq<char>) -> Set<Indexed>,
    reach: spec_fn(Seq<char>) -> Set<Indexed>,
)
    requires
        trimmed(main_tip),
        main_tip.len() > 0,
        walks_as_git(walk, reach, main_tip),
        index_exact(state, reach),
        recorded(state.last) matches Some(l) ==> is_ancestor ==> reach(l).subset_of(reach(main_tip)),
    ensures
        ({
            let steps = sync_steps(recorded(state.last), main_tip, is_ancestor);
            let done = after_steps(state, steps, walk);
            &&& done.documents == reach(main_tip)
            &&& recorded(done.last) == Some(main_tip)
            &&& recorded(state.last) matches Some(l) ==> l != main_tip && is_ancestor ==> steps
                == extend_steps(l, main_tip) && walk(range_from(l)).disjoint(state.documents)
        }),
{
    lemma_sync_completes(state, main_tip, is_ancestor, walk, reach);
    if recorded(state.last) is Some {
        let l = recorded(state.last)->0;
        lemma_walks(walk, reach, main_tip, l);
    }
}

/// The state that an update leaves when it is cut short: `taken` of its steps went
/// through and, where the next one indexes a revision, it got as far as `part`.
pub open spec fn cut_short(
    state: IndexState,
    steps: Seq<StepView>,
    walk: spec_fn(Seq<char>) -> Set<Indexed>,
    taken: int,
    part: Set<Indexed>,
) -> IndexState {
    let before = after_steps(state, steps.take(taken), walk);
    IndexState { documents: before.documents.union(part), last: before.last }
}

/// `part` is what the next step can have added when it fails: some of the documents
/// of the revision that it indexes. A step of another kind counts as taken or not.
pub open spec fn partly_done(
    steps: Seq<StepView>,
    walk: spec_fn(Seq<char>) -> Set<Indexed>,
    taken: int,
    part: Set<Indexed>,
) -> bool {
    ||| part == Set::<Indexed>::empty()
    ||| taken < steps.len() && (steps[taken] matches StepView::Index(revision) && part.subset_of(
        walk(revision),
    ))
}

/// What an update that is cut short leaves. The index covers the recorded commit,
/// which is the one that was recorded, the tip or none. Where one is recorded, the
/// index holds nothing but what it held and what the tip reaches, and after a
/// rebuild only the latter.
proof fn lemma_cut_short(
    state: IndexState,
    main_tip: Seq<char>,
    is_ancestor: bool,
    walk: spec_fn(Seq<char>) -> Set<Indexed>,
    reach: spec_fn(Seq<char>) -> Set<Indexed>,
    taken: int,
    part: Set<Indexed>,
)
    requires
        trimmed(main_tip),
        main_tip.len() > 0,
        walks_as_git(walk, reach, main_tip),
        index_covers(state, reach),
        0 <= taken <= sync_steps(recorded(state.last), main_tip, is_ancestor).len(),
        partly_done(sync_steps(recorded(state.last), main_tip, is_ancestor), walk, taken, part),
    ensures
        ({
            let steps = sync_steps(recorded(state.last), main_tip, is_ancestor);
            let cut = cut_short(state, steps, walk, taken, part);
            &&& index_covers(cut, reach)
            &&& recorded(cut.last) is None || recorded(cut.last) == recorded(state.last)
                || recorded(cut.last) == Some(main_tip)
            &&& recorded(cut.last) is Some ==> cut.documents.subset_of(
                state.documents.union(reach(main_tip)),
            )
            &&& recorded(cut.last) == Some(main_tip) && recorded(state.last) != Some(main_tip)
                && !is_ancestor ==> cut.documents.subset_of(reach(main_tip))
        }),
{
    law_last_is_read_back(main_tip);
    lemma_walks(walk, reach, main_tip, Seq::empty());
    let steps = sync_steps(recorded(state.last), main_tip, is_ancestor);
    let before = after_steps(state, steps.take(taken), walk);
    let cut = cut_short(state, steps, walk, taken, part);
    match recorded(state.last) {
        None => {
            lemma_run_rebuild(state, false, main_tip, walk, taken);
        },
        Some(l) => {
            if l == main_tip {
                assert(steps.take(taken) =~= Seq::empty());
            } else if is_ancestor {
                lemma_run_extend(state, l, main_tip, walk, taken);
                lemma_walks(walk, reach, main_tip, l);
            } else {
                lemma_run_rebuild(state, true, main_tip, walk, taken);
            }
        },
    }
}

/// An update that is cut short, between its steps or in the middle of indexing,
/// leaves an index that holds at least what its recorded commit reaches: the tip is
/// recorded last.
pub proof fn law_interrupted_sync_is_covered(
    state: IndexState,
    main_tip: Seq<char>,
    is_ancestor: bool,
    walk: spec_fn(Seq<char>) -> Set<Indexed>,
    reach: spec_fn(Seq<char>) -> Set<Indexed>,
    taken: int,
    part: Set<Indexed>,
)
    requires
        trimmed(main_tip),
        main_tip.len() > 0,
        walks_as_git(walk, reach, main_tip),
        index_covers(state, reach),
        0 <= taken <= sync_steps(recorded(state.last), main_tip, is_ancestor).len(),
        partly_done(sync_steps(recorded(state.last), main_tip, is_ancestor), walk, taken, part),
    ensures
        index_covers(
            cut_short(
                state,
                sync_steps(recorded(state.last), main_tip, is_ancestor),
                walk,
                taken,
                part,
            ),
            reach,
        ),
{
    lemma_cut_short(state, main_tip, is_ancestor, walk, reach, taken, part);
}

/// An update that is cut short, between its steps or in the middle of indexing, is
/// made good by the next one to the same tip: it leaves the index as an update that
/// went through.
pub proof fn law_interrupted_sync_is_made_good(
    state: IndexState,
    main_tip: Seq<char>,
    is_ancestor: bool,
    walk: spec_fn(Seq<char>) -> Set<Indexed>,
    reach: spec_fn(Seq<char>) -> Set<Indexed>,
    taken: int,
    part: Set<Indexed>,
)
    requires
        trimmed(main_tip),
        main_tip.len() > 0,
        walks_as_git(walk, reach, main_tip),
        index_exact(state, reach),
        recorded(state.last) matches Some(l) ==> is_ancestor ==> reach(l).subset_of(reach(main_tip)),
        0 <= taken <= sync_steps(recorded(state.last), main_tip, is_ancestor).len(),
        partly_done(sync_steps(recorded(state.last), main_tip, is_ancestor), walk, taken, part),
    ensures
        ({
            let cut = cut_short(
                state,
                sync_steps(recorded(state.last), main_tip, is_ancestor),
                walk,
                taken,
                part,
            );
            let done = after_steps(
                cut,
                sync_steps(recorded(cut.last), main_tip, is_ancestor),
                walk,
            );
            done.documents == reach(main_tip) && recorded(done.last) == Some(main_tip)
        }),
{
    lemma_cut_short(state, main_tip, is_ancestor, walk, reach, taken, part);
    let steps = sync_steps(recorded(state.last), main_tip, is_ancestor);
    let cut = cut_short(state, steps, walk, taken, part);
    if recorded(state.last) is None && recorded(cut.last) is Some {
        lemma_run_rebuild(state, false, main_tip, walk, taken);
    }
    lemma_sync_completes(cut, main_tip, is_ancestor, walk, reach);
}

/// The index after an update to `main_tip`.
pub open spec fn synced(
    state: IndexState,
    main_tip: Seq<char>,
    is_ancestor: bool,
    walk: spec_fn(Seq<char>) -> Set<Indexed>,
) -> IndexState {
    after_steps(state, sync_steps(recorded(state.last), main_tip, is_ancestor), walk)
}

/// Updates that follow `main` leave the index that a first update would make: from
/// an empty directory, an update to `first` and then one to `second`, wherever `main`
/// has moved, give what an update to `second` gives there. That is every commit that
/// `second` reaches and no other, with `second` recorded, and one more update to it
/// changes nothing. An update that does not ask whether the recorded commit is an
/// ancestor is the same for `any` answer.
pub proof fn law_updates_agree_with_a_fresh_index(
    first: Seq<char>,
    second: Seq<char>,
    is_ancestor: bool,
    any: bool,
    walk_first: spec_fn(Seq<char>) -> Set<Indexed>,
    walk_second: spec_fn(Seq<char>) -> Set<Indexed>,
    reach: spec_fn(Seq<char>) -> Set<Indexed>,
)
    requires
        trimmed(first),
        first.len() > 0,
        trimmed(second),
        second.len() > 0,
        walks_as_git(walk_first, reach, first),
        walks_as_git(walk_second, reach, second),
        is_ancestor ==> reach(first).subset_of(reach(second)),
    ensures
        ({
            let empty = IndexState { documents: Set::empty(), last: None };
            let followed = synced(
                synced(empty, first, any, walk_first),
                second,
                is_ancestor,
                walk_second,
            );
            &&& followed == synced(empty, second, any, walk_second)
            &&& followed.documents == reach(second)
            &&& recorded(followed.last) == Some(second)
            &&& synced(followed, second, any, walk_second) == followed
        }),
{
    let empty = IndexState { documents: Set::empty(), last: None };
    let one = synced(empty, first, any, walk_first);
    let fresh = synced(empty, second, any, walk_second);
    lemma_sync_completes(empty, first, any, walk_first, reach);
    lemma_sync_completes(empty, second, any, walk_second, reach);
    law_sync_indexes_main(one, second, is_ancestor, walk_second, reach);
    lemma_sync_records(empty, first, any, walk_first);
    lemma_sync_records(empty, second, any, walk_second);
    lemma_sync_records(one, second, is_ancestor, walk_second);
}

/// The file of the last commit after an update: it is written anew, or it named the
/// tip before.
proof fn lemma_sync_records(
    state: IndexState,
    main_tip: Seq<char>,
    is_ancestor: bool,
    walk: spec_fn(Seq<char>) -> Set<Indexed>,
)
    ensures
        synced(state, main_tip, is_ancestor, walk).last == (if recorded(state.last) == Some(
            main_tip,
        ) {
            state.last
        } else {
            Some(last_line(main_tip))
        }),
{
    let steps = sync_steps(recorded(state.last), main_tip, is_ancestor);
    assert(steps.take(steps.len() as int) =~= steps);
    match recorded(state.last) {
        None => {
            lemma_run_rebuild(state, false, main_tip, walk, steps.len() as int);
        },
        Some(l) => {
            if l == main_tip {
            } else if is_ancestor {
                lemma_run_extend(state, l, main_tip, walk, 2);
            } else {
                lemma_run_rebuild(state, true, main_tip, walk, steps.len() as int);
            }
        },
    }
}

/// Three dots in a row.
pub open spec fn has_three_dots(s: Seq<char>) -> bool {
    exists|i: int|
        0 <= i < s.len() - 2 && #[trigger] s[i] == '.' && s[i + 1] == '.' && s[i + 2] == '.'
}

/// Of the revisions that an update indexes, `main` is a single commit and the one
/// from a recorded commit is a range; it has two dots and not three, where the name
/// of the commit has none, as that of an object.
pub proof fn law_sync_revisions(last: Seq<char>)
    ensures
        !has_two_dots(MAIN_BRANCH@),
        has_two_dots(range_from(last)),
        !last.contains('.') ==> !has_three_dots(range_from(last)),
{
    reveal_strlit("main");
    reveal_strlit("..");
    let r = range_from(last);
    let n = last.len() as int;
    assert(r[n] == '.' && r[n + 1] == '.');
    assert(r[n + 2] == 'm' && r[n + 3] == 'a' && r[n + 4] == 'i' && r[n + 5] == 'n');
    if !last.contains('.') && has_three_dots(r) {
        let i = choose|i: int|
            0 <= i < r.len() - 2 && #[trigger] r[i] == '.' && r[i + 1] == '.' && r[i + 2] == '.';
        if i < n {
            assert(last[i] == '.');
        }
    }
}

/// The text of a range: `last` before the two dots, which is what the walk leaves
/// out, and `main` after them, which is where it starts. If `last` has no dot, there
/// are no other two dots to split it at.
pub proof fn law_range_sides(last: Seq<char>)
    ensures
        ({
            let range = range_from(last);
            let n = last.len() as int;
            &&& range.len() == n + 6
            &&& range.take(n) == last
            &&& range[n] == '.' && range[n + 1] == '.'
            &&& range.skip(n + 2) == seq!['m', 'a', 'i', 'n']
            &&& range.skip(n + 2) == MAIN_BRANCH@
            &&& !last.contains('.') ==> forall|i: int|
                0 <= i < range.len() - 1 && #[trigger] range[i] == '.' && range[i + 1] == '.' ==> i
                    == n
        }),
{
    reveal_strlit("main");
    reveal_strlit("..");
    let range = range_from(last);
    let n = last.len() as int;
    assert(range.take(n) =~= last);
    assert(range.skip(n + 2) =~= seq!['m', 'a', 'i', 'n']);
    assert(MAIN_BRANCH@ =~= seq!['m', 'a', 'i', 'n']);
    if !last.contains('.') {
        assert forall|i: int|
            0 <= i < range.len() - 1 && #[trigger] range[i] == '.' && range[i + 1]
                == '.' implies i == n by {
            if i < n {
                assert(last[i] == range[i]);
                assert(last.contains(last[i]));
            }
        }
    }
}

/// The file of the last commit is its name and a line feed.
pub proof fn law_last_is_one_line(sha: Seq<char>)
    ensures
        last_line(sha).len() == sha.len() + 1,
        last_line(sha).take(sha.len() as int) == sha,
        last_line(sha)[sha.len() as int] == '\n',
{
    reveal_strlit("\n");
    assert(last_line(sha).take(sha.len() as int) =~= sha);
}

/// The recorded commit is what the file holds between the white space at its ends;
/// a file with nothing but white space, or none, records no commit.
pub proof fn law_recorded_between_white_space(a: Seq<char>, sha: Seq<char>, b: Seq<char>)
    requires
        forall|i: int| 0 <= i < a.len() ==> white_space(#[trigger] a[i]),
        forall|i: int| 0 <= i < b.len() ==> white_space(#[trigger] b[i]),
        sha.len() > 0 ==> !white_space(sha[0]) && !white_space(sha[sha.len() - 1]),
    ensures
        recorded(Some(a + sha + b)) == (if sha.len() == 0 {
            None
        } else {
            Some(sha)
        }),
        recorded(None) is None,
{
    law_trim_takes_white_space_off(a, sha, b);
}

/// An update does nothing just where the tip is recorded already.
pub proof fn law_nothing_to_do_at_the_tip(
    last: Option<Seq<char>>,
    main_tip: Seq<char>,
    is_ancestor: bool,
)
    ensures
        sync_steps(last, main_tip, is_ancestor).len() == 0 <==> last == Some(main_tip),
{
}

/// An update that does something ends by recording the tip, as a line; right before
/// that it indexes, and it indexes and records nothing else. What it indexes is all
/// of `main`, or the range from the recorded commit where that is an ancestor.
pub proof fn law_update_indexes_then_records(
    last: Option<Seq<char>>,
    main_tip: Seq<char>,
    is_ancestor: bool,
)
    requires
        last != Some(main_tip),
    ensures
        ({
            let steps = sync_steps(last, main_tip, is_ancestor);
            let n = steps.len() as int;
            &&& n >= 2
            &&& steps[n - 1] matches StepView::WriteLast(contents) && contents == main_tip.push('\n')
            &&& steps[n - 2] matches StepView::Index(revision) && revision == (if is_ancestor
                && last is Some {
                last->0 + seq!['.', '.', 'm', 'a', 'i', 'n']
            } else {
                seq!['m', 'a', 'i', 'n']
            })
            &&& forall|i: int|
                0 <= i < n - 2 ==> !(#[trigger] steps[i] is Index) && !(steps[i] is WriteLast)
        }),
{
    reveal_strlit("main");
    reveal_strlit("..");
    reveal_strlit("\n");
    assert(last_line(main_tip) =~= main_tip.push('\n'));
    assert(MAIN_BRANCH@ =~= seq!['m', 'a', 'i', 'n']);
    if last is Some {
        assert(range_from(last->0) =~= last->0 + seq!['.', '.', 'm', 'a', 'i', 'n']);
    }
}

/// Only where no recorded commit is an ancestor of the tip is the index cleared
/// before it is filled: once, and its directory is there again after that. The user
/// is told of it first, and just where there was a recorded commit.
pub proof fn law_rebuild_clears_first(
    last: Option<Seq<char>>,
    main_tip: Seq<char>,
    is_ancestor: bool,
)
    requires
        last != Some(main_tip),
    ensures
        ({
            let steps = sync_steps(last, main_tip, is_ancestor);
            let n = steps.len() as int;
            let rebuilds = last is None || !is_ancestor;
            &&& !rebuilds ==> n == 2
            &&& rebuilds ==> n == (if last is Some {
                5int
            } else {
                4
            }) && steps[n - 4] is RemoveIndex && steps[n - 3] is CreateDirectory
            &&& rebuilds && last is Some ==> (steps[0] matches StepView::Warn(notice) && notice
                == "git-varro: indexed tip is not an ancestor of main; rebuilding index."@)
        }),
{
}

/// What a step says is what it holds, and so for a list of steps, place by place.
pub proof fn law_steps_say_what_they_hold(steps: Seq<SyncStep>, i: int)
    requires
        0 <= i < steps.len(),
    ensures
        step_views(steps).len() == steps.len(),
        match steps[i] {
            SyncStep::Warn { notice } => step_views(steps)[i] == StepView::Warn(notice@),
            SyncStep::RemoveIndex => step_views(steps)[i] is RemoveIndex,
            SyncStep::CreateDirectory => step_views(steps)[i] is CreateDirectory,
            SyncStep::Index { revision } => step_views(steps)[i] == StepView::Index(revision@),
            SyncStep::WriteLast { contents } => step_views(steps)[i] == StepView::WriteLast(
                contents@,
            ),
        },
{
}

/// A file that was read says its contents, and one that was not says nothing.
pub proof fn law_file_says_its_contents(contents: String)
    ensures
        option_view(Some(contents)) == Some(contents@),
        option_view(None) is None,
{
}

} // verus!
