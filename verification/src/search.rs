//! A search from the query to what is shown: which question is put to git, to the
//! file system or to the engine next, and what is made of the answers.
use vstd::prelude::*;
use vstd::string::*;

use crate::browser::{law_toggle_sort, pressed, AppView, CommitSort, KeyCode};
use crate::error::SearchError;
use crate::history::{
    by_history, law_history_order, law_history_places, order_hits_by_main_history,
};
use crate::hits::{
    all_numbers, best_hits, best_of, first_best, has_sha, hit_views, law_best_hit_per_commit,
    law_first_of_the_best_is_kept, law_hit_says_what_the_match_says, match_hits, one_per_commit,
    HitView, RawMatch, SearchHit,
};
use crate::query::{hybrid_message_vql, law_query_holds_the_phrase, prepare_query, vql_of};
use crate::rank::{
    law_ranked_best_first, law_ranking_descends, law_ranking_ignores_arrival, law_text_order,
    precedes, rank_hits, ranked, sort_hits, text_less,
};
use crate::score::law_what_is_no_number;
use crate::text::{
    first_line, first_line_of, joined, law_first_line, law_short_is_prefix, short_of, short_sha,
    shortenable, text_views, trim_of,
};

verus! {

/// What is printed where nothing matched.
pub const NO_MATCHES: &'static str = "No matches.";

/// The first place that is marked.
pub open spec fn first_marked(marks: Seq<bool>) -> Option<int>
    decreases marks.len(),
{
    if marks.len() == 0 {
        None
    } else if first_marked(marks.drop_last()) is Some {
        first_marked(marks.drop_last())
    } else if marks.last() {
        Some(marks.len() - 1)
    } else {
        None
    }
}

/// [`first_marked`] is marked, nothing before it is, and it misses no mark.
pub proof fn lemma_first_marked(marks: Seq<bool>)
    ensures
        match first_marked(marks) {
            Some(i) => 0 <= i < marks.len() && marks[i] && forall|j: int|
                0 <= j < i ==> !#[trigger] marks[j],
            None => forall|j: int| 0 <= j < marks.len() ==> !#[trigger] marks[j],
        },
    decreases marks.len(),
{
    if marks.len() > 0 {
        lemma_first_marked(marks.drop_last());
        assert forall|j: int| 0 <= j < marks.len() - 1 implies marks[j] == marks.drop_last()[j] by {}
    }
}

/// The root of the repository: the nearest directory that holds `.git`, where
/// `has_git` tells of the current directory and of those above it, in this order,
/// whether they do.
pub fn find_git_root(has_git: &Vec<bool>) -> (r: Option<usize>)
    ensures
        match r {
            Some(i) => first_marked(has_git@) == Some(i as int),
            None => first_marked(has_git@) is None,
        },
        match r {
            Some(i) => i < has_git@.len() && has_git@[i as int] && forall|k: int|
                0 <= k < i ==> !#[trigger] has_git@[k],
            None => forall|k: int| 0 <= k < has_git@.len() ==> !#[trigger] has_git@[k],
        },
{
    let mut i: usize = 0;
    proof {
        lemma_first_marked(has_git@);
    }
    while i < has_git.len()
        invariant
            i <= has_git@.len(),
            forall|j: int| 0 <= j < i ==> !#[trigger] has_git@[j],
            first_marked(has_git@) matches Some(k) ==> i <= k < has_git@.len() && has_git@[k]
                && forall|j: int| 0 <= j < k ==> !#[trigger] has_git@[j],
            first_marked(has_git@) is None ==> forall|j: int|
                0 <= j < has_git@.len() ==> !#[trigger] has_git@[j],
        decreases has_git@.len() - i,
    {
        if has_git[i] {
            return Some(i);
        }
        i = i + 1;
    }
    None
}

/// Whether there is a branch `main`, from git's answer to the question for it.
pub fn verify_main_branch(found: Result<(), String>) -> (r: Result<(), SearchError>)
    ensures
        match found {
            Ok(_) => r is Ok,
            Err(words) => r matches Err(SearchError::NoMainBranch { detail }) && detail == words,
        },
{
    match found {
        Ok(_) => Ok(()),
        Err(words) => Err(SearchError::NoMainBranch { detail: words }),
    }
}

/// The line that is printed for a hit: short name, subject, score.
pub open spec fn plain_line_of(hit: HitView, score_text: Seq<char>) -> Seq<char> {
    short_of(hit.sha) + "  "@ + first_line_of(hit.message) + "  "@ + score_text
}

/// The line that is printed for a hit, with the score as text.
pub fn plain_line(hit: &SearchHit, score_text: &str) -> (r: String)
    requires
        shortenable(hit@.sha),
    ensures
        r@ == plain_line_of(hit@, score_text@),
{
    joined(short_sha(hit.full_sha.as_str()), "  ").concat(
        first_line(hit.message.as_str()),
    ).concat("  ").concat(score_text)
}

/// How far a search has come: the answer that it waits for.
#[derive(Clone, Copy, Debug, PartialEq, Eq, Structural)]
pub enum Step {
    Root,
    Main,
    Tip,
    Sync,
    Search,
    History,
    Done,
}

/// An answer from outside.
#[derive(Debug)]
pub enum Reply {
    /// Of the current directory and of those above it, whether they hold `.git`.
    Root { has_git: Vec<bool> },
    /// The repository is open and the directory of its index is there; whether it
    /// has a branch `main`, or git's words where not.
    Main { found: Result<(), String> },
    /// The commit at the tip of `main`.
    Tip { sha: String },
    /// The index is up to date.
    Synced,
    /// What the engine found.
    Matches { matches: Vec<RawMatch> },
    /// The commits of `main`, newest first.
    History { rev_list: Vec<String> },
}

/// What is to be done next.
#[derive(Debug)]
pub enum Request {
    /// Open the repository in the directory that was this many above the current
    /// one, create the directory of its index, and look up `main`.
    OpenRepository { ancestor: usize },
    /// Find the commit at the tip of `main`.
    ResolveMain,
    /// Bring the index up to date with the tip of `main`.
    Sync { main_tip: String },
    /// Ask the engine.
    Search { vql: String },
    /// Say that nothing matched.
    NoMatches,
    /// Print the hits, one line for each.
    Print { rows: Vec<SearchHit> },
    /// List the commits of `main`.
    ListHistory,
    /// Open the browser.
    Browse { date_ordered: Vec<SearchHit>, score_ordered: Vec<SearchHit> },
    /// Give up.
    Fail { error: SearchError },
}

/// A search under way.
#[derive(Debug)]
pub struct Session {
    pub query: String,
    pub no_tui: bool,
    pub step: Step,
    pub hits: Vec<SearchHit>,
}

/// The reply is the one that the step waits for.
pub open spec fn fits(step: Step, reply: Reply) -> bool {
    match step {
        Step::Root => reply is Root,
        Step::Main => reply is Main,
        Step::Tip => reply is Tip,
        Step::Sync => reply is Synced,
        Step::Search => reply is Matches,
        Step::History => reply is History,
        Step::Done => false,
    }
}

/// The step that a search can go to from `step`.
pub open spec fn leads(step: Step, next: Step) -> bool {
    match step {
        Step::Root => next == Step::Main || next == Step::Done,
        Step::Main => next == Step::Tip || next == Step::Done,
        Step::Tip => next == Step::Sync,
        Step::Sync => next == Step::Search,
        Step::Search => next == Step::History || next == Step::Done,
        Step::History => next == Step::Done,
        Step::Done => false,
    }
}

impl Session {
    /// What follows from a reply: the step that is reached, and the request.
    pub open spec fn answers(self, reply: Reply, after: Session, request: Request) -> bool {
        match reply {
            Reply::Root { has_git } => match first_marked(has_git@) {
                Some(i) => after.step == Step::Main && request == (Request::OpenRepository {
                    ancestor: i as usize,
                }),
                None => after.step == Step::Done && request == (Request::Fail {
                    error: SearchError::NotARepository,
                }),
            },
            Reply::Main { found } => match found {
                Ok(_) => after.step == Step::Tip && request is ResolveMain,
                Err(words) => after.step == Step::Done && request == (Request::Fail {
                    error: SearchError::NoMainBranch { detail: words },
                }),
            },
            Reply::Tip { sha } => after.step == Step::Sync && request == (Request::Sync {
                main_tip: sha,
            }),
            Reply::Synced => after.step == Step::Search && (request matches Request::Search { vql }
                && vql@ == vql_of(self.query@)),
            Reply::Matches { matches } => {
                let best = best_of(match_hits(matches@));
                if matches@.len() == 0 {
                    after.step == Step::Done && request is NoMatches
                } else if self.no_tui {
                    after.step == Step::Done && (request matches Request::Print { rows } && ranked(
                        true,
                        best,
                        hit_views(rows@),
                    ))
                } else {
                    after.step == Step::History && request is ListHistory && ranked(
                        false,
                        best,
                        hit_views(after.hits@),
                    )
                }
            },
            Reply::History { rev_list } => after.step == Step::Done && (
            request matches Request::Browse { date_ordered, score_ordered } && hit_views(
                date_ordered@,
            ) == by_history(text_views(rev_list@), hit_views(self.hits@)) && ranked(
                true,
                hit_views(self.hits@),
                hit_views(score_ordered@),
            )),
        }
    }

    /// Starts a search for what the user typed. The first question is where the
    /// repository is; a query that is empty is refused before any is asked.
    pub fn start(raw_query: &str, no_tui: bool) -> (r: Result<Session, SearchError>)
        ensures
            r is Err <==> trim_of(raw_query@).len() == 0,
            match r {
                Ok(session) => session.query@ == trim_of(raw_query@) && session.no_tui == no_tui
                    && session.step == Step::Root && session.hits@.len() == 0,
                Err(e) => e is EmptyQuery,
            },
    {
        match prepare_query(raw_query) {
            Ok(query) => Ok(Session { query, no_tui, step: Step::Root, hits: Vec::new() }),
            Err(e) => Err(e),
        }
    }

    /// Takes a reply, and says what is to be done next.
    pub fn run_search(&mut self, reply: Reply) -> (r: Request)
        requires
            fits(old(self).step, reply),
        ensures
            old(self).answers(reply, *final(self), r),
            leads(old(self).step, final(self).step),
            final(self).query == old(self).query,
            final(self).no_tui == old(self).no_tui,
            final(self).step != Step::History ==> final(self).hits == old(self).hits,
    {
        match reply {
            Reply::Root { has_git } => match find_git_root(&has_git) {
                Some(ancestor) => {
                    self.step = Step::Main;
                    Request::OpenRepository { ancestor }
                },
                None => {
                    self.step = Step::Done;
                    Request::Fail { error: SearchError::NotARepository }
                },
            },
            Reply::Main { found } => match verify_main_branch(found) {
                Ok(_) => {
                    self.step = Step::Tip;
                    Request::ResolveMain
                },
                Err(error) => {
                    self.step = Step::Done;
                    Request::Fail { error }
                },
            },
            Reply::Tip { sha } => {
                self.step = Step::Sync;
                Request::Sync { main_tip: sha }
            },
            Reply::Synced => {
                self.step = Step::Search;
                Request::Search { vql: hybrid_message_vql(self.query.as_str()) }
            },
            Reply::Matches { matches } => {
                if matches.len() == 0 {
                    self.step = Step::Done;
                    return Request::NoMatches;
                }
                let best: Vec<SearchHit> = best_hits(matches);
                if self.no_tui {
                    self.step = Step::Done;
                    Request::Print { rows: rank_hits(&best) }
                } else {
                    self.hits = sort_hits(&best, false);
                    self.step = Step::History;
                    Request::ListHistory
                }
            },
            Reply::History { rev_list } => {
                self.step = Step::Done;
                Request::Browse {
                    date_ordered: order_hits_by_main_history(&rev_list, &self.hits),
                    score_ordered: rank_hits(&self.hits),
                }
            },
        }
    }
}

/// A search asks the engine only after the index was brought up to date, and comes
/// to an end after six replies at most.
pub proof fn law_index_is_updated_before_search(steps: Seq<Step>)
    requires
        steps.len() > 0,
        steps[0] == Step::Root,
        forall|i: int, j: int|
            0 <= i && j == i + 1 && j < steps.len() ==> leads(
                #[trigger] steps[i],
                #[trigger] steps[j],
            ),
    ensures
        steps.len() <= 7,
        forall|i: int|
            0 <= i < steps.len() && #[trigger] steps[i] == Step::Search ==> i > 0 && steps[i - 1]
                == Step::Sync,
{
    assert forall|i: int| 0 <= i < steps.len() && #[trigger] steps[i] == Step::Search implies i > 0
        && steps[i - 1] == Step::Sync by {
        if i > 0 {
            assert(leads(steps[i - 1], steps[i]));
        }
    }
    if steps.len() > 7 {
        assert(leads(steps[0], steps[1]));
        assert(leads(steps[1], steps[2]));
        assert(leads(steps[2], steps[3]));
        assert(leads(steps[3], steps[4]));
        assert(leads(steps[4], steps[5]));
        assert(leads(steps[5], steps[6]));
        assert(leads(steps[6], steps[7]));
    }
}

/// A printed hit is plain text: apart from spaces, every character of its line is
/// one of its name, of the first line of its message or of the score.
pub proof fn law_plain_line_is_plain(hit: HitView, score_text: Seq<char>, c: char)
    requires
        shortenable(hit.sha),
        plain_line_of(hit, score_text).contains(c),
        c != ' ',
    ensures
        hit.sha.contains(c) || first_line_of(hit.message).contains(c) || score_text.contains(c),
{
    law_short_is_prefix(hit.sha);
    reveal_strlit("  ");
    let short = short_of(hit.sha);
    let subject = first_line_of(hit.message);
    let line = plain_line_of(hit, score_text);
    let i = choose|i: int| 0 <= i < line.len() && line[i] == c;
    let a = short.len() as int;
    let b = a + 2 + subject.len() as int;
    if i < a {
        assert(short[i] == c);
        assert(hit.sha[i] == c);
    } else if a + 2 <= i < b {
        assert(subject[i - a - 2] == c);
    } else if i >= b + 2 {
        assert(score_text[i - b - 2] == c);
    }
}

/// A printed hit takes one line, if its name and its score do.
pub proof fn law_plain_line_is_one_line(hit: HitView, score_text: Seq<char>)
    requires
        shortenable(hit.sha),
        !hit.sha.contains('\n'),
        !score_text.contains('\n'),
    ensures
        !plain_line_of(hit, score_text).contains('\n'),
{
    law_first_line(hit.message);
    if plain_line_of(hit, score_text).contains('\n') {
        law_plain_line_is_plain(hit, score_text, '\n');
    }
}

/// What is printed: each commit that was found, once, with one of the hits on it.
/// Where every score is a number, that is the best one, and the rows stand in
/// descending order of score.
pub proof fn law_printed_rows(found: Seq<HitView>, rows: Seq<HitView>)
    requires
        ranked(true, best_of(found), rows),
    ensures
        one_per_commit(rows),
        forall|sha: Seq<char>| has_sha(rows, sha) <==> has_sha(found, sha),
        forall|i: int| 0 <= i < rows.len() ==> found.contains(#[trigger] rows[i]),
        all_numbers(found) ==> forall|i: int, j: int|
            0 <= i < rows.len() && 0 <= j < found.len() && rows[i].sha == found[j].sha ==> !(
            #[trigger] found[j]).score.above((#[trigger] rows[i]).score),
        all_numbers(found) ==> forall|i: int, j: int|
            0 <= i < j < rows.len() ==> !(#[trigger] rows[j]).score.above(
                (#[trigger] rows[i]).score,
            ),
{
    broadcast use vstd::seq_lib::group_to_multiset_ensures;

    let best = best_of(found);
    law_best_hit_per_commit(found);
    law_ranked_best_first(true, best, rows);
    assert forall|h: HitView| rows.contains(h) <==> best.contains(h) by {
        assert(rows.to_multiset().contains(h) <==> best.to_multiset().contains(h));
    }
    assert forall|sha: Seq<char>| has_sha(rows, sha) <==> has_sha(found, sha) by {
        assert(has_sha(best, sha) <==> has_sha(found, sha));
        if has_sha(rows, sha) {
            let i = choose|i: int| 0 <= i < rows.len() && #[trigger] rows[i].sha == sha;
            assert(rows.contains(rows[i]));
            let k = choose|k: int| 0 <= k < best.len() && best[k] == rows[i];
            assert(best[k].sha == sha);
        }
        if has_sha(best, sha) {
            let k = choose|k: int| 0 <= k < best.len() && #[trigger] best[k].sha == sha;
            assert(best.contains(best[k]));
            let i = choose|i: int| 0 <= i < rows.len() && rows[i] == best[k];
            assert(rows[i].sha == sha);
        }
    }
    assert forall|i: int| 0 <= i < rows.len() implies found.contains(#[trigger] rows[i]) by {
        assert(rows.contains(rows[i]));
        let k = choose|k: int| 0 <= k < best.len() && best[k] == rows[i];
        assert(found.contains(best[k]));
    }
    if all_numbers(found) {
        assert forall|i: int, j: int|
            0 <= i < rows.len() && 0 <= j < found.len() && rows[i].sha == found[j].sha implies !(
        #[trigger] found[j]).score.above((#[trigger] rows[i]).score) by {
            assert(rows.contains(rows[i]));
            let k = choose|k: int| 0 <= k < best.len() && best[k] == rows[i];
            assert(!found[j].score.above(best[k].score));
        }
        assert forall|i: int, j: int| 0 <= i < j < rows.len() implies !(
        #[trigger] rows[j]).score.above((#[trigger] rows[i]).score) by {
            assert(!precedes(true, rows[j], rows[i]));
        }
    }
}

/// Both lists of the browser hold each hit that is kept once.
proof fn lemma_browser_lists(
    found: Seq<HitView>,
    hits: Seq<HitView>,
    rev_list: Seq<Seq<char>>,
    score_ordered: Seq<HitView>,
)
    requires
        ranked(false, best_of(found), hits),
        ranked(true, hits, score_ordered),
        rev_list.no_duplicates(),
    ensures
        score_ordered.to_multiset() == best_of(found).to_multiset(),
        score_ordered.len() == best_of(found).len(),
        by_history(rev_list, hits).to_multiset() == best_of(found).to_multiset(),
        by_history(rev_list, hits).len() == best_of(found).len(),
{
    broadcast use vstd::seq_lib::group_to_multiset_ensures;

    let best = best_of(found);
    law_best_hit_per_commit(found);
    law_ranked_best_first(false, best, hits);
    law_ranked_best_first(true, hits, score_ordered);
    law_history_order(rev_list, hits);
    let date_ordered = by_history(rev_list, hits);
    assert(best.to_multiset().len() == best.len());
    assert(date_ordered.to_multiset().len() == date_ordered.len());
    assert(score_ordered.to_multiset().len() == score_ordered.len());
}

/// The browser has the hits that would be printed: both of its lists hold each of
/// them once and, where every score is a number, its list by score is what would be
/// printed.
pub proof fn law_browser_shows_what_is_printed(
    found: Seq<HitView>,
    rows: Seq<HitView>,
    hits: Seq<HitView>,
    rev_list: Seq<Seq<char>>,
    score_ordered: Seq<HitView>,
)
    requires
        ranked(true, best_of(found), rows),
        ranked(false, best_of(found), hits),
        ranked(true, hits, score_ordered),
        rev_list.no_duplicates(),
    ensures
        all_numbers(found) ==> score_ordered == rows,
        score_ordered.to_multiset() == rows.to_multiset(),
        score_ordered.len() == rows.len(),
        by_history(rev_list, hits).to_multiset() == rows.to_multiset(),
        by_history(rev_list, hits).len() == rows.len(),
{
    broadcast use vstd::seq_lib::group_to_multiset_ensures;

    let best = best_of(found);
    law_best_hit_per_commit(found);
    law_ranked_best_first(true, best, rows);
    law_ranked_best_first(false, best, hits);
    lemma_browser_lists(found, hits, rev_list, score_ordered);
    if all_numbers(found) {
        law_ranking_ignores_arrival(best, hits, rows, score_ordered);
    }
    assert(rows.to_multiset().len() == rows.len());
}

/// Two searches that get the same matches, one that prints and one that opens the
/// browser, show the same hits. The list by date is the history order of the hits
/// that the second keeps. It holds the hits that the first prints, each as often,
/// and so does the list by score. Where every score is a number, the list by score
/// is the very rows that the first prints.
pub proof fn law_both_searches_show_the_same_hits(
    printing: Session,
    printed: Session,
    print: Request,
    browsing: Session,
    asked: Session,
    ask: Request,
    done: Session,
    browse: Request,
    matches: Vec<RawMatch>,
    rev_list: Vec<String>,
)
    requires
        matches@.len() > 0,
        printing.no_tui,
        printing.answers(Reply::Matches { matches }, printed, print),
        !browsing.no_tui,
        browsing.answers(Reply::Matches { matches }, asked, ask),
        asked.answers(Reply::History { rev_list }, done, browse),
        text_views(rev_list@).no_duplicates(),
    ensures
        print matches Request::Print { rows } && (browse matches Request::Browse {
            date_ordered,
            score_ordered,
        } && {
            let by_date = hit_views(date_ordered@);
            let by_score = hit_views(score_ordered@);
            &&& by_date == by_history(text_views(rev_list@), hit_views(asked.hits@))
            &&& by_date.to_multiset() == hit_views(rows@).to_multiset()
            &&& by_score.to_multiset() == hit_views(rows@).to_multiset()
            &&& by_date.to_multiset() == by_score.to_multiset()
            &&& by_date.len() == by_score.len()
            &&& all_numbers(match_hits(matches@)) ==> by_score == hit_views(rows@)
        }),
{
    let rows = print->rows;
    let score_ordered = browse->score_ordered;
    law_browser_shows_what_is_printed(
        match_hits(matches@),
        hit_views(rows@),
        hit_views(asked.hits@),
        text_views(rev_list@),
        hit_views(score_ordered@),
    );
}

/// In the browser that a search opens, `t` goes from the order of `main` to that of
/// the score or back. Both show the same hits, each as often, and a second `t`
/// brings the first order back.
pub proof fn law_toggle_shows_the_hits_of_the_search(
    browsing: Session,
    asked: Session,
    ask: Request,
    done: Session,
    browse: Request,
    matches: Vec<RawMatch>,
    rev_list: Vec<String>,
    app: AppView,
    height: int,
)
    requires
        matches@.len() > 0,
        !browsing.no_tui,
        browsing.answers(Reply::Matches { matches }, asked, ask),
        asked.answers(Reply::History { rev_list }, done, browse),
        text_views(rev_list@).no_duplicates(),
        browse matches Request::Browse { date_ordered, score_ordered } && app.date_ordered
            == hit_views(date_ordered@) && app.score_ordered == hit_views(score_ordered@),
        app.mode is Browse,
    ensures
        ({
            let hits = hit_views(asked.hits@);
            let once = pressed(app, KeyCode::Char('t'), height).0;
            let by_date = if app.sort == CommitSort::Date {
                app.hits()
            } else {
                once.hits()
            };
            let by_score = if app.sort == CommitSort::Date {
                once.hits()
            } else {
                app.hits()
            };
            &&& once.sort != app.sort
            &&& by_date == by_history(text_views(rev_list@), hits)
            &&& ranked(true, hits, by_score)
            &&& once.hits().to_multiset() == app.hits().to_multiset()
            &&& once.hits().len() == app.hits().len()
            &&& pressed(once, KeyCode::Char('t'), height).0 == app
        }),
{
    lemma_browser_lists(
        match_hits(matches@),
        hit_views(asked.hits@),
        text_views(rev_list@),
        app.score_ordered,
    );
    law_toggle_sort(app, height);
}

/// The row says what the match says, with no message where the engine stored none.
pub open spec fn row_is(row: SearchHit, m: RawMatch) -> bool {
    &&& row.full_sha@ == m.id@
    &&& row.message@ == (match m.message {
        Some(text) => text@,
        None => Seq::empty(),
    })
    &&& row.score.bits == m.score.bits
}

/// The rows are the commits that matched: each match is on the commit of a row, each
/// row is one of the matches, and no commit has two rows. Where every score is a
/// number, the row of a commit is the first of its matches with the highest score.
pub open spec fn rows_for(rows: Seq<SearchHit>, matches: Seq<RawMatch>) -> bool {
    &&& forall|i: int, j: int|
        0 <= i < j < rows.len() ==> (#[trigger] rows[i]).full_sha@ != (
        #[trigger] rows[j]).full_sha@
    &&& forall|k: int|
        0 <= k < matches.len() ==> exists|i: int|
            0 <= i < rows.len() && (#[trigger] rows[i]).full_sha@ == (#[trigger] matches[k]).id@
    &&& forall|i: int|
        0 <= i < rows.len() ==> exists|k: int|
            0 <= k < matches.len() && row_is(#[trigger] rows[i], #[trigger] matches[k])
    &&& all_scores_numbers(matches) ==> forall|i: int|
        0 <= i < rows.len() ==> exists|k: int| #[trigger]
            top_match(matches, k) && row_is(#[trigger] rows[i], matches[k])
}

/// Every score is a number, by its bits.
pub open spec fn all_scores_numbers(matches: Seq<RawMatch>) -> bool {
    forall|k: int|
        0 <= k < matches.len() ==> {
            let bits = (#[trigger] matches[k]).score.bits;
            bits <= 0x7FF0_0000_0000_0000 || 0x8000_0000_0000_0000 <= bits
                <= 0xFFF0_0000_0000_0000
        }
}

/// Among the matches on its commit, the one at `k` is above those before it, and
/// none after it is above it.
pub open spec fn top_match(matches: Seq<RawMatch>, k: int) -> bool {
    &&& 0 <= k < matches.len()
    &&& forall|q: int|
        0 <= q < k && (#[trigger] matches[q]).id@ == matches[k].id@ ==> matches[k].score.above(
            matches[q].score,
        )
    &&& forall|q: int|
        k < q < matches.len() && (#[trigger] matches[q]).id@ == matches[k].id@
            ==> !matches[q].score.above(matches[k].score)
}

/// The rows stand in descending order of score, and by name where scores are equal.
pub open spec fn descending(rows: Seq<SearchHit>) -> bool {
    forall|i: int, j: int|
        0 <= i < j < rows.len() ==> !(#[trigger] rows[j]).score.above((#[trigger] rows[i]).score)
            && (rows[i].score.above(rows[j].score) || text_less(
            rows[i].full_sha@,
            rows[j].full_sha@,
        ))
}

/// Rows that hold the hits that are kept, each as often, are the commits that matched.
proof fn lemma_rows_for(rows: Seq<SearchHit>, matches: Seq<RawMatch>)
    requires
        hit_views(rows).to_multiset() == best_of(match_hits(matches)).to_multiset(),
        one_per_commit(hit_views(rows)),
    ensures
        rows_for(rows, matches),
{
    broadcast use vstd::seq_lib::group_to_multiset_ensures;

    let v = hit_views(rows);
    let found = match_hits(matches);
    let best = best_of(found);
    law_best_hit_per_commit(found);
    assert(v.len() == rows.len() && found.len() == matches.len());
    assert forall|i: int| 0 <= i < rows.len() implies v[i] == (#[trigger] rows[i])@ && best.contains(
        v[i],
    ) by {
        assert(v.contains(v[i]));
        assert(best.to_multiset().count(v[i]) > 0);
    }
    assert forall|i: int, j: int| 0 <= i < j < rows.len() implies (#[trigger] rows[i]).full_sha@
        != (#[trigger] rows[j]).full_sha@ by {
        assert(v[i].sha != v[j].sha);
    }
    assert forall|k: int| 0 <= k < matches.len() implies exists|i: int|
        0 <= i < rows.len() && (#[trigger] rows[i]).full_sha@ == (#[trigger] matches[k]).id@ by {
        assert(found[k].sha == matches[k].id@);
        assert(has_sha(found, matches[k].id@));
        assert(has_sha(best, matches[k].id@));
        let b = choose|b: int| 0 <= b < best.len() && #[trigger] best[b].sha == matches[k].id@;
        assert(best.contains(best[b]));
        assert(v.to_multiset().count(best[b]) > 0);
        assert(v.contains(best[b]));
        let i = choose|i: int| 0 <= i < v.len() && v[i] == best[b];
        assert(rows[i].full_sha@ == matches[k].id@);
    }
    assert forall|i: int| 0 <= i < rows.len() implies exists|k: int|
        0 <= k < matches.len() && row_is(#[trigger] rows[i], #[trigger] matches[k]) by {
        let b = choose|b: int| 0 <= b < best.len() && best[b] == v[i];
        assert(found.contains(best[b]));
        let k = choose|k: int| 0 <= k < found.len() && found[k] == v[i];
        law_hit_says_what_the_match_says(matches, rows[i], k);
        assert(row_is(rows[i], matches[k]));
    }
    if all_scores_numbers(matches) {
        lemma_numbers(matches);
        law_first_of_the_best_is_kept(found);
        assert forall|i: int| 0 <= i < rows.len() implies exists|k: int| #[trigger]
            top_match(matches, k) && row_is(#[trigger] rows[i], matches[k]) by {
            let b = choose|b: int| 0 <= b < best.len() && best[b] == v[i];
            let k = choose|k: int| #[trigger] first_best(found, k) && found[k] == best[b];
            law_hit_says_what_the_match_says(matches, rows[i], k);
            assert forall|q: int|
                0 <= q < k && (#[trigger] matches[q]).id@ == matches[k].id@ implies matches[k].score.above(
            matches[q].score) by {
                assert(found[q].sha == found[k].sha);
            }
            assert forall|q: int|
                k < q < matches.len() && (#[trigger] matches[q]).id@
                    == matches[k].id@ implies !matches[q].score.above(matches[k].score) by {
                assert(found[q].sha == found[k].sha);
            }
            assert(top_match(matches, k));
        }
    }
}

/// Scores that are numbers by their bits are numbers, also of the hits that are kept.
proof fn lemma_numbers(matches: Seq<RawMatch>)
    requires
        all_scores_numbers(matches),
    ensures
        all_numbers(match_hits(matches)),
        all_numbers(best_of(match_hits(matches))),
{
    let found = match_hits(matches);
    assert forall|i: int| 0 <= i < found.len() implies !(#[trigger] found[i]).score.is_nan() by {
        assert(found[i].score == matches[i].score);
        law_what_is_no_number(matches[i].score, matches[i].score);
    }
    law_best_hit_per_commit(found);
}

/// A ranking by score and name with one hit per commit descends.
proof fn lemma_descending(hits: Seq<HitView>, rows: Seq<SearchHit>)
    requires
        ranked(true, hits, hit_views(rows)),
        all_numbers(hits),
        one_per_commit(hits),
    ensures
        descending(rows),
{
    let v = hit_views(rows);
    law_ranked_best_first(true, hits, v);
    law_ranking_descends(true, hits, v);
    assert forall|i: int, j: int| 0 <= i < j < rows.len() implies !(
    #[trigger] rows[j]).score.above((#[trigger] rows[i]).score) && (rows[i].score.above(
        rows[j].score,
    ) || text_less(rows[i].full_sha@, rows[j].full_sha@)) by {
        assert(v[i] == rows[i]@ && v[j] == rows[j]@);
        assert(v[i].sha != v[j].sha);
        law_text_order(v[i].sha, v[j].sha, v[i].sha);
    }
}

/// A search that prints shows every commit that matched, once, with the best of its
/// matches, and no other; where every score is a number, in descending order.
pub proof fn law_every_match_is_printed(
    session: Session,
    matches: Vec<RawMatch>,
    after: Session,
    request: Request,
)
    requires
        session.no_tui,
        matches@.len() > 0,
        session.answers(Reply::Matches { matches }, after, request),
    ensures
        request matches Request::Print { rows } && rows_for(rows@, matches@) && (
        all_scores_numbers(matches@) ==> descending(rows@)),
{
    let rows = request->rows;
    let best = best_of(match_hits(matches@));
    law_best_hit_per_commit(match_hits(matches@));
    law_ranked_best_first(true, best, hit_views(rows@));
    lemma_rows_for(rows@, matches@);
    if all_scores_numbers(matches@) {
        lemma_numbers(matches@);
        lemma_descending(best, rows@);
    }
}

/// Of two rows on listed commits, the one whose commit is listed earlier stands
/// first; and a row on a listed commit stands before one on a commit that is not.
pub open spec fn in_history_order(rev_list: Seq<String>, rows: Seq<SearchHit>) -> bool {
    &&& forall|a: int, b: int, p: int, q: int|
        0 <= a < b < rows.len() && 0 <= p < rev_list.len() && 0 <= q < rev_list.len() && (
        #[trigger] rev_list[p])@ == (#[trigger] rows[a]).full_sha@ && (#[trigger] rev_list[q])@ == (
        #[trigger] rows[b]).full_sha@ ==> p < q
    &&& forall|a: int, b: int, q: int|
        0 <= a < b < rows.len() && 0 <= q < rev_list.len() && (#[trigger] rev_list[q])@ == (
        #[trigger] rows[b]).full_sha@ ==> listed(rev_list, (#[trigger] rows[a]).full_sha@)
}

/// The list names the commit.
pub open spec fn listed(rev_list: Seq<String>, sha: Seq<char>) -> bool {
    exists|p: int| 0 <= p < rev_list.len() && (#[trigger] rev_list[p])@ == sha
}

proof fn lemma_in_history_order(
    rev_list: Seq<String>,
    hits: Seq<HitView>,
    rows: Seq<SearchHit>,
)
    requires
        one_per_commit(hits),
        text_views(rev_list).no_duplicates(),
        hit_views(rows) == by_history(text_views(rev_list), hits),
    ensures
        in_history_order(rev_list, rows),
{
    let revs = text_views(rev_list);
    let v = hit_views(rows);
    law_history_places(revs, hits);
    assert forall|a: int, b: int, p: int, q: int|
        0 <= a < b < rows.len() && 0 <= p < rev_list.len() && 0 <= q < rev_list.len() && (
        #[trigger] rev_list[p])@ == (#[trigger] rows[a]).full_sha@ && (#[trigger] rev_list[q])@ == (
        #[trigger] rows[b]).full_sha@ implies p < q by {
        assert(revs[p] == v[a].sha && revs[q] == v[b].sha);
    }
    assert forall|a: int, b: int, q: int|
        0 <= a < b < rows.len() && 0 <= q < rev_list.len() && (#[trigger] rev_list[q])@ == (
        #[trigger] rows[b]).full_sha@ implies listed(rev_list, (#[trigger] rows[a]).full_sha@) by {
        assert(revs[q] == v[b].sha);
        assert(revs.contains(revs[q]));
        assert(revs.contains(v[a].sha));
        let p = choose|p: int| 0 <= p < revs.len() && revs[p] == v[a].sha;
        assert(rev_list[p]@ == rows[a].full_sha@);
    }
}

/// A search that opens the browser hands it every commit that matched, in both of
/// its lists: once, with the best of its matches, and no other. The list by score
/// descends where every score is a number. In the list by date, of two commits of
/// `main` the one that its history names first stands first, and a commit of `main`
/// stands before one that is not.
pub proof fn law_every_match_is_in_the_browser(
    session: Session,
    matches: Vec<RawMatch>,
    asked: Session,
    ask: Request,
    rev_list: Vec<String>,
    done: Session,
    browse: Request,
)
    requires
        !session.no_tui,
        matches@.len() > 0,
        session.answers(Reply::Matches { matches }, asked, ask),
        asked.answers(Reply::History { rev_list }, done, browse),
        forall|i: int, j: int|
            0 <= i < j < rev_list@.len() ==> (#[trigger] rev_list@[i])@ != (
            #[trigger] rev_list@[j])@,
    ensures
        ask is ListHistory,
        browse matches Request::Browse { date_ordered, score_ordered } && {
            let by_date = date_ordered@;
            &&& rows_for(by_date, matches@)
            &&& rows_for(score_ordered@, matches@)
            &&& all_scores_numbers(matches@) ==> descending(score_ordered@)
            &&& in_history_order(rev_list@, by_date)
        },
{
    let found = match_hits(matches@);
    let best = best_of(found);
    let hits = hit_views(asked.hits@);
    let revs = text_views(rev_list@);
    let date_ordered = browse->date_ordered;
    let score_ordered = browse->score_ordered;
    let by_date = hit_views(date_ordered@);
    assert forall|i: int, j: int| 0 <= i < j < revs.len() implies #[trigger] revs[i]
        != #[trigger] revs[j] by {
        assert(rev_list@[i]@ != rev_list@[j]@);
    }
    assert(revs.no_duplicates()) by {
        assert forall|i: int, j: int|
            0 <= i < revs.len() && 0 <= j < revs.len() && i != j implies revs[i] != revs[j] by {
            if i < j {
                assert(revs[i] != revs[j]);
            } else {
                assert(revs[j] != revs[i]);
            }
        }
    }
    law_best_hit_per_commit(found);
    law_ranked_best_first(false, best, hits);
    law_ranked_best_first(true, hits, hit_views(score_ordered@));
    lemma_browser_lists(found, hits, revs, hit_views(score_ordered@));
    law_history_order(revs, hits);
    lemma_rows_for(date_ordered@, matches@);
    lemma_rows_for(score_ordered@, matches@);
    if all_scores_numbers(matches@) {
        lemma_numbers(matches@);
        lemma_descending(hits, score_ordered@);
    }
    lemma_in_history_order(rev_list@, hits, date_ordered@);
}

/// What follows the answers before the search: the nearest directory with a
/// repository is opened, and without one, or without `main`, the search fails and
/// gives git's words. The index is updated to the tip that was found, and the engine
/// is asked for the phrase of the session. Where it finds nothing, that is said.
pub proof fn law_answers_before_the_hits(
    session: Session,
    reply: Reply,
    after: Session,
    request: Request,
)
    requires
        session.answers(reply, after, request),
    ensures
        match reply {
            Reply::Root { has_git } => {
                ||| after.step == Step::Main && (request matches Request::OpenRepository {
                    ancestor,
                } && ancestor < has_git@.len() && has_git@[ancestor as int] && forall|k: int|
                    0 <= k < ancestor ==> !#[trigger] has_git@[k])
                ||| after.step == Step::Done && (request matches Request::Fail { error }
                    && error is NotARepository) && forall|k: int|
                    0 <= k < has_git@.len() ==> !#[trigger] has_git@[k]
            },
            Reply::Main { found } => match found {
                Ok(_) => after.step == Step::Tip && request is ResolveMain,
                Err(words) => after.step == Step::Done && (request matches Request::Fail { error }
                    && (error matches SearchError::NoMainBranch { detail } && detail@ == words@)),
            },
            Reply::Tip { sha } => after.step == Step::Sync && (request matches Request::Sync {
                main_tip,
            } && main_tip@ == sha@),
            Reply::Synced => after.step == Step::Search && (request matches Request::Search { vql }
                && vql@ == vql_of(session.query@) && vql@.len() == 2 * session.query@.len() + 24
                && forall|i: int|
                0 <= i < session.query@.len() ==> (#[trigger] session.query@[i] == '\'' || vql@[9
                    + i] == session.query@[i])),
            Reply::Matches { matches } => (request is NoMatches <==> matches@.len() == 0) && (
            request is Print <==> matches@.len() > 0 && session.no_tui) && (request is ListHistory
                <==> matches@.len() > 0 && !session.no_tui) && (after.step == Step::History
                <==> request is ListHistory) && (after.step == Step::Done <==> !(
            request is ListHistory)),
            Reply::History { .. } => after.step == Step::Done && request is Browse,
        },
{
    match reply {
        Reply::Root { has_git } => {
            lemma_first_marked(has_git@);
            assert(has_git.len() == has_git@.len());
        },
        Reply::Synced => {
            law_query_holds_the_phrase(session.query@);
        },
        _ => {},
    }
}

/// The line that is printed for a hit: its short name, its subject and its score, in
/// this order, with two spaces between them and nothing else.
pub proof fn law_plain_line_parts(hit: HitView, score_text: Seq<char>)
    ensures
        ({
            let line = plain_line_of(hit, score_text);
            let a = short_of(hit.sha).len() as int;
            let b = a + 2 + first_line_of(hit.message).len();
            &&& line.len() == b + 2 + score_text.len()
            &&& line.take(a) == short_of(hit.sha)
            &&& line[a] == ' ' && line[a + 1] == ' '
            &&& line.subrange(a + 2, b) == first_line_of(hit.message)
            &&& line[b] == ' ' && line[b + 1] == ' '
            &&& line.skip(b + 2) == score_text
        }),
{
    reveal_strlit("  ");
    let line = plain_line_of(hit, score_text);
    let a = short_of(hit.sha).len() as int;
    let b = a + 2 + first_line_of(hit.message).len();
    assert(line.take(a) =~= short_of(hit.sha));
    assert(line.subrange(a + 2, b) =~= first_line_of(hit.message));
    assert(line.skip(b + 2) =~= score_text);
}

} // verus!
