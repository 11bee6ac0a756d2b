use git_varro::error::SearchError;
use git_varro::hits::{RawMatch, SearchHit};
use git_varro::score::Score;
use git_varro::search::{
    find_git_root, plain_line, verify_main_branch, Reply, Request, Session, Step, NO_MATCHES,
};

fn found(id: &str, message: &str, score: f64) -> RawMatch {
    RawMatch {
        id: id.to_string(),
        message: Some(message.to_string()),
        score: Score { bits: score.to_bits() },
    }
}

fn shas(hits: &[SearchHit]) -> Vec<&str> {
    hits.iter().map(|h| h.full_sha.as_str()).collect()
}

fn matches() -> Vec<RawMatch> {
    vec![
        found("cc", "third", 0.25),
        found("aa", "first", 0.5),
        found("zz", "elsewhere", 0.75),
        found("bb", "second", 0.5),
        found("aa", "first", 0.125),
    ]
}

fn up_to_search(no_tui: bool) -> Session {
    let mut session = Session::start(" it's late ", no_tui).unwrap();
    assert_eq!(session.step, Step::Root);
    match session.run_search(Reply::Root { has_git: vec![false, false, true, true] }) {
        Request::OpenRepository { ancestor } => assert_eq!(ancestor, 2),
        other => panic!("{:?}", other),
    }
    assert!(matches!(session.run_search(Reply::Main { found: Ok(()) }), Request::ResolveMain));
    match session.run_search(Reply::Tip { sha: "tip".to_string() }) {
        Request::Sync { main_tip } => assert_eq!(main_tip, "tip"),
        other => panic!("{:?}", other),
    }
    match session.run_search(Reply::Synced) {
        Request::Search { vql } => assert_eq!(vql, "message:'it s late' | ~message:'it s late'"),
        other => panic!("{:?}", other),
    }
    session
}

#[test]
fn an_empty_query_starts_no_search() {
    assert!(matches!(Session::start("  ", true), Err(SearchError::EmptyQuery)));
    assert_eq!(Session::start(" x ", false).unwrap().query, "x");
}

#[test]
fn the_nearest_repository_is_taken() {
    assert_eq!(find_git_root(&vec![false, true, true]), Some(1));
    assert_eq!(find_git_root(&vec![true]), Some(0));
    assert_eq!(find_git_root(&vec![false, false]), None);
    assert_eq!(find_git_root(&vec![]), None);
}

#[test]
fn outside_a_repository_the_search_fails() {
    let mut session = Session::start("x", false).unwrap();
    match session.run_search(Reply::Root { has_git: vec![false] }) {
        Request::Fail { error } => assert_eq!(error.message(), "not inside a git repository"),
        other => panic!("{:?}", other),
    }
    assert_eq!(session.step, Step::Done);
}

#[test]
fn without_main_the_search_fails() {
    let mut session = Session::start("x", false).unwrap();
    session.run_search(Reply::Root { has_git: vec![true] });
    match session.run_search(Reply::Main { found: Err("gone".to_string()) }) {
        Request::Fail { error } => {
            assert!(matches!(error, SearchError::NoMainBranch { detail } if detail == "gone"))
        }
        other => panic!("{:?}", other),
    }
    assert!(verify_main_branch(Ok(())).is_ok());
    assert!(verify_main_branch(Err("e".to_string())).is_err());
}

#[test]
fn nothing_found() {
    let mut session = up_to_search(false);
    assert!(matches!(session.run_search(Reply::Matches { matches: vec![] }), Request::NoMatches));
    assert_eq!(session.step, Step::Done);
    assert_eq!(NO_MATCHES, "No matches.");
}

#[test]
fn printed_rows_are_best_first() {
    let mut session = up_to_search(true);
    match session.run_search(Reply::Matches { matches: matches() }) {
        Request::Print { rows } => {
            assert_eq!(shas(&rows), vec!["zz", "aa", "bb", "cc"]);
            assert_eq!(rows[1].score.bits, 0.5f64.to_bits());
        }
        other => panic!("{:?}", other),
    }
    assert_eq!(session.step, Step::Done);
}

#[test]
fn the_browser_gets_both_orders() {
    let mut session = up_to_search(false);
    assert!(matches!(session.run_search(Reply::Matches { matches: matches() }), Request::ListHistory));
    assert_eq!(session.step, Step::History);
    assert_eq!(shas(&session.hits), vec!["zz", "aa", "bb", "cc"]);
    let rev_list = vec!["tip".to_string(), "cc".to_string(), "bb".to_string(), "aa".to_string()];
    match session.run_search(Reply::History { rev_list }) {
        Request::Browse { date_ordered, score_ordered } => {
            assert_eq!(shas(&date_ordered), vec!["cc", "bb", "aa", "zz"]);
            assert_eq!(shas(&score_ordered), vec!["zz", "aa", "bb", "cc"]);
        }
        other => panic!("{:?}", other),
    }
    assert_eq!(session.step, Step::Done);
}

#[test]
fn both_searches_show_the_same_hits() {
    let printed = match up_to_search(true).run_search(Reply::Matches { matches: matches() }) {
        Request::Print { rows } => rows,
        other => panic!("{:?}", other),
    };
    let mut session = up_to_search(false);
    session.run_search(Reply::Matches { matches: matches() });
    let rev_list = vec!["bb".to_string(), "aa".to_string(), "cc".to_string()];
    let (date_ordered, score_ordered) = match session.run_search(Reply::History { rev_list }) {
        Request::Browse { date_ordered, score_ordered } => (date_ordered, score_ordered),
        other => panic!("{:?}", other),
    };
    assert_eq!(shas(&score_ordered), shas(&printed));
    assert_eq!(shas(&date_ordered), vec!["bb", "aa", "cc", "zz"]);
    let mut sorted = shas(&date_ordered);
    sorted.sort();
    let mut wanted = shas(&printed);
    wanted.sort();
    assert_eq!(sorted, wanted);
}

#[test]
fn a_score_that_is_no_number_loses_no_commit() {
    let mut odd = matches();
    odd.push(found("dd", "odd", f64::NAN));
    match up_to_search(true).run_search(Reply::Matches { matches: odd }) {
        Request::Print { rows } => {
            let mut names = shas(&rows);
            names.sort();
            assert_eq!(names, vec!["aa", "bb", "cc", "dd", "zz"]);
        }
        other => panic!("{:?}", other),
    }
}

#[test]
fn a_printed_line() {
    let hit = SearchHit {
        full_sha: "0123456789abcdef".to_string(),
        message: "fix: the thing \r\n\nwhy".to_string(),
        score: Score { bits: 0 },
    };
    let line = plain_line(&hit, "1.2500");
    assert_eq!(line, "0123456  fix: the thing  1.2500");
    assert!(!line.contains('\n'));
}
