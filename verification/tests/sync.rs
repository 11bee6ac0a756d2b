use git_varro::sync::{finish_sync, read_last, start_sync, write_last, SyncStart, SyncStep};

fn show(steps: &[SyncStep]) -> Vec<String> {
    steps
        .iter()
        .map(|s| match s {
            SyncStep::Warn { notice } => format!("warn {}", notice),
            SyncStep::RemoveIndex => "remove".to_string(),
            SyncStep::CreateDirectory => "create".to_string(),
            SyncStep::Index { revision } => format!("index {}", revision),
            SyncStep::WriteLast { contents } => format!("last {:?}", contents),
        })
        .collect()
}

fn steps_of(start: SyncStart) -> Vec<String> {
    match start {
        SyncStart::Steps { steps } => show(&steps),
        SyncStart::CheckAncestor { last } => panic!("asks for {}", last),
    }
}

#[test]
fn the_first_run_indexes_all_of_main() {
    let wanted = vec!["remove", "create", "index main", "last \"abc\\n\""];
    assert_eq!(steps_of(start_sync(None, "abc")), wanted);
    assert_eq!(steps_of(start_sync(Some(" \n".to_string()), "abc")), wanted);
}

#[test]
fn an_index_at_the_tip_is_left_alone() {
    assert!(steps_of(start_sync(Some("abc\n".to_string()), "abc")).is_empty());
    assert!(steps_of(start_sync(Some(write_last("abc")), "abc")).is_empty());
}

#[test]
fn another_recorded_commit_is_looked_up() {
    match start_sync(Some("old\n".to_string()), "abc") {
        SyncStart::CheckAncestor { last } => assert_eq!(last, "old"),
        SyncStart::Steps { steps } => panic!("{:?}", steps),
    }
}

#[test]
fn later_runs_index_only_new_commits() {
    assert_eq!(show(&finish_sync("old", "abc", true)), vec!["index old..main", "last \"abc\\n\""]);
}

#[test]
fn a_rewritten_history_is_indexed_anew() {
    assert_eq!(
        show(&finish_sync("old", "abc", false)),
        vec![
            "warn git-varro: indexed tip is not an ancestor of main; rebuilding index.",
            "remove",
            "create",
            "index main",
            "last \"abc\\n\"",
        ]
    );
}

#[test]
fn the_last_commit_is_read_back() {
    assert_eq!(write_last("abc"), "abc\n");
    assert_eq!(read_last(Some(write_last("abc"))), Some("abc".to_string()));
    assert_eq!(read_last(Some("  abc \r\n".to_string())), Some("abc".to_string()));
    assert_eq!(read_last(Some("".to_string())), None);
    assert_eq!(read_last(None), None);
}

/// The index as a set of commits, and the file that names the last one.
#[derive(Clone, Debug, PartialEq)]
struct Index {
    commits: Vec<String>,
    last: Option<String>,
}

fn history(tip: &str) -> Vec<String> {
    let all = ["c1", "c2", "c3", "c4"];
    let n = all.iter().position(|c| *c == tip).unwrap();
    all[..=n].iter().map(|c| c.to_string()).collect()
}

fn walk(revision: &str, tip: &str) -> Vec<String> {
    match revision.split_once("..") {
        None => history(tip),
        Some((last, _)) => {
            let known = history(last);
            history(tip).into_iter().filter(|c| !known.contains(c)).collect()
        }
    }
}

fn take(index: &mut Index, step: &SyncStep, tip: &str) {
    match step {
        SyncStep::Warn { .. } | SyncStep::CreateDirectory => {}
        SyncStep::RemoveIndex => *index = Index { commits: vec![], last: None },
        SyncStep::Index { revision } => {
            for commit in walk(revision, tip) {
                if !index.commits.contains(&commit) {
                    index.commits.push(commit);
                }
            }
        }
        SyncStep::WriteLast { contents } => index.last = Some(contents.clone()),
    }
}

fn plan(index: &Index, tip: &str, is_ancestor: bool) -> Vec<SyncStep> {
    match start_sync(index.last.clone(), tip) {
        SyncStart::Steps { steps } => steps,
        SyncStart::CheckAncestor { last } => finish_sync(&last, tip, is_ancestor),
    }
}

#[test]
fn an_update_indexes_what_main_reaches() {
    let mut index = Index { commits: vec!["stray".to_string()], last: None };
    for tip in ["c1", "c3", "c4", "c4"] {
        for step in plan(&index, tip, true) {
            take(&mut index, &step, tip);
        }
        assert_eq!(index.commits, history(tip));
        assert_eq!(read_last(index.last.clone()), Some(tip.to_string()));
    }
}

#[test]
fn an_interrupted_update_is_made_good() {
    for is_ancestor in [true, false] {
        for cut in 0..=5 {
            let mut index = Index { commits: history("c2"), last: Some("c2\n".to_string()) };
            for step in plan(&index, "c4", is_ancestor).iter().take(cut) {
                take(&mut index, step, "c4");
            }
            for step in plan(&index, "c4", is_ancestor) {
                take(&mut index, &step, "c4");
            }
            assert_eq!(index.commits, history("c4"));
            assert_eq!(index.last, Some("c4\n".to_string()));
        }
    }
}

#[test]
fn an_update_that_stops_in_the_middle_of_indexing_is_made_good() {
    for is_ancestor in [true, false] {
        for part in 0..=2 {
            let mut index = Index { commits: history("c2"), last: Some("c2\n".to_string()) };
            for step in plan(&index, "c4", is_ancestor) {
                if let SyncStep::Index { revision } = &step {
                    index.commits.extend(walk(revision, "c4").into_iter().take(part));
                    break;
                }
                take(&mut index, &step, "c4");
            }
            if let Some(last) = read_last(index.last.clone()) {
                assert!(history(&last).iter().all(|c| index.commits.contains(c)));
            }
            for step in plan(&index, "c4", is_ancestor) {
                take(&mut index, &step, "c4");
            }
            assert_eq!(index.commits, history("c4"));
            assert_eq!(index.last, Some("c4\n".to_string()));
        }
    }
}

#[test]
fn updates_agree_with_a_fresh_index() {
    let empty = Index { commits: vec![], last: None };
    for is_ancestor in [true, false] {
        let mut followed = empty.clone();
        for step in plan(&followed, "c2", is_ancestor) {
            take(&mut followed, &step, "c2");
        }
        for step in plan(&followed, "c4", is_ancestor) {
            take(&mut followed, &step, "c4");
        }
        let mut fresh = empty.clone();
        for step in plan(&fresh, "c4", is_ancestor) {
            take(&mut fresh, &step, "c4");
        }
        assert_eq!(followed, fresh);
        assert!(plan(&followed, "c4", is_ancestor).is_empty());
    }
}
