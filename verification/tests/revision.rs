use git_varro::error::SearchError;
use git_varro::index::{index_job, INDEX_FIELD, MAIN_BRANCH};
use git_varro::revision::{
    commit_message_raw_utf8, commit_row, commit_rows, commits_oldest_first, is_range,
    object_name, rev_list_newest_first, walk_bounds, ObjectId, Parsed,
};

fn id(n: u8) -> ObjectId {
    let mut raw = [0u8; 20];
    raw[0] = 0xAB;
    raw[19] = n;
    raw
}

#[test]
fn object_names_are_forty_lower_case_digits() {
    assert_eq!(object_name(&id(0x0F)), "ab0000000000000000000000000000000000000f");
    assert_eq!(object_name(&[0xFF; 20]), "f".repeat(40));
    assert_eq!(object_name(&id(1)), git2::Oid::from_bytes(&id(1)).unwrap().to_string());
    assert!(object_name(&id(1)) != object_name(&id(2)));
}

#[test]
fn ranges_have_two_dots() {
    assert!(is_range("a..b"));
    assert!(is_range("a...b"));
    assert!(is_range(".."));
    assert!(!is_range("main"));
    assert!(!is_range("v1.0.2"));
    assert!(!is_range("."));
    assert!(!is_range(""));
    assert!(!is_range(MAIN_BRANCH));
}

#[test]
fn a_range_hides_its_left_side() {
    let mode_bits = git2::RevparseMode::RANGE.bits();
    let bounds =
        walk_bounds("a..b", Parsed::Range { mode_bits, from: Some(id(1)), to: Some(id(2)) }).unwrap();
    assert_eq!(bounds.hide, Some(id(1)));
    assert_eq!(bounds.push, id(2));
}

#[test]
fn a_commit_hides_nothing() {
    let bounds = walk_bounds("main", Parsed::Commit { id: id(3) }).unwrap();
    assert_eq!(bounds.hide, None);
    assert_eq!(bounds.push, id(3));
}

#[test]
fn three_dots_are_refused() {
    let mode_bits = (git2::RevparseMode::RANGE | git2::RevparseMode::MERGE_BASE).bits();
    let r = walk_bounds("a...b", Parsed::Range { mode_bits, from: Some(id(1)), to: Some(id(2)) });
    assert!(matches!(r, Err(SearchError::ThreeDots { revision }) if revision == "a...b"));
    let r = walk_bounds("a...b", Parsed::Range { mode_bits: 4, from: None, to: None });
    assert!(matches!(r, Err(SearchError::ThreeDots { .. })));
}

#[test]
fn both_sides_of_a_range_are_needed() {
    let mode_bits = git2::RevparseMode::RANGE.bits();
    let r = walk_bounds("..b", Parsed::Range { mode_bits, from: None, to: Some(id(2)) });
    assert!(matches!(r, Err(SearchError::MissingLeft { revision }) if revision == "..b"));
    let r = walk_bounds("a..", Parsed::Range { mode_bits, from: Some(id(1)), to: None });
    assert!(matches!(r, Err(SearchError::MissingRight { revision }) if revision == "a.."));
}

#[test]
fn a_walk_is_turned_round_for_indexing() {
    let walk = vec![id(3), id(2), id(1)];
    let oldest = commits_oldest_first(&walk);
    assert_eq!(oldest, vec![id(1), id(2), id(3)]);
    assert_eq!(commits_oldest_first(&oldest), walk);
    assert!(commits_oldest_first(&vec![]).is_empty());
    assert_eq!(
        rev_list_newest_first(&walk),
        vec![object_name(&id(3)), object_name(&id(2)), object_name(&id(1))]
    );
}

#[test]
fn a_row_has_name_and_message() {
    let row = commit_row(&id(7), "fix: ünï\n".as_bytes().to_vec()).unwrap();
    assert_eq!(row.0, "ab00000000000000000000000000000000000007");
    assert_eq!(row.1, "fix: ünï\n");
}

#[test]
fn a_message_has_to_be_utf8() {
    assert_eq!(commit_message_raw_utf8(vec![0xE2, 0x86, 0x91]).unwrap(), "↑");
    for bad in [vec![b'a', 0xFF], vec![0xC0, 0x80], vec![b'x', b'y', 0xE2, 0x86]] {
        let words = String::from_utf8(bad.clone()).unwrap_err().to_string();
        match commit_message_raw_utf8(bad.clone()) {
            Err(SearchError::MessageNotUtf8 { cause }) => assert_eq!(cause, words),
            other => panic!("{:?}", other),
        }
        match commit_row(&id(7), bad) {
            Err(SearchError::MessageNotUtf8 { cause }) => assert_eq!(cause, words),
            other => panic!("{:?}", other),
        }
    }
}

#[test]
fn each_commit_has_a_row() {
    let messages = vec![b"one\n".to_vec(), vec![], "zw\u{f6}lf".as_bytes().to_vec()];
    let rows = commit_rows(&vec![id(3), id(1), id(2)], messages).unwrap();
    assert_eq!(
        rows,
        vec![
            ("ab00000000000000000000000000000000000003".to_string(), "one\n".to_string()),
            ("ab00000000000000000000000000000000000001".to_string(), "".to_string()),
            ("ab00000000000000000000000000000000000002".to_string(), "zwölf".to_string()),
        ]
    );
    assert!(commit_rows(&vec![], vec![]).unwrap().is_empty());
}

#[test]
fn one_message_that_is_not_utf8_refuses_all_rows() {
    for bad in 0..3 {
        let mut messages = vec![b"a".to_vec(), b"b".to_vec(), b"c".to_vec()];
        messages[bad] = vec![0xFF];
        let rows = commit_rows(&vec![id(1), id(2), id(3)], messages);
        match rows {
            Err(SearchError::MessageNotUtf8 { cause }) => assert!(cause.contains("index 0")),
            other => panic!("{:?}", other),
        }
    }
}

#[test]
fn the_first_commit_without_a_row_is_reported() {
    let ids = vec![id(1), id(2), id(3)];
    match commit_rows(&ids, vec![b"a".to_vec()]) {
        Err(SearchError::CommitNotFound { sha }) => {
            assert_eq!(sha, "ab00000000000000000000000000000000000002")
        }
        other => panic!("{:?}", other),
    }
    match commit_rows(&ids, vec![b"a".to_vec(), vec![b'b', 0xFF]]) {
        Err(SearchError::MessageNotUtf8 { cause }) => assert!(cause.contains("index 1")),
        other => panic!("{:?}", other),
    }
    match commit_rows(&ids, vec![vec![0xFF], vec![b'b', 0xFF], vec![]]) {
        Err(SearchError::MessageNotUtf8 { cause }) => assert!(cause.contains("index 0")),
        other => panic!("{:?}", other),
    }
}

#[test]
fn a_range_gives_the_new_commits_oldest_first() {
    let bounds = walk_bounds("a..b", Parsed::Range {
        mode_bits: 2,
        from: Some(id(2)),
        to: Some(id(4)),
    })
    .unwrap();
    assert_eq!(bounds.hide, Some(id(2)));
    assert_eq!(bounds.push, id(4));
    let to = commits_oldest_first(&vec![id(4), id(3), id(2), id(1)]);
    let from = commits_oldest_first(&vec![id(2), id(1)]);
    let range = commits_oldest_first(&vec![id(4), id(3)]);
    let left: Vec<ObjectId> = to.into_iter().filter(|c| !from.contains(c)).collect();
    assert_eq!(range, left);
    assert!(commits_oldest_first(&vec![]).is_empty());
}

#[test]
fn each_row_becomes_a_document() {
    let rows = vec![
        ("aa".to_string(), "first".to_string()),
        ("bb".to_string(), "".to_string()),
    ];
    let job = index_job(rows).unwrap();
    assert_eq!(job.total, 2);
    assert_eq!(job.documents.len(), 2);
    assert_eq!(job.documents[0].id, "aa");
    assert_eq!(job.documents[0].field, INDEX_FIELD);
    assert_eq!(job.documents[0].contents, "first");
    assert!(job.documents[0].stored);
    assert_eq!(job.documents[1].id, "bb");
    assert_eq!(job.documents[1].contents, "");
}

#[test]
fn without_rows_there_is_nothing_to_index() {
    assert!(index_job(vec![]).is_none());
}
