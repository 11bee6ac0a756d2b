use git_varro::error::SearchError;
use git_varro::query::{hybrid_message_vql, prepare_query};

#[test]
fn a_query_is_trimmed() {
    assert_eq!(prepare_query("  oauth flow\n").unwrap(), "oauth flow");
    assert_eq!(prepare_query("x").unwrap(), "x");
}

#[test]
fn an_empty_query_is_refused() {
    assert!(matches!(prepare_query(""), Err(SearchError::EmptyQuery)));
    assert!(matches!(prepare_query(" \t\u{3000}\n"), Err(SearchError::EmptyQuery)));
}

#[test]
fn the_phrase_stands_on_both_sides() {
    assert_eq!(
        hybrid_message_vql("regression in checkout"),
        "message:'regression in checkout' | ~message:'regression in checkout'"
    );
    assert_eq!(hybrid_message_vql(""), "message:'' | ~message:''");
}

#[test]
fn quotes_in_the_phrase_become_spaces() {
    assert_eq!(hybrid_message_vql("don't 'panic'"), "message:'don t  panic ' | ~message:'don t  panic '");
    assert_eq!(hybrid_message_vql("'''").matches('\'').count(), 4);
    assert_eq!(hybrid_message_vql("say \"hi\" | ~x"), "message:'say \"hi\" | ~x' | ~message:'say \"hi\" | ~x'");
}

#[test]
fn errors_have_their_messages() {
    assert_eq!(SearchError::EmptyQuery.message(), "search query is empty");
    assert_eq!(SearchError::NotARepository.message(), "not inside a git repository");
    assert_eq!(
        SearchError::NoMainBranch { detail: "no reference".to_string() }.message(),
        "branch `main` not found in this repository (git-varro only indexes `main`).\nno reference"
    );
    assert_eq!(
        SearchError::ThreeDots { revision: "a...b".to_string() }.message(),
        "git-varro does not support three-dot revspecs (a...b); use two-dot ranges only"
    );
    assert_eq!(
        SearchError::MissingLeft { revision: "..\"b".to_string() }.message(),
        "revparse \"..\\\"b\": missing left side of range"
    );
    assert_eq!(
        SearchError::MissingRight { revision: "a..".to_string() }.message(),
        "revparse \"a..\": missing right side of range"
    );
    let not_utf8 = SearchError::MessageNotUtf8 { cause: "at the end".to_string() };
    assert_eq!(not_utf8.message(), "commit message is not valid UTF-8");
    assert_eq!(not_utf8.cause(), Some("at the end"));
    let not_found = SearchError::CommitNotFound { sha: "abc".to_string() };
    assert_eq!(not_found.message(), "find_commit abc");
    assert_eq!(not_found.cause(), None);
}
