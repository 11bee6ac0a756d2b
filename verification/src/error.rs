//! What can go wrong, and how it is reported.
use vstd::prelude::*;
use vstd::string::*;

use crate::text::joined;

verus! {

/// Why a search was given up.
#[derive(Debug)]
pub enum SearchError {
    /// The query is empty or only white space.
    EmptyQuery,
    /// No directory from the current one upwards holds a repository.
    NotARepository,
    /// The repository has no branch `main`; git's own words follow.
    NoMainBranch { detail: String },
    /// A range written with three dots.
    ThreeDots { revision: String },
    /// A range without a left side.
    MissingLeft { revision: String },
    /// A range without a right side.
    MissingRight { revision: String },
    /// A commit that the walk gave could not be read.
    CommitNotFound { sha: String },
    /// A commit message that is not UTF-8; the cause says where it goes wrong.
    MessageNotUtf8 { cause: String },
    /// `git show` did not start, or it failed.
    ShowFailed,
}

/// The text that std writes for a string under `{:?}`: quoted and escaped.
pub uninterp spec fn debug_text(s: Seq<char>) -> Seq<char>;

/// `s` as std's `Debug` for `str` writes it. That the text depends on `s` alone
/// is taken on trust; which characters it escapes, and how, is not stated.
#[verifier::external_body]
fn quoted(s: &str) -> (r: String)
    ensures
        r@ == debug_text(s@),
{
    format!("{:?}", s)
}

impl SearchError {
    /// The message for the user.
    pub open spec fn text(self) -> Seq<char> {
        match self {
            SearchError::EmptyQuery => "search query is empty"@,
            SearchError::NotARepository => "not inside a git repository"@,
            SearchError::NoMainBranch { detail } =>
                "branch `main` not found in this repository (git-varro only indexes `main`).\n"@
                + detail@,
            SearchError::ThreeDots { revision } => "git-varro does not support three-dot revspecs ("@
                + revision@ + "); use two-dot ranges only"@,
            SearchError::MissingLeft { revision } => "revparse "@ + debug_text(revision@)
                + ": missing left side of range"@,
            SearchError::MissingRight { revision } => "revparse "@ + debug_text(revision@)
                + ": missing right side of range"@,
            SearchError::CommitNotFound { sha } => "find_commit "@ + sha@,
            SearchError::MessageNotUtf8 { .. } => "commit message is not valid UTF-8"@,
            SearchError::ShowFailed => "git show"@,
        }
    }

    /// The message for the user.
    pub fn message(&self) -> (r: String)
        ensures
            r@ == self.text(),
    {
        match self {
            SearchError::EmptyQuery => "search query is empty".to_owned(),
            SearchError::NotARepository => "not inside a git repository".to_owned(),
            SearchError::NoMainBranch { detail } => joined(
                "branch `main` not found in this repository (git-varro only indexes `main`).\n",
                detail.as_str(),
            ),
            SearchError::ThreeDots { revision } => joined(
                "git-varro does not support three-dot revspecs (",
                revision.as_str(),
            ).concat("); use two-dot ranges only"),
            SearchError::MissingLeft { revision } => joined(
                "revparse ",
                quoted(revision.as_str()).as_str(),
            ).concat(": missing left side of range"),
            SearchError::MissingRight { revision } => joined(
                "revparse ",
                quoted(revision.as_str()).as_str(),
            ).concat(": missing right side of range"),
            SearchError::CommitNotFound { sha } => joined("find_commit ", sha.as_str()),
            SearchError::MessageNotUtf8 { .. } => "commit message is not valid UTF-8".to_owned(),
            SearchError::ShowFailed => "git show".to_owned(),
        }
    }

    /// What the message rests on, as a text of its own.
    pub open spec fn cause_text(self) -> Option<Seq<char>> {
        match self {
            SearchError::MessageNotUtf8 { cause } => Some(cause@),
            _ => None,
        }
    }

    /// What the message rests on, to be told below it.
    pub fn cause(&self) -> (r: Option<&str>)
        ensures
            match r {
                Some(words) => self.cause_text() == Some(words@),
                None => self.cause_text() is None,
            },
    {
        match self {
            SearchError::MessageNotUtf8 { cause } => Some(cause.as_str()),
            _ => None,
        }
    }
}

/// What each message says: what is wrong comes first; git's words end the message on
/// a missing branch, and the name that on a missing commit; the other two on ranges
/// hold the revision between their words, as it stands or quoted.
pub proof fn law_messages_hold_their_subject(subject: String)
    ensures
        ({
            let text = (SearchError::NoMainBranch { detail: subject }).text();
            let words =
                "branch `main` not found in this repository (git-varro only indexes `main`).\n"@;
            parted(text, words, subject@, Seq::empty())
        }),
        parted(
            (SearchError::CommitNotFound { sha: subject }).text(),
            "find_commit "@,
            subject@,
            Seq::empty(),
        ),
        parted(
            (SearchError::ThreeDots { revision: subject }).text(),
            "git-varro does not support three-dot revspecs ("@,
            subject@,
            "); use two-dot ranges only"@,
        ),
        parted(
            (SearchError::MissingLeft { revision: subject }).text(),
            "revparse "@,
            debug_text(subject@),
            ": missing left side of range"@,
        ),
        parted(
            (SearchError::MissingRight { revision: subject }).text(),
            "revparse "@,
            debug_text(subject@),
            ": missing right side of range"@,
        ),
        (SearchError::MessageNotUtf8 { cause: subject }).text()
            == "commit message is not valid UTF-8"@,
        (SearchError::MessageNotUtf8 { cause: subject }).cause_text() == Some(subject@),
        SearchError::EmptyQuery.text() == "search query is empty"@,
        SearchError::NotARepository.text() == "not inside a git repository"@,
        SearchError::ShowFailed.text() == "git show"@,
{
}

/// `text` begins with `start` and ends with `end`, and between them stands `middle`.
pub open spec fn parted(
    text: Seq<char>,
    start: Seq<char>,
    middle: Seq<char>,
    end: Seq<char>,
) -> bool {
    let a = start.len() as int;
    let b = a + middle.len();
    &&& text.len() == b + end.len()
    &&& text.take(a) =~= start
    &&& text.subrange(a, b) =~= middle
    &&& text.skip(b) =~= end
}

} // verus!
