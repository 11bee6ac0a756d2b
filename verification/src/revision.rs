//! Revisions: what to walk, and what a walk gives.
use vstd::prelude::*;
use vstd::string::*;
use vstd::utf8::*;

use crate::error::SearchError;
use crate::text::{
    chars_of, law_short_sha_ascii, short_of, shortenable, text_views, trimmed,
};

verus! {

/// The raw name of an object.
pub type ObjectId = [u8; 20];

/// The hexadecimal digit `d`, in lower case.
pub open spec fn hex_digit(d: int) -> char {
    if d < 10 {
        (('0' as int) + d) as char
    } else {
        (('a' as int) + (d - 10)) as char
    }
}

/// `bytes` in hexadecimal, two digits for each byte.
pub open spec fn hex_of(bytes: Seq<u8>) -> Seq<char> {
    Seq::new(
        2 * bytes.len(),
        |i: int|
            if i % 2 == 0 {
                hex_digit(bytes[i / 2] as int / 16)
            } else {
                hex_digit(bytes[i / 2] as int % 16)
            },
    )
}

/// `git2::Oid::from_bytes` followed by the `Display` of `git2::Oid`: twenty bytes
/// make an object name, which is written in hexadecimal, in lower case, two digits
/// for each byte.
#[verifier::external_body]
fn oid_hex(id: &ObjectId) -> (r: String)
    ensures
        r@ == hex_of(id@),
{
    git2::Oid::from_bytes(id).unwrap().to_string()
}

/// `git2::RevparseMode::contains` for the flag `MERGE_BASE`, which is the bit of
/// value four: whether the bits of a mode hold it.
#[verifier::external_body]
fn has_merge_base(mode_bits: u32) -> (r: bool)
    ensures
        r == (mode_bits & 4 == 4),
{
    git2::RevparseMode::from_bits_retain(mode_bits).contains(git2::RevparseMode::MERGE_BASE)
}

/// The words of std's error for bytes that are not UTF-8: where they go wrong.
pub uninterp spec fn utf8_error_text(bytes: Seq<u8>) -> Seq<char>;

/// `String::from_utf8` of std: the text that the bytes encode if they are UTF-8,
/// and otherwise the error, as the text that its `Display` writes. That this text
/// depends on the bytes alone is taken on trust; how it is worded is not stated.
#[verifier::external_body]
fn decoded(bytes: Vec<u8>) -> (r: Result<String, String>)
    ensures
        r is Ok <==> valid_utf8(bytes@),
        match r {
            Ok(s) => s@ == decode_utf8(bytes@),
            Err(words) => words@ == utf8_error_text(bytes@),
        },
{
    match String::from_utf8(bytes) {
        Ok(s) => Ok(s),
        Err(e) => Err(e.to_string()),
    }
}

/// The name of an object, in hexadecimal.
pub fn object_name(id: &ObjectId) -> (r: String)
    ensures
        r@ == hex_of(id@),
{
    oid_hex(id)
}

/// Two dots in a row.
pub open spec fn has_two_dots(s: Seq<char>) -> bool {
    exists|i: int| 0 <= i < s.len() - 1 && #[trigger] s[i] == '.' && s[i + 1] == '.'
}

/// Whether `revision` is written as a range.
pub fn is_range(revision: &str) -> (r: bool)
    ensures
        r == has_two_dots(revision@),
{
    let chars: Vec<char> = chars_of(revision);
    let mut i: usize = 1;
    while i < chars.len()
        invariant
            1 <= i,
            chars@ == revision@,
            forall|j: int|
                0 <= j < i - 1 && j < chars@.len() - 1 ==> !(#[trigger] chars@[j] == '.' && chars@[j
                    + 1] == '.'),
        decreases chars@.len() - i,
    {
        if chars[i - 1] == '.' && chars[i] == '.' {
            assert(revision@[i - 1] == '.' && revision@[i - 1 + 1] == '.');
            return true;
        }
        i = i + 1;
    }
    false
}

/// What git makes of a revision: the two sides of a range, with the bits of the
/// mode it was written in, or a commit.
#[derive(Debug)]
pub enum Parsed {
    Range { mode_bits: u32, from: Option<ObjectId>, to: Option<ObjectId> },
    Commit { id: ObjectId },
}

/// Where a walk starts, and the commit whose history it leaves out.
#[derive(Debug)]
pub struct WalkBounds {
    pub hide: Option<ObjectId>,
    pub push: ObjectId,
}

/// The bounds of the walk for `revision`, as `git rev-list` has them for one
/// commit or for a range with two dots.
pub fn walk_bounds(revision: &str, parsed: Parsed) -> (r: Result<WalkBounds, SearchError>)
    ensures
        match parsed {
            Parsed::Commit { id } => r == Ok::<WalkBounds, SearchError>(
                WalkBounds { hide: None, push: id },
            ),
            Parsed::Range { mode_bits, from, to } => if mode_bits & 4 == 4 {
                r matches Err(SearchError::ThreeDots { revision: text }) && text@ == revision@
            } else if from is None {
                r matches Err(SearchError::MissingLeft { revision: text }) && text@ == revision@
            } else if to is None {
                r matches Err(SearchError::MissingRight { revision: text }) && text@ == revision@
            } else {
                r == Ok::<WalkBounds, SearchError>(WalkBounds { hide: from, push: to->0 })
            },
        },
{
    match parsed {
        Parsed::Commit { id } => Ok(WalkBounds { hide: None, push: id }),
        Parsed::Range { mode_bits, from, to } => {
            if has_merge_base(mode_bits) {
                return Err(SearchError::ThreeDots { revision: revision.to_owned() });
            }
            match from {
                None => Err(SearchError::MissingLeft { revision: revision.to_owned() }),
                Some(left) => match to {
                    None => Err(SearchError::MissingRight { revision: revision.to_owned() }),
                    Some(right) => Ok(WalkBounds { hide: Some(left), push: right }),
                },
            }
        },
    }
}

/// The commits of a walk, oldest first; the walk gives them newest first.
pub fn commits_oldest_first(walk: &Vec<ObjectId>) -> (r: Vec<ObjectId>)
    ensures
        r@ == walk@.reverse(),
{
    let mut r: Vec<ObjectId> = Vec::new();
    let mut i: usize = walk.len();
    while i > 0
        invariant
            i <= walk@.len(),
            r@.len() == walk@.len() - i,
            forall|k: int| 0 <= k < r@.len() ==> #[trigger] r@[k] == walk@[walk@.len() - 1 - k],
        decreases i,
    {
        i = i - 1;
        r.push(walk[i]);
    }
    assert(r@ =~= walk@.reverse());
    r
}

/// The names of the commits of a walk, newest first as the walk gives them.
pub fn rev_list_newest_first(walk: &Vec<ObjectId>) -> (r: Vec<String>)
    ensures
        text_views(r@) == walk@.map_values(|id: ObjectId| hex_of(id@)),
{
    let mut r: Vec<String> = Vec::new();
    let mut i: usize = 0;
    while i < walk.len()
        invariant
            i <= walk@.len(),
            r@.len() == i,
            forall|k: int| 0 <= k < i ==> (#[trigger] r@[k])@ == hex_of(walk@[k]@),
        decreases walk@.len() - i,
    {
        let name: String = object_name(&walk[i]);
        r.push(name);
        i = i + 1;
    }
    assert(text_views(r@) =~= walk@.map_values(|id: ObjectId| hex_of(id@)));
    r
}

/// The message of a commit from its raw bytes, which have to be UTF-8.
pub fn commit_message_raw_utf8(message_bytes: Vec<u8>) -> (r: Result<String, SearchError>)
    ensures
        r is Ok <==> valid_utf8(message_bytes@),
        match r {
            Ok(message) => message@ == decode_utf8(message_bytes@),
            Err(e) => e matches SearchError::MessageNotUtf8 { cause } && cause@ == utf8_error_text(
                message_bytes@,
            ),
        },
{
    match decoded(message_bytes) {
        Ok(message) => Ok(message),
        Err(cause) => Err(SearchError::MessageNotUtf8 { cause }),
    }
}

/// The row that is indexed for a commit: its name and its message.
pub fn commit_row(id: &ObjectId, message_bytes: Vec<u8>) -> (r: Result<
    (String, String),
    SearchError,
>)
    ensures
        r is Ok <==> valid_utf8(message_bytes@),
        match r {
            Ok(row) => row.0@ == hex_of(id@) && row.1@ == decode_utf8(message_bytes@),
            Err(e) => e matches SearchError::MessageNotUtf8 { cause } && cause@ == utf8_error_text(
                message_bytes@,
            ),
        },
{
    match commit_message_raw_utf8(message_bytes) {
        Ok(message) => Ok((object_name(id), message)),
        Err(e) => Err(e),
    }
}

/// Every message is UTF-8.
pub open spec fn all_utf8(messages: Seq<Vec<u8>>) -> bool {
    forall|i: int| 0 <= i < messages.len() ==> valid_utf8((#[trigger] messages[i])@)
}

/// The first message that is not UTF-8 is the one at `i`.
pub open spec fn first_not_utf8(messages: Seq<Vec<u8>>, i: int) -> bool {
    &&& 0 <= i < messages.len()
    &&& !valid_utf8(messages[i]@)
    &&& forall|k: int| 0 <= k < i ==> valid_utf8((#[trigger] messages[k])@)
}

/// The rows that are indexed for the commits `ids`, from the raw bytes of their
/// messages, which end before the first commit that could not be read. The first
/// commit that has no row, because its message is not UTF-8 or could not be read,
/// refuses them all.
pub fn commit_rows(ids: &Vec<ObjectId>, messages: Vec<Vec<u8>>) -> (r: Result<
    Vec<(String, String)>,
    SearchError,
>)
    requires
        messages@.len() <= ids@.len(),
    ensures
        r is Ok <==> messages@.len() == ids@.len() && all_utf8(messages@),
        match r {
            Ok(rows) => rows@.len() == ids@.len() && forall|i: int|
                0 <= i < rows@.len() ==> (#[trigger] rows@[i]).0@ == hex_of(ids@[i]@)
                    && rows@[i].1@ == decode_utf8(messages@[i]@),
            Err(SearchError::MessageNotUtf8 { cause }) => exists|i: int| #[trigger]
                first_not_utf8(messages@, i) && cause@ == utf8_error_text(messages@[i]@),
            Err(SearchError::CommitNotFound { sha }) => all_utf8(messages@) && messages@.len()
                < ids@.len() && sha@ == hex_of(ids@[messages@.len() as int]@),
            Err(_) => false,
        },
{
    let read: usize = messages.len();
    let mut rest: Vec<Vec<u8>> = messages;
    let mut rows: Vec<(String, String)> = Vec::new();
    let mut i: usize = 0;
    while i < read
        invariant
            i <= read <= ids@.len(),
            messages@.len() == read,
            rest@.len() == read,
            forall|k: int| i <= k < read ==> #[trigger] rest@[k] == messages@[k],
            rows@.len() == i,
            forall|k: int| 0 <= k < i ==> valid_utf8((#[trigger] messages@[k])@),
            forall|k: int|
                0 <= k < i ==> (#[trigger] rows@[k]).0@ == hex_of(ids@[k]@) && rows@[k].1@
                    == decode_utf8(messages@[k]@),
        decreases read - i,
    {
        let mut message: Vec<u8> = Vec::new();
        std::mem::swap(&mut message, &mut rest[i]);
        match commit_row(&ids[i], message) {
            Ok(row) => {
                rows.push(row);
            },
            Err(e) => {
                assert(first_not_utf8(messages@, i as int));
                return Err(e);
            },
        }
        i = i + 1;
    }
    if read < ids.len() {
        return Err(SearchError::CommitNotFound { sha: object_name(&ids[read]) });
    }
    Ok(rows)
}

proof fn lemma_hex_digit(d: int)
    requires
        0 <= d < 16,
    ensures
        '0' <= hex_digit(d) <= '9' || 'a' <= hex_digit(d) <= 'f',
{
}

proof fn lemma_hex_digits_differ(a: int, b: int)
    requires
        0 <= a < 16,
        0 <= b < 16,
        hex_digit(a) == hex_digit(b),
    ensures
        a == b,
{
    assert(hex_digit(a) as int == (if a < 10 {
        48 + a
    } else {
        87 + a
    }));
    assert(hex_digit(b) as int == (if b < 10 {
        48 + b
    } else {
        87 + b
    }));
}

proof fn lemma_hex_of_byte(bytes: Seq<u8>, k: int)
    requires
        0 <= k < bytes.len(),
    ensures
        hex_of(bytes)[2 * k] == hex_digit(bytes[k] as int / 16),
        hex_of(bytes)[2 * k + 1] == hex_digit(bytes[k] as int % 16),
{
    let i = 2 * k;
    let j = 2 * k + 1;
    assert(i / 2 == k && i % 2 == 0);
    assert(j / 2 == k && j % 2 == 1);
    assert(hex_of(bytes)[i] == hex_digit(bytes[i / 2] as int / 16));
    assert(hex_of(bytes)[j] == hex_digit(bytes[j / 2] as int % 16));
}

/// The name of an object is forty digits in ASCII. It can be cut for display, has
/// no white space around it and no dot in it.
pub proof fn law_object_name(id: Seq<u8>)
    requires
        id.len() == 20,
    ensures
        hex_of(id).len() == 40,
        is_ascii_chars(hex_of(id)),
        shortenable(hex_of(id)),
        short_of(hex_of(id)) == hex_of(id).take(7),
        trimmed(hex_of(id)),
        !hex_of(id).contains('.'),
{
    let h = hex_of(id);
    assert forall|i: int| 0 <= i < h.len() implies ('0' <= #[trigger] h[i] <= '9' || 'a' <= h[i]
        <= 'f') by {
        let b = id[i / 2] as int;
        lemma_hex_digit(b / 16);
        lemma_hex_digit(b % 16);
    }
    law_short_sha_ascii(h);
    if h.contains('.') {
        let i = choose|i: int| 0 <= i < h.len() && h[i] == '.';
        assert('0' <= h[i] <= '9' || 'a' <= h[i] <= 'f');
    }
    assert('0' <= h[0] <= '9' || 'a' <= h[0] <= 'f');
    assert('0' <= h[39] <= '9' || 'a' <= h[39] <= 'f');
}

/// Different objects have different names.
pub proof fn law_names_tell_objects_apart(a: Seq<u8>, b: Seq<u8>)
    requires
        a.len() == 20,
        b.len() == 20,
        hex_of(a) == hex_of(b),
    ensures
        a == b,
{
    assert forall|k: int| 0 <= k < 20 implies a[k] == b[k] by {
        lemma_hex_of_byte(a, k);
        lemma_hex_of_byte(b, k);
        lemma_hex_digits_differ(a[k] as int / 16, b[k] as int / 16);
        lemma_hex_digits_differ(a[k] as int % 16, b[k] as int % 16);
    }
    assert(a =~= b);
}

/// A walk that gives each commit once gives each name once.
pub proof fn law_rev_list_names_once(walk: Seq<ObjectId>)
    requires
        forall|i: int, j: int|
            0 <= i < j < walk.len() ==> #[trigger] walk[i]@ != #[trigger] walk[j]@,
    ensures
        walk.map_values(|id: ObjectId| hex_of(id@)).no_duplicates(),
{
    let names = walk.map_values(|id: ObjectId| hex_of(id@));
    assert forall|i: int, j: int| 0 <= i < names.len() && 0 <= j < names.len() && i != j implies names[i]
        != names[j] by {
        if names[i] == names[j] {
            law_names_tell_objects_apart(walk[i]@, walk[j]@);
            if i < j {
                assert(walk[i]@ != walk[j]@);
            } else {
                assert(walk[j]@ != walk[i]@);
            }
        }
    }
}

/// What git's graph is like: each commit reaches itself, and what the commits reach
/// that it reaches.
pub open spec fn reaches_as_git(reach: spec_fn(ObjectId) -> Set<ObjectId>) -> bool {
    &&& forall|a: ObjectId| (#[trigger] reach(a)).contains(a)
    &&& forall|a: ObjectId, b: ObjectId| #[trigger]
        reach(a).contains(b) ==> reach(b).subset_of(reach(a))
}

/// What git's walk gives within `bounds`: each commit once that the start reaches
/// and the hidden one does not, and none before a commit that it is a parent of.
pub open spec fn walked_by_git(
    walk: Seq<ObjectId>,
    bounds: WalkBounds,
    reach: spec_fn(ObjectId) -> Set<ObjectId>,
    parent: spec_fn(ObjectId, ObjectId) -> bool,
) -> bool {
    &&& walk.no_duplicates()
    &&& forall|c: ObjectId| #[trigger]
        walk.contains(c) <==> reach(bounds.push).contains(c) && !(bounds.hide matches Some(hidden)
            && reach(hidden).contains(c))
    &&& forall|i: int, j: int|
        0 <= i < j < walk.len() ==> !parent(#[trigger] walk[i], #[trigger] walk[j])
}

/// The commits of the range from `from` to `to`, oldest first: each once, namely
/// those of `to` that are not among those of `from`, and parents before their
/// children. There are none just where `to` is `from` or an ancestor of it.
pub proof fn law_range_oldest_first(
    from: ObjectId,
    to: ObjectId,
    walk: Seq<ObjectId>,
    from_walk: Seq<ObjectId>,
    to_walk: Seq<ObjectId>,
    reach: spec_fn(ObjectId) -> Set<ObjectId>,
    parent: spec_fn(ObjectId, ObjectId) -> bool,
)
    requires
        reaches_as_git(reach),
        walked_by_git(walk, WalkBounds { hide: Some(from), push: to }, reach, parent),
        walked_by_git(from_walk, WalkBounds { hide: None, push: from }, reach, parent),
        walked_by_git(to_walk, WalkBounds { hide: None, push: to }, reach, parent),
    ensures
        walk.reverse().no_duplicates(),
        walk.reverse().to_set() == to_walk.reverse().to_set().difference(
            from_walk.reverse().to_set(),
        ),
        forall|i: int, j: int|
            0 <= i < j < walk.len() ==> !parent(
                #[trigger] walk.reverse()[j],
                #[trigger] walk.reverse()[i],
            ),
        walk.reverse().len() == 0 <==> reach(from).contains(to),
{
    lemma_reverse_contains(walk);
    lemma_reverse_contains(from_walk);
    lemma_reverse_contains(to_walk);
    assert(walk.reverse().to_set() =~= to_walk.reverse().to_set().difference(
        from_walk.reverse().to_set(),
    )) by {
        assert forall|c: ObjectId| walk.reverse().to_set().contains(c) <==> to_walk.reverse().to_set().contains(c)
            && !from_walk.reverse().to_set().contains(c) by {
            assert(walk.contains(c) <==> to_walk.contains(c) && !from_walk.contains(c));
        }
    }
    if reach(from).contains(to) {
        if walk.len() > 0 {
            assert(walk.contains(walk[0]));
        }
    } else {
        assert(reach(to).contains(to));
        assert(walk.contains(to));
    }
}

/// A sequence that is turned round holds what it held.
proof fn lemma_reverse_contains(walk: Seq<ObjectId>)
    ensures
        forall|c: ObjectId| #[trigger] walk.reverse().contains(c) <==> walk.contains(c),
{
    assert forall|c: ObjectId| #[trigger] walk.reverse().contains(c) <==> walk.contains(c) by {
        if walk.reverse().contains(c) {
            let i = choose|i: int| 0 <= i < walk.len() && walk.reverse()[i] == c;
            assert(walk[walk.len() - 1 - i] == c);
        }
        if walk.contains(c) {
            let i = choose|i: int| 0 <= i < walk.len() && walk[i] == c;
            assert(walk.reverse()[walk.len() - 1 - i] == c);
        }
    }
}

/// The value of a hexadecimal digit in lower case.
pub open spec fn digit_value(c: char) -> int {
    if '0' <= c <= '9' {
        c as int - 48
    } else {
        c as int - 87
    }
}

/// The name of an object reads back as the object: each byte is two digits of it, in
/// order, the upper one first.
pub proof fn law_name_reads_back(bytes: Seq<u8>, k: int)
    requires
        0 <= k < bytes.len(),
    ensures
        hex_of(bytes).len() == 2 * bytes.len(),
        16 * digit_value(hex_of(bytes)[2 * k]) + digit_value(hex_of(bytes)[2 * k + 1]) == bytes[k],
        '0' <= hex_of(bytes)[2 * k] <= '9' || 'a' <= hex_of(bytes)[2 * k] <= 'f',
        '0' <= hex_of(bytes)[2 * k + 1] <= '9' || 'a' <= hex_of(bytes)[2 * k + 1] <= 'f',
{
    lemma_hex_of_byte(bytes, k);
    let hi = bytes[k] as int / 16;
    let lo = bytes[k] as int % 16;
    lemma_hex_digit(hi);
    lemma_hex_digit(lo);
    assert(hex_digit(hi) as int == (if hi < 10 {
        48 + hi
    } else {
        87 + hi
    }));
    assert(hex_digit(lo) as int == (if lo < 10 {
        48 + lo
    } else {
        87 + lo
    }));
}

/// A revision is a range just where two dots stand in it side by side.
pub proof fn law_range_has_two_dots(s: Seq<char>, a: Seq<char>, b: Seq<char>)
    ensures
        has_two_dots(a + seq!['.', '.'] + b),
        (forall|i: int, j: int|
            0 <= i && j == i + 1 && j < s.len() ==> !(#[trigger] s[i] == '.' && #[trigger] s[j]
                == '.')) ==> !has_two_dots(s),
{
    let r = a + seq!['.', '.'] + b;
    let n = a.len() as int;
    assert(r[n] == '.' && r[n + 1] == '.');
}

/// One message that is not UTF-8 is enough, and the first such is reported.
pub proof fn law_which_messages_are_utf8(messages: Seq<Vec<u8>>, i: int)
    requires
        0 <= i < messages.len(),
    ensures
        !valid_utf8(messages[i]@) ==> !all_utf8(messages),
        (forall|k: int| 0 <= k < messages.len() ==> valid_utf8((#[trigger] messages[k])@))
            ==> all_utf8(messages),
        first_not_utf8(messages, i) <==> !valid_utf8(messages[i]@) && forall|k: int|
            0 <= k < i ==> valid_utf8((#[trigger] messages[k])@),
{
}

} // verus!
