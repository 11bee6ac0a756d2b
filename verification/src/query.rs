//! The query: what the user typed, and what the engine is asked.
use vstd::prelude::*;
use vstd::string::*;

use crate::error::SearchError;
use crate::index::INDEX_FIELD;
use crate::text::{chars_of, joined, trim, trim_of};

verus! {

/// The phrase to search for: what the user typed, without white space around it.
pub fn prepare_query(raw: &str) -> (r: Result<String, SearchError>)
    ensures
        r is Err <==> trim_of(raw@).len() == 0,
        match r {
            Ok(query) => query@ == trim_of(raw@),
            Err(e) => e is EmptyQuery,
        },
{
    let query: &str = trim(raw);
    if query.is_empty() {
        Err(SearchError::EmptyQuery)
    } else {
        Ok(query.to_owned())
    }
}

/// `s` with a space for each single quote.
pub open spec fn unquoted(s: Seq<char>) -> Seq<char> {
    s.map_values(
        |c: char|
            if c == '\'' {
                ' '
            } else {
                c
            },
    )
}

/// The engine's query for the phrase `s`: the phrase as text or by meaning.
pub open spec fn vql_of(s: Seq<char>) -> Seq<char> {
    "message:'"@ + unquoted(s) + "' | ~message:'"@ + unquoted(s) + "'"@
}

/// `s` with a space for each single quote.
fn without_quotes(s: &str) -> (r: String)
    ensures
        r@ == unquoted(s@),
{
    let chars: Vec<char> = chars_of(s);
    let mut r: String = String::new();
    let mut i: usize = 0;
    while i < chars.len()
        invariant
            i <= chars@.len(),
            chars@ == s@,
            r@ == unquoted(s@.take(i as int)),
        decreases chars@.len() - i,
    {
        let c: char = if chars[i] == '\'' {
            ' '
        } else {
            chars[i]
        };
        r.push(c);
        i = i + 1;
        assert(r@ =~= unquoted(s@.take(i as int)));
    }
    assert(s@.take(i as int) =~= s@);
    r
}

/// The engine's query language takes arbitrary text between single quotes. The
/// query asks for the phrase as text in `message`, or for its meaning there.
pub fn hybrid_message_vql(user_query: &str) -> (r: String)
    ensures
        r@ == vql_of(user_query@),
{
    let safe: String = without_quotes(user_query);
    joined("message:'", safe.as_str()).concat("' | ~message:'").concat(safe.as_str()).concat("'")
}

/// How many single quotes `s` holds.
pub open spec fn quotes(s: Seq<char>) -> nat {
    s.filter(|c: char| c == '\'').len()
}

proof fn lemma_no_quotes(s: Seq<char>)
    requires
        !s.contains('\''),
    ensures
        quotes(s) == 0,
{
    let f = s.filter(|c: char| c == '\'');
    s.lemma_filter_len(|c: char| c == '\'');
    if f.len() > 0 {
        s.lemma_filter_pred(|c: char| c == '\'', 0);
        s.lemma_filter_contains_rev(|c: char| c == '\'', f[0]);
    }
}

/// Whatever the user typed, the query holds the four quotes of its frame and no
/// other: the phrase cannot end its own literal. A phrase without quotes is asked
/// for as it stands, and both sides ask for the same phrase.
pub proof fn law_phrase_stays_quoted(s: Seq<char>)
    ensures
        quotes(vql_of(s)) == 4,
        !unquoted(s).contains('\''),
        unquoted(s).len() == s.len(),
        !s.contains('\'') ==> unquoted(s) == s,
{
    let u = unquoted(s);
    let q = |c: char| c == '\'';
    assert(!u.contains('\'')) by {
        if u.contains('\'') {
            let i = choose|i: int| 0 <= i < u.len() && u[i] == '\'';
            assert(u[i] != '\'');
        }
    }
    if !s.contains('\'') {
        assert forall|i: int| 0 <= i < s.len() implies u[i] == s[i] by {
            assert(s.contains(s[i]));
        }
        assert(u =~= s);
    }
    lemma_no_quotes(u);
    reveal_strlit("message:'");
    reveal_strlit("' | ~message:'");
    reveal_strlit("'");
    let a = "message:'"@;
    let b = "' | ~message:'"@;
    let c = "'"@;
    let word = "message:"@;
    reveal_strlit("message:");
    let mid = " | ~message:"@;
    reveal_strlit(" | ~message:");
    assert(a =~= word + c);
    assert(b =~= c + mid + c);
    lemma_no_quotes(word);
    lemma_no_quotes(mid);
    assert(c =~= seq!['\'']);
    assert(quotes(c) == 1) by {
        reveal_with_fuel(Seq::filter, 2);
        assert(c.drop_last() =~= Seq::<char>::empty());
    }
    Seq::filter_distributes_over_add(word, c, q);
    Seq::filter_distributes_over_add(c, mid, q);
    Seq::filter_distributes_over_add(c + mid, c, q);
    Seq::filter_distributes_over_add(a, u, q);
    Seq::filter_distributes_over_add(a + u, b, q);
    Seq::filter_distributes_over_add(a + u + b, u, q);
    Seq::filter_distributes_over_add(a + u + b + u, c, q);
}

/// The query is two literals in single quotes, each led by its operator and the
/// field that messages are indexed in. Each literal holds the phrase, character for
/// character, but for a space where the phrase has a single quote; and the query has
/// no other quotes.
pub proof fn law_query_holds_the_phrase(s: Seq<char>)
    ensures
        ({
            let q = vql_of(s);
            let n = s.len() as int;
            &&& q.len() == 2 * n + 24
            &&& q.take(8) == seq!['m', 'e', 's', 's', 'a', 'g', 'e', ':']
            &&& q.take(8) == INDEX_FIELD@.push(':')
            &&& q.subrange(n + 10, n + 22) == seq![' ', '|', ' ', '~'] + q.take(8)
            &&& forall|i: int|
                0 <= i < q.len() ==> (#[trigger] q[i] == '\'' <==> i == 8 || i == n + 9 || i == n
                    + 22 || i == 2 * n + 23)
            &&& forall|i: int|
                0 <= i < n ==> q[9 + i] == (if #[trigger] s[i] == '\'' {
                    ' '
                } else {
                    s[i]
                })
            &&& q.subrange(n + 23, 2 * n + 23) == q.subrange(9, n + 9)
        }),
{
    reveal_strlit("message:'");
    reveal_strlit("' | ~message:'");
    reveal_strlit("'");
    reveal_strlit("message");
    let q = vql_of(s);
    let u = unquoted(s);
    let n = s.len() as int;
    assert(q.len() == 2 * n + 24);
    assert forall|i: int| 0 <= i < n implies q[9 + i] == u[i] && q[n + 23 + i] == u[i] by {}
    assert(q.subrange(n + 23, 2 * n + 23) =~= u);
    assert(q.subrange(9, n + 9) =~= u);
    assert forall|i: int| 0 <= i < q.len() implies (#[trigger] q[i] == '\'' <==> i == 8 || i == n
        + 9 || i == n + 22 || i == 2 * n + 23) by {
        if 9 <= i < n + 9 {
            assert(q[i] == u[i - 9]);
        } else if n + 23 <= i < 2 * n + 23 {
            assert(q[i] == u[i - n - 23]);
        }
    }
}

/// Two phrases without quotes that differ are asked for by queries that differ.
pub proof fn law_query_tells_phrases_apart(a: Seq<char>, b: Seq<char>)
    requires
        !a.contains('\''),
        !b.contains('\''),
        vql_of(a) == vql_of(b),
    ensures
        a == b,
{
    law_query_holds_the_phrase(a);
    law_query_holds_the_phrase(b);
    assert(a.len() == b.len());
    assert forall|i: int| 0 <= i < a.len() implies a[i] == b[i] by {
        assert(a.contains(a[i]));
        assert(b.contains(b[i]));
        assert(vql_of(a)[9 + i] == a[i]);
        assert(vql_of(b)[9 + i] == b[i]);
    }
    assert(a =~= b);
}

} // verus!
