//! Text: white space, lines, decimal numbers, short object names.
use vstd::prelude::*;
use vstd::string::*;
use vstd::utf8::*;

verus! {

/// `String::push` of std: appends the character to the end of the string.
pub assume_specification[ String::push ](s: &mut String, c: char)
    ensures
        final(s)@ == old(s)@.push(c),
;

/// The characters with the Unicode property `White_Space`.
pub open spec fn white_space(c: char) -> bool {
    ||| '\u{9}' <= c <= '\u{D}'
    ||| c == ' '
    ||| c == '\u{85}'
    ||| c == '\u{A0}'
    ||| c == '\u{1680}'
    ||| '\u{2000}' <= c <= '\u{200A}'
    ||| c == '\u{2028}'
    ||| c == '\u{2029}'
    ||| c == '\u{202F}'
    ||| c == '\u{205F}'
    ||| c == '\u{3000}'
}

/// `s` without the white space it begins with.
pub open spec fn trim_start_of(s: Seq<char>) -> Seq<char>
    decreases s.len(),
{
    if s.len() > 0 && white_space(s[0]) {
        trim_start_of(s.drop_first())
    } else {
        s
    }
}

/// `s` without the white space it ends with.
pub open spec fn trim_end_of(s: Seq<char>) -> Seq<char>
    decreases s.len(),
{
    if s.len() > 0 && white_space(s.last()) {
        trim_end_of(s.drop_last())
    } else {
        s
    }
}

/// `s` without the white space at either end.
pub open spec fn trim_of(s: Seq<char>) -> Seq<char> {
    trim_end_of(trim_start_of(s))
}

/// No white space at either end.
pub open spec fn trimmed(s: Seq<char>) -> bool {
    s.len() > 0 ==> !white_space(s[0]) && !white_space(s.last())
}

/// Whether `c` is white space.
pub fn is_white_space(c: char) -> (r: bool)
    ensures
        r == white_space(c),
{
    ('\u{9}' <= c && c <= '\u{D}') || c == ' ' || c == '\u{85}' || c == '\u{A0}' || c == '\u{1680}'
        || ('\u{2000}' <= c && c <= '\u{200A}') || c == '\u{2028}' || c == '\u{2029}' || c
        == '\u{202F}' || c == '\u{205F}' || c == '\u{3000}'
}

/// The characters of `s`, in order.
pub fn chars_of(s: &str) -> (v: Vec<char>)
    ensures
        v@ == s@,
{
    let mut v: Vec<char> = Vec::new();
    for c in it: s.chars()
        invariant
            it.seq() == s@,
            v@ == s@.take(it.index() as int),
    {
        v.push(c);
    }
    assert(s@.take(s@.len() as int) =~= s@);
    v
}

/// The string made of `chars[from..to]`.
pub fn string_of(chars: &Vec<char>, from: usize, to: usize) -> (r: String)
    requires
        from <= to <= chars@.len(),
    ensures
        r@ == chars@.subrange(from as int, to as int),
{
    let mut r: String = String::new();
    let mut i: usize = from;
    while i < to
        invariant
            from <= i <= to <= chars@.len(),
            r@ == chars@.subrange(from as int, i as int),
        decreases to - i,
    {
        r.push(chars[i]);
        i = i + 1;
    }
    r
}

/// Whether the two texts are the same.
pub fn same_text(a: &str, b: &str) -> (r: bool)
    ensures
        r == (a@ == b@),
{
    a.to_owned() == b.to_owned()
}

/// `a` followed by `b`.
pub fn joined(a: &str, b: &str) -> (r: String)
    ensures
        r@ == a@ + b@,
{
    a.to_owned().concat(b)
}

proof fn lemma_trim_start_from(s: Seq<char>, i: int)
    requires
        0 <= i <= s.len(),
        forall|k: int| 0 <= k < i ==> white_space(#[trigger] s[k]),
    ensures
        trim_start_of(s) == trim_start_of(s.subrange(i, s.len() as int)),
    decreases i,
{
    if i == 0 {
        assert(s.subrange(0, s.len() as int) =~= s);
    } else {
        let t = s.drop_first();
        assert forall|k: int| 0 <= k < i - 1 implies white_space(#[trigger] t[k]) by {
            assert(t[k] == s[k + 1]);
        }
        lemma_trim_start_from(t, i - 1);
        assert(t.subrange(i - 1, t.len() as int) =~= s.subrange(i, s.len() as int));
        assert(white_space(s[0]));
    }
}

proof fn lemma_trim_end_to(s: Seq<char>, i: int)
    requires
        0 <= i <= s.len(),
        forall|k: int| i <= k < s.len() ==> white_space(#[trigger] s[k]),
    ensures
        trim_end_of(s) == trim_end_of(s.take(i)),
    decreases s.len() - i,
{
    if i == s.len() {
        assert(s.take(i) =~= s);
    } else {
        let t = s.drop_last();
        assert forall|k: int| i <= k < t.len() implies white_space(#[trigger] t[k]) by {
            assert(t[k] == s[k]);
        }
        lemma_trim_end_to(t, i);
        assert(t.take(i) =~= s.take(i));
        assert(white_space(s[s.len() - 1]));
    }
}

/// The length of `chars[from..to]` once trailing white space is dropped, as an index.
fn trimmed_end(chars: &Vec<char>, from: usize, to: usize) -> (r: usize)
    requires
        from <= to <= chars@.len(),
    ensures
        from <= r <= to,
        chars@.subrange(from as int, r as int) == trim_end_of(
            chars@.subrange(from as int, to as int),
        ),
{
    let mut e: usize = to;
    let ghost s = chars@.subrange(from as int, to as int);
    while e > from && is_white_space(chars[e - 1])
        invariant
            from <= e <= to <= chars@.len(),
            s == chars@.subrange(from as int, to as int),
            forall|k: int| e - from <= k < s.len() ==> white_space(#[trigger] s[k]),
        decreases e,
    {
        e = e - 1;
    }
    proof {
        lemma_trim_end_to(s, e - from);
        assert(s.take(e - from) =~= chars@.subrange(from as int, e as int));
        let t = s.take(e - from);
        if t.len() > 0 {
            assert(t.last() == chars@[e - 1]);
        }
    }
    e
}

/// `s` without white space at its ends.
pub fn trim<'a>(s: &'a str) -> (r: &'a str)
    ensures
        r@ == trim_of(s@),
{
    let chars: Vec<char> = chars_of(s);
    let mut from: usize = 0;
    while from < chars.len() && is_white_space(chars[from])
        invariant
            from <= chars@.len(),
            forall|k: int| 0 <= k < from ==> white_space(#[trigger] chars@[k]),
        decreases chars@.len() - from,
    {
        from = from + 1;
    }
    proof {
        lemma_trim_start_from(chars@, from as int);
        let t = chars@.subrange(from as int, chars@.len() as int);
        if t.len() > 0 {
            assert(t[0] == chars@[from as int]);
        }
        assert(trim_start_of(chars@) == t);
    }
    let to: usize = trimmed_end(&chars, from, chars.len());
    s.substring_char(from, to)
}

/// The position of the first line feed in `s`, or the length of `s`.
pub open spec fn line_end(s: Seq<char>) -> nat
    decreases s.len(),
{
    if s.len() == 0 || s[0] == '\n' {
        0
    } else {
        1 + line_end(s.drop_first())
    }
}

/// `s` without one carriage return at its end.
pub open spec fn strip_return(s: Seq<char>) -> Seq<char> {
    if s.len() > 0 && s.last() == '\r' {
        s.drop_last()
    } else {
        s
    }
}

/// The lines of `s`: a line ends at a line feed, which a carriage return may
/// precede; the last line needs no ending.
pub open spec fn lines_of(s: Seq<char>) -> Seq<Seq<char>>
    decreases s.len(),
{
    if s.len() == 0 {
        Seq::empty()
    } else if line_end(s) >= s.len() {
        seq![s]
    } else {
        seq![strip_return(s.take(line_end(s) as int))] + lines_of(
            s.skip(line_end(s) as int + 1),
        )
    }
}

/// The line end is the first line feed, and there is none past the end.
pub proof fn lemma_line_end(s: Seq<char>)
    ensures
        line_end(s) <= s.len(),
        line_end(s) < s.len() ==> s[line_end(s) as int] == '\n',
        forall|k: int| 0 <= k < line_end(s) ==> #[trigger] s[k] != '\n',
    decreases s.len(),
{
    if s.len() == 0 || s[0] == '\n' {
    } else {
        let t = s.drop_first();
        lemma_line_end(t);
        assert forall|k: int| 0 <= k < line_end(s) implies #[trigger] s[k] != '\n' by {
            if k > 0 {
                assert(s[k] == t[k - 1]);
            }
        }
        if line_end(s) < s.len() {
            assert(s[line_end(s) as int] == t[line_end(t) as int]);
        }
    }
}

proof fn lemma_line_end_is(s: Seq<char>, k: int)
    requires
        0 <= k <= s.len(),
        forall|j: int| 0 <= j < k ==> #[trigger] s[j] != '\n',
        k < s.len() ==> s[k] == '\n',
    ensures
        line_end(s) == k,
{
    lemma_line_end(s);
    if line_end(s) < k {
        assert(s[line_end(s) as int] != '\n');
    } else if k < line_end(s) {
        assert(s[k] != '\n');
    }
}

/// The first line of `s` without the white space it ends with; empty if `s` has no line.
pub open spec fn first_line_of(s: Seq<char>) -> Seq<char> {
    if lines_of(s).len() == 0 {
        Seq::empty()
    } else {
        trim_end_of(lines_of(s)[0])
    }
}

/// The first line of a commit message, without trailing white space.
pub fn first_line<'a>(message: &'a str) -> (r: &'a str)
    ensures
        r@ == first_line_of(message@),
{
    let chars: Vec<char> = chars_of(message);
    let mut k: usize = 0;
    while k < chars.len() && chars[k] != '\n'
        invariant
            k <= chars@.len(),
            forall|j: int| 0 <= j < k ==> #[trigger] chars@[j] != '\n',
        decreases chars@.len() - k,
    {
        k = k + 1;
    }
    let to: usize = trimmed_end(&chars, 0, k);
    proof {
        let s = message@;
        lemma_line_end_is(s, k as int);
        let head = s.take(k as int);
        assert(s.subrange(0, k as int) =~= head);
        if s.len() == 0 {
            assert(head =~= Seq::<char>::empty());
        } else if k == s.len() {
            assert(head =~= s);
            assert(lines_of(s)[0] == s);
        } else {
            assert(lines_of(s)[0] == strip_return(head));
            if head.len() > 0 && head.last() == '\r' {
                assert(white_space('\r'));
                assert(trim_end_of(head) == trim_end_of(head.drop_last()));
            }
        }
    }
    message.substring_char(0, to)
}

/// The lines of `text`.
pub fn split_lines(text: &str) -> (r: Vec<String>)
    ensures
        text_views(r@) == lines_of(text@),
{
    let chars: Vec<char> = chars_of(text);
    let mut out: Vec<String> = Vec::new();
    let mut i: usize = 0;
    assert(chars@.skip(0) =~= text@);
    assert(text_views(out@) + lines_of(text@) =~= lines_of(text@));
    while i < chars.len()
        invariant
            i <= chars@.len(),
            chars@ == text@,
            text_views(out@) + lines_of(text@.skip(i as int)) == lines_of(text@),
        decreases chars@.len() - i,
    {
        let ghost rest = text@.skip(i as int);
        let ghost before = text_views(out@);
        let mut k: usize = i;
        while k < chars.len() && chars[k] != '\n'
            invariant
                i <= k <= chars@.len(),
                chars@ == text@,
                rest == text@.skip(i as int),
                forall|j: int| 0 <= j < k - i ==> #[trigger] rest[j] != '\n',
            decreases chars@.len() - k,
        {
            k = k + 1;
        }
        proof {
            lemma_line_end_is(rest, k - i);
        }
        if k == chars.len() {
            let line: String = string_of(&chars, i, k);
            out.push(line);
            proof {
                assert(line@ =~= rest);
                assert(text_views(out@) =~= before + seq![rest]);
                assert(text@.skip(k as int) =~= Seq::<char>::empty());
                assert(text_views(out@) + lines_of(text@.skip(k as int)) =~= before + lines_of(rest));
            }
            i = k;
        } else {
            let e: usize = if k > i && chars[k - 1] == '\r' {
                k - 1
            } else {
                k
            };
            let line: String = string_of(&chars, i, e);
            out.push(line);
            proof {
                let head = rest.take(k - i);
                if k > i {
                    assert(head.last() == chars@[k - 1]);
                }
                assert(line@ =~= strip_return(head));
                assert(text_views(out@) =~= before + seq![line@]);
                assert(rest.skip(k - i + 1) =~= text@.skip(k + 1));
                assert(lines_of(rest) == seq![line@] + lines_of(text@.skip(k + 1)));
                assert(text_views(out@) + lines_of(text@.skip(k + 1)) =~= before + lines_of(rest));
            }
            i = k + 1;
        }
    }
    proof {
        assert(text@.skip(i as int) =~= Seq::<char>::empty());
        assert(text_views(out@) + lines_of(text@.skip(i as int)) =~= text_views(out@));
    }
    out
}

/// The texts that the strings hold.
pub open spec fn text_views(v: Seq<String>) -> Seq<Seq<char>> {
    v.map_values(|s: String| s@)
}

/// The decimal digit `d`.
pub open spec fn digit(d: int) -> char {
    (('0' as int) + d) as char
}

/// `n` written in decimal.
pub open spec fn decimal_of(n: nat) -> Seq<char>
    decreases n,
{
    if n < 10 {
        seq![digit(n as int)]
    } else {
        decimal_of(n / 10).push(digit((n % 10) as int))
    }
}

/// `n` written in decimal.
pub fn decimal(n: usize) -> (r: String)
    ensures
        r@ == decimal_of(n as nat),
    decreases n,
{
    let c: char = (('0' as u8) + (n % 10) as u8) as char;
    let mut r: String = if n < 10 {
        String::new()
    } else {
        decimal(n / 10)
    };
    r.push(c);
    r
}

/// The text can be cut after seven bytes: it is no longer, or the cut falls between characters.
pub open spec fn shortenable(full: Seq<char>) -> bool {
    encode_utf8(full).len() <= 7 || is_char_boundary(encode_utf8(full), 7)
}

/// The first seven bytes of `full`, as text; all of it where it is no longer.
pub open spec fn short_of(full: Seq<char>) -> Seq<char> {
    if encode_utf8(full).len() <= 7 {
        full
    } else {
        decode_utf8(encode_utf8(full).take(7))
    }
}

/// Whether [`short_sha`] can cut `full`.
pub fn can_shorten(full: &str) -> (r: bool)
    ensures
        r == shortenable(full@),
{
    full.as_bytes().len() <= 7 || full.is_char_boundary(7)
}

/// The abbreviated form of an object name: its first seven bytes.
pub fn short_sha<'a>(full: &'a str) -> (r: &'a str)
    requires
        shortenable(full@),
    ensures
        r@ == short_of(full@),
{
    if full.as_bytes().len() <= 7 {
        full
    } else {
        let (head, tail) = full.split_at(7);
        proof {
            let b = encode_utf8(full@);
            assert(encode_utf8(head@) == b.subrange(0, 7));
            assert(b.subrange(0, 7) =~= b.take(7));
            encode_utf8_decode_utf8(head@);
        }
        head
    }
}

/// An object name in ASCII is cut after seven characters.
pub proof fn law_short_sha_ascii(full: Seq<char>)
    requires
        is_ascii_chars(full),
    ensures
        shortenable(full),
        short_of(full) == (if full.len() <= 7 {
            full
        } else {
            full.take(7)
        }),
{
    is_ascii_chars_encode_utf8(full);
    let b = encode_utf8(full);
    encode_utf8_valid_utf8(full);
    if full.len() > 7 {
        is_char_boundary_iff_not_is_continuation_byte(b, 7);
        assert('\0' <= full[7] <= '\u{7f}');
        assert(full[7] as u8 == b[7]);
        assert(!is_continuation_byte(b[7]));
        let head = full.take(7);
        assert forall|i: int| 0 <= i < head.len() implies '\0' <= #[trigger] head[i] <= '\u{7f}' by {
            assert(head[i] == full[i]);
        }
        is_ascii_chars_encode_utf8(head);
        assert(encode_utf8(head) =~= b.take(7)) by {
            assert forall|i: int| 0 <= i < 7 implies encode_utf8(head)[i] == b.take(7)[i] by {
                assert(head[i] as u8 == encode_utf8(head)[i]);
                assert(full[i] as u8 == b[i]);
            }
        }
        encode_utf8_decode_utf8(head);
    }
}

/// What is trimmed has no white space at its ends, and trimming it again changes
/// nothing.
pub proof fn law_trim(s: Seq<char>)
    ensures
        trimmed(trim_of(s)),
        trim_of(trim_of(s)) == trim_of(s),
{
    let t = trim_start_of(s);
    lemma_trim_start(s);
    lemma_trim_end(t);
    let r = trim_of(s);
    if r.len() > 0 {
        assert(r[0] == t[0]);
    }
}

proof fn lemma_trim_start(s: Seq<char>)
    ensures
        trim_start_of(s).len() > 0 ==> !white_space(trim_start_of(s)[0]),
    decreases s.len(),
{
    if s.len() > 0 && white_space(s[0]) {
        lemma_trim_start(s.drop_first());
    }
}

proof fn lemma_trim_end(s: Seq<char>)
    ensures
        trim_end_of(s).len() <= s.len(),
        trim_end_of(s) == s.take(trim_end_of(s).len() as int),
        trim_end_of(s).len() > 0 ==> !white_space(trim_end_of(s).last()),
    decreases s.len(),
{
    if s.len() > 0 && white_space(s.last()) {
        lemma_trim_end(s.drop_last());
        assert(s.drop_last().take(trim_end_of(s).len() as int) =~= s.take(
            trim_end_of(s).len() as int,
        ));
    } else {
        assert(s.take(s.len() as int) =~= s);
    }
}

/// The first line is a beginning of the text, without a line feed, and without
/// white space at its end.
pub proof fn law_first_line(s: Seq<char>)
    ensures
        first_line_of(s).is_prefix_of(s),
        !first_line_of(s).contains('\n'),
        first_line_of(s).len() > 0 ==> !white_space(first_line_of(s).last()),
{
    lemma_line_end(s);
    let f = first_line_of(s);
    if s.len() > 0 {
        let e = line_end(s) as int;
        let line = lines_of(s)[0];
        if e >= s.len() {
            assert(line == s);
        } else {
            assert(line == strip_return(s.take(e)));
        }
        assert(line =~= s.take(line.len() as int));
        assert(line.len() <= e);
        lemma_trim_end(line);
        assert(f =~= s.take(f.len() as int));
        assert(!f.contains('\n')) by {
            if f.contains('\n') {
                let i = choose|i: int| 0 <= i < f.len() && f[i] == '\n';
                assert(s[i] == '\n');
            }
        }
    }
}

/// No line holds a line feed.
pub proof fn law_lines_hold_no_line_feed(s: Seq<char>)
    ensures
        forall|i: int| 0 <= i < lines_of(s).len() ==> !(#[trigger] lines_of(s)[i]).contains('\n'),
    decreases s.len(),
{
    lemma_line_end(s);
    if s.len() > 0 {
        let e = line_end(s) as int;
        if e >= s.len() {
            assert(lines_of(s) =~= seq![s]);
            if s.contains('\n') {
                let i = choose|i: int| 0 <= i < s.len() && s[i] == '\n';
                assert(s[i] != '\n');
            }
        } else {
            let rest = s.skip(e + 1);
            law_lines_hold_no_line_feed(rest);
            let head = strip_return(s.take(e));
            if head.contains('\n') {
                let i = choose|i: int| 0 <= i < head.len() && head[i] == '\n';
                assert(s[i] == '\n');
            }
            assert forall|i: int| 0 <= i < lines_of(s).len() implies !(
            #[trigger] lines_of(s)[i]).contains('\n') by {
                if i > 0 {
                    assert(lines_of(s)[i] == lines_of(rest)[i - 1]);
                }
            }
        }
    }
}

/// The short name is a beginning of the full one.
pub proof fn law_short_is_prefix(full: Seq<char>)
    requires
        shortenable(full),
    ensures
        short_of(full).is_prefix_of(full),
{
    let b = encode_utf8(full);
    if b.len() > 7 {
        encode_utf8_valid_utf8(full);
        encode_utf8_decode_utf8(full);
        decode_utf8_split(b, 7);
        assert(b.subrange(0, 7) =~= b.take(7));
        let rest = decode_utf8(b.subrange(7, b.len() as int));
        assert(full =~= short_of(full) + rest);
    }
}

/// White space, by code point: the controls from tab to carriage return, the space,
/// the next line, and the spaces and separators of the wider planes.
pub proof fn law_white_space(c: char)
    ensures
        white_space(c) <==> {
            let n = c as int;
            ||| 9 <= n <= 13
            ||| n == 32
            ||| n == 133
            ||| n == 160
            ||| n == 5760
            ||| 8192 <= n <= 8202
            ||| n == 8232
            ||| n == 8233
            ||| n == 8239
            ||| n == 8287
            ||| n == 12288
        },
{
}

/// Trimming takes off the white space on both sides and nothing else.
pub proof fn law_trim_takes_white_space_off(a: Seq<char>, x: Seq<char>, b: Seq<char>)
    requires
        forall|i: int| 0 <= i < a.len() ==> white_space(#[trigger] a[i]),
        forall|i: int| 0 <= i < b.len() ==> white_space(#[trigger] b[i]),
        x.len() > 0 ==> !white_space(x[0]) && !white_space(x[x.len() - 1]),
    ensures
        trim_of(a + x + b) == x,
        trim_end_of(x + b) == x,
        trim_start_of(a + x) == x,
{
    let s = a + x + b;
    let t = x + b;
    assert forall|k: int| 0 <= k < a.len() implies white_space(#[trigger] s[k]) by {
        assert(s[k] == a[k]);
    }
    lemma_trim_start_from(s, a.len() as int);
    assert(s.subrange(a.len() as int, s.len() as int) =~= t);
    assert forall|k: int| x.len() <= k < t.len() implies white_space(#[trigger] t[k]) by {
        assert(t[k] == b[k - x.len()]);
    }
    lemma_trim_end_to(t, x.len() as int);
    assert(t.take(x.len() as int) =~= x);
    assert(trim_end_of(x) == x);
    if x.len() > 0 {
        assert(t[0] == x[0]);
        assert(trim_start_of(t) == t);
    } else {
        assert(t =~= b);
        lemma_trim_start_from(b, b.len() as int);
        assert(b.subrange(b.len() as int, b.len() as int) =~= x);
        assert(trim_start_of(t) == x);
    }
    let u = a + x;
    assert forall|k: int| 0 <= k < a.len() implies white_space(#[trigger] u[k]) by {
        assert(u[k] == a[k]);
    }
    lemma_trim_start_from(u, a.len() as int);
    assert(u.subrange(a.len() as int, u.len() as int) =~= x);
}

/// Lines and their endings: a text is its first line, up to a line feed or to a
/// carriage return with one, followed by the lines of what comes after. Without a
/// line feed the text is its only line, and no text has no line.
pub proof fn law_lines(head: Seq<char>, rest: Seq<char>)
    requires
        forall|i: int| 0 <= i < head.len() ==> #[trigger] head[i] != '\n',
    ensures
        head.len() == 0 || head[head.len() - 1] != '\r' ==> lines_of(head + seq!['\n'] + rest)
            == seq![head] + lines_of(rest),
        lines_of(head + seq!['\r', '\n'] + rest) == seq![head] + lines_of(rest),
        head.len() > 0 ==> lines_of(head) == seq![head],
        lines_of(Seq::<char>::empty()) == Seq::<Seq<char>>::empty(),
{
    let n = head.len() as int;
    let s = head + seq!['\n'] + rest;
    assert forall|j: int| 0 <= j < n implies #[trigger] s[j] != '\n' by {
        assert(s[j] == head[j]);
    }
    assert(s[n] == '\n');
    lemma_line_end_is(s, n);
    assert(s.take(n) =~= head);
    assert(s.skip(n + 1) =~= rest);
    let r = head + seq!['\r', '\n'] + rest;
    assert forall|j: int| 0 <= j < n + 1 implies #[trigger] r[j] != '\n' by {
        if j < n {
            assert(r[j] == head[j]);
        }
    }
    assert(r[n + 1] == '\n');
    lemma_line_end_is(r, n + 1);
    assert(r.take(n + 1) =~= head.push('\r'));
    assert(r.take(n + 1).drop_last() =~= head);
    assert(r.skip(n + 2) =~= rest);
    if n > 0 {
        lemma_line_end_is(head, n);
    }
}

/// The subject of a message is what stands before its first line feed, less the
/// white space at the end of that.
pub proof fn law_first_line_is_the_subject(x: Seq<char>, w: Seq<char>, rest: Seq<char>)
    requires
        forall|i: int| 0 <= i < x.len() ==> #[trigger] x[i] != '\n',
        x.len() > 0 ==> !white_space(x[x.len() - 1]),
        forall|i: int| 0 <= i < w.len() ==> white_space(#[trigger] w[i]) && w[i] != '\n',
    ensures
        first_line_of(x + w) == x,
        first_line_of(x + w + seq!['\n'] + rest) == x,
{
    let head = x + w;
    let n = head.len() as int;
    assert forall|i: int| 0 <= i < n implies #[trigger] head[i] != '\n' by {
        if i < x.len() {
            assert(head[i] == x[i]);
        } else {
            assert(head[i] == w[i - x.len()]);
        }
    }
    assert forall|k: int| x.len() <= k < n implies white_space(#[trigger] head[k]) by {
        assert(head[k] == w[k - x.len()]);
    }
    lemma_trim_end_to(head, x.len() as int);
    assert(head.take(x.len() as int) =~= x);
    assert(trim_end_of(x) == x);
    law_lines(head, rest);
    let s = head + seq!['\n'] + rest;
    if n == 0 {
        assert(head =~= Seq::<char>::empty());
        assert(x =~= Seq::<char>::empty());
    } else {
        assert(lines_of(head)[0] == head);
    }
    if n > 0 && head[n - 1] == '\r' {
        let less = head.drop_last();
        assert forall|i: int| 0 <= i < less.len() implies #[trigger] less[i] != '\n' by {
            assert(less[i] == head[i]);
        }
        law_lines(less, rest);
        assert(s =~= less + seq!['\r', '\n'] + rest);
        assert(lines_of(s)[0] == less);
        assert(white_space('\r'));
        assert(trim_end_of(head) == trim_end_of(less));
    } else {
        assert(lines_of(s)[0] == head);
    }
}

/// The number that decimal digits stand for.
pub open spec fn number_of(digits: Seq<char>) -> int
    decreases digits.len(),
{
    if digits.len() == 0 {
        0
    } else {
        10 * number_of(digits.drop_last()) + (digits.last() as int - 48)
    }
}

/// A number in decimal is digits only, without a leading zero, and they stand for it.
pub proof fn law_decimal_reads_back(n: nat)
    ensures
        decimal_of(n).len() > 0,
        number_of(decimal_of(n)) == n,
        forall|i: int|
            0 <= i < decimal_of(n).len() ==> 48 <= (#[trigger] decimal_of(n)[i]) as int <= 57,
        decimal_of(n).len() > 1 ==> decimal_of(n)[0] as int != 48,
    decreases n,
{
    let d = decimal_of(n);
    reveal_with_fuel(number_of, 2);
    if n < 10 {
        assert(d.drop_last() =~= Seq::<char>::empty());
    } else {
        law_decimal_reads_back(n / 10);
        let e = decimal_of(n / 10);
        assert(d.drop_last() =~= e);
        assert(d.last() as int == 48 + n % 10);
        assert(d[0] == e[0]);
        if e.len() == 1 {
            assert(number_of(e) == e[0] as int - 48) by {
                assert(e.drop_last() =~= Seq::<char>::empty());
                assert(e.last() == e[0]);
            }
        }
        assert forall|i: int| 0 <= i < d.len() implies 48 <= (#[trigger] d[i]) as int <= 57 by {
            if i < e.len() {
                assert(d[i] == e[i]);
            }
        }
    }
}

proof fn lemma_beginning_is_encoded_first(full: Seq<char>, k: int)
    requires
        0 <= k <= full.len(),
    ensures
        encode_utf8(full.take(k)).len() <= encode_utf8(full).len(),
        encode_utf8(full).take(encode_utf8(full.take(k)).len() as int) == encode_utf8(full.take(k)),
        is_char_boundary(encode_utf8(full), encode_utf8(full.take(k)).len() as int),
    decreases k,
{
    let b = encode_utf8(full);
    encode_utf8_valid_utf8(full);
    let head = full.take(k);
    if k == 0 {
        assert(encode_utf8(head) =~= b.take(0));
    } else {
        let rest = full.drop_first();
        lemma_beginning_is_encoded_first(rest, k - 1);
        assert(head.drop_first() =~= rest.take(k - 1));
        assert(head[0] == full[0]);
        encode_utf8_first_scalar(full);
        let n = encode_scalar(full[0] as u32).len() as int;
        assert(pop_first_scalar(b) =~= encode_utf8(rest));
        assert(b.take(encode_utf8(head).len() as int) =~= encode_utf8(head)) by {
            let r = encode_utf8(rest.take(k - 1));
            assert(encode_utf8(rest).take(r.len() as int) == r);
            assert forall|i: int| 0 <= i < encode_utf8(head).len() implies b[i] == encode_utf8(
                head,
            )[i] by {
                if i >= n {
                    assert(b[i] == encode_utf8(rest)[i - n]);
                    assert(encode_utf8(rest).take(r.len() as int)[i - n] == r[i - n]);
                }
            }
        }
    }
}

/// A short name is the full one up to seven bytes: all of it where it has no more,
/// and otherwise as many characters as make seven bytes. It is there just where some
/// characters do.
pub proof fn law_short_name_has_seven_bytes(full: Seq<char>)
    ensures
        encode_utf8(full).len() <= 7 ==> shortenable(full) && short_of(full) == full,
        forall|k: int|
            0 <= k <= full.len() && encode_utf8(#[trigger] full.take(k)).len() == 7 ==> shortenable(
                full,
            ) && short_of(full) == full.take(k),
        shortenable(full) && encode_utf8(full).len() > 7 ==> encode_utf8(short_of(full)).len() == 7
            && short_of(full).is_prefix_of(full),
{
    let b = encode_utf8(full);
    encode_utf8_valid_utf8(full);
    assert forall|k: int|
        0 <= k <= full.len() && encode_utf8(#[trigger] full.take(k)).len() == 7 implies shortenable(
        full,
    ) && short_of(full) == full.take(k) by {
        lemma_beginning_is_encoded_first(full, k);
        encode_utf8_decode_utf8(full.take(k));
        if b.len() <= 7 {
            lemma_same_bytes(full, full.take(k));
        }
    }
    if shortenable(full) && b.len() > 7 {
        law_short_is_prefix(full);
        valid_utf8_split(b, 7);
        assert(b.subrange(0, 7) =~= b.take(7));
        decode_utf8_encode_utf8(b.take(7));
    }
}

/// Texts with the same bytes are the same.
proof fn lemma_same_bytes(a: Seq<char>, b: Seq<char>)
    requires
        b.is_prefix_of(a),
        encode_utf8(a).len() <= encode_utf8(b).len(),
    ensures
        a == b,
{
    let k = b.len() as int;
    lemma_beginning_is_encoded_first(a, k);
    assert(a.take(k) =~= b);
    assert(encode_utf8(a) =~= encode_utf8(b));
    encode_utf8_decode_utf8(a);
    encode_utf8_decode_utf8(b);
}

/// The texts of strings, place by place.
pub proof fn law_texts_of_strings(strings: Seq<String>, i: int)
    requires
        0 <= i < strings.len(),
    ensures
        text_views(strings).len() == strings.len(),
        text_views(strings)[i] == strings[i]@,
{
}

} // verus!
