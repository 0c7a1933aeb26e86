//! The message grammar: character classes, token rules and the header-line
//! layout, first as spec predicates and then as checks on characters.
use vstd::prelude::*;

verus! {

pub open spec fn is_upper(c: char) -> bool {
    'A' <= c && c <= 'Z'
}

pub open spec fn is_digit(c: char) -> bool {
    '0' <= c && c <= '9'
}

pub open spec fn is_alnum(c: char) -> bool {
    is_upper(c) || ('a' <= c && c <= 'z') || is_digit(c)
}

/// Letters, digits and `-`: the characters of a header field name.
pub open spec fn is_name_char(c: char) -> bool {
    is_alnum(c) || c == '-'
}

/// Visible ASCII characters other than `\` and `{`: the characters of a URI.
pub open spec fn is_uri_char(c: char) -> bool {
    '!' <= c && c <= '~' && c != '\\' && c != '{'
}

/// Carriage return or line feed.
pub open spec fn is_break(c: char) -> bool {
    c == '\r' || c == '\n'
}

/// Characters that may stand inside a token of a start line or status line.
pub open spec fn is_token_char(c: char) -> bool {
    c != ' ' && !is_break(c)
}

pub open spec fn crlf() -> Seq<char> {
    seq!['\r', '\n']
}

pub open spec fn space() -> Seq<char> {
    seq![' ']
}

pub open spec fn http_slash() -> Seq<char> {
    seq!['H', 'T', 'T', 'P', '/']
}

/// One or more uppercase ASCII letters.
pub open spec fn is_method(s: Seq<char>) -> bool {
    &&& s.len() > 0
    &&& forall|i: int| 0 <= i < s.len() ==> is_upper(#[trigger] s[i])
}

/// `/` followed by URI characters.
pub open spec fn is_uri(s: Seq<char>) -> bool {
    &&& s.len() > 0
    &&& s[0] == '/'
    &&& forall|i: int| 0 <= i < s.len() ==> is_uri_char(#[trigger] s[i])
}

/// One or more decimal digits.
pub open spec fn is_digits(s: Seq<char>) -> bool {
    &&& s.len() > 0
    &&& forall|i: int| 0 <= i < s.len() ==> is_digit(#[trigger] s[i])
}

/// Two or more groups of digits separated by single dots (`1.1`, `1.1.0`).
pub open spec fn is_version_number(s: Seq<char>) -> bool {
    &&& s.len() > 0
    &&& forall|i: int| 0 <= i < s.len() ==> is_digit(#[trigger] s[i]) || s[i] == '.'
    &&& is_digit(s[0])
    &&& is_digit(s[s.len() - 1])
    &&& forall|i: int| 0 <= i < s.len() - 1 && #[trigger] s[i] == '.' ==> is_digit(s[i + 1])
    &&& exists|i: int| 0 <= i < s.len() && #[trigger] s[i] == '.'
}

/// `HTTP/` followed by a version number.
pub open spec fn is_version(s: Seq<char>) -> bool {
    &&& s.len() >= 5
    &&& s.subrange(0, 5) == http_slash()
    &&& is_version_number(s.subrange(5, s.len() as int))
}

/// Letters, digits and hyphens, not ending in a hyphen.
pub open spec fn is_field_name(s: Seq<char>) -> bool {
    &&& s.len() > 0
    &&& forall|i: int| 0 <= i < s.len() ==> is_name_char(#[trigger] s[i])
    &&& s[s.len() - 1] != '-'
}

/// Text without a line break.
pub open spec fn is_line_text(s: Seq<char>) -> bool {
    forall|i: int| 0 <= i < s.len() ==> !is_break(#[trigger] s[i])
}

/// A reason phrase: non-empty text without a line break.
pub open spec fn is_reason(s: Seq<char>) -> bool {
    s.len() > 0 && is_line_text(s)
}

/// `Name: value`, the value running to the end of the line. The value holds
/// no carriage return or line feed of its own.
#[verifier::opaque]
pub open spec fn is_field_line(s: Seq<char>) -> bool {
    exists|k: int|
        0 <= k && k + 2 <= s.len() && #[trigger] is_field_name(s.subrange(0, k)) && s[k] == ':'
            && s[k + 1] == ' ' && is_line_text(s.subrange(k + 2, s.len() as int))
}

pub open spec fn all_field_lines(hs: Seq<Seq<char>>) -> bool {
    forall|i: int| 0 <= i < hs.len() ==> is_field_line(#[trigger] hs[i])
}

/// Each line preceded by a line terminator.
pub open spec fn field_tail(hs: Seq<Seq<char>>) -> Seq<char>
    decreases hs.len(),
{
    if hs.len() == 0 {
        Seq::empty()
    } else {
        crlf() + hs[0] + field_tail(hs.drop_first())
    }
}

/// The lines joined by line terminators, with none after the last.
pub open spec fn field_block(hs: Seq<Seq<char>>) -> Seq<char> {
    if hs.len() == 0 {
        Seq::empty()
    } else {
        hs[0] + field_tail(hs.drop_first())
    }
}

/// One or more field lines separated by line terminators, none trailing.
pub open spec fn is_field(s: Seq<char>) -> bool {
    exists|hs: Seq<Seq<char>>|
        hs.len() > 0 && #[trigger] all_field_lines(hs) && s == field_block(hs)
}

/// No line terminator followed by a whole field line starts at `p` in `t`.
#[verifier::opaque]
pub open spec fn no_field_line_at(t: Seq<char>, p: int) -> bool {
    !exists|j: int|
        0 <= p && p + 2 < j <= t.len() && t[p] == '\r' && t[p + 1] == '\n'
            && #[trigger] is_field_line(t.subrange(p + 2, j)) && (j == t.len() || is_break(t[j]))
}

/// The first position at or after `from` that holds no token character, or
/// the end.
pub open spec fn token_end(s: Seq<char>, from: int) -> int
    decreases s.len() - from,
{
    if from >= s.len() || !is_token_char(s[from]) {
        from
    } else {
        token_end(s, from + 1)
    }
}

/// The first position at or after `from` that holds a line break, or the end.
pub open spec fn line_end(s: Seq<char>, from: int) -> int
    decreases s.len() - from,
{
    if from >= s.len() || is_break(s[from]) {
        from
    } else {
        line_end(s, from + 1)
    }
}

/// Where a run of field lines, each after a line terminator, that starts at
/// `from` stops.
pub open spec fn field_run_end(s: Seq<char>, from: int) -> int
    decreases s.len() - from,
{
    let e = line_end(s, from + 2);
    if 0 <= from && from + 2 < s.len() && s[from] == '\r' && s[from + 1] == '\n' && from < e
        <= s.len() && is_field_line(s.subrange(from + 2, e)) {
        field_run_end(s, e)
    } else {
        from
    }
}

pub proof fn lemma_token_end(s: Seq<char>, from: int, j: int)
    requires
        0 <= from <= j <= s.len(),
        forall|i: int| from <= i < j ==> is_token_char(#[trigger] s[i]),
        j == s.len() || !is_token_char(s[j]),
    ensures
        token_end(s, from) == j,
    decreases j - from,
{
    if from < j {
        lemma_token_end(s, from + 1, j);
    }
}

pub proof fn lemma_line_end(s: Seq<char>, from: int, j: int)
    requires
        0 <= from <= j <= s.len(),
        forall|i: int| from <= i < j ==> !is_break(#[trigger] s[i]),
        j == s.len() || is_break(s[j]),
    ensures
        line_end(s, from) == j,
    decreases j - from,
{
    if from < j {
        lemma_line_end(s, from + 1, j);
    }
}

pub proof fn lemma_field_line_is_text(s: Seq<char>)
    requires
        is_field_line(s),
    ensures
        is_line_text(s),
        s.len() > 0,
        !is_break(s[0]),
{
    reveal(is_field_line);
    let k = choose|k: int|
        0 <= k && k + 2 <= s.len() && #[trigger] is_field_name(s.subrange(0, k)) && s[k] == ':'
            && s[k + 1] == ' ' && is_line_text(s.subrange(k + 2, s.len() as int));
    assert forall|i: int| 0 <= i < s.len() implies !is_break(#[trigger] s[i]) by {
        if i < k {
            assert(is_name_char(s.subrange(0, k)[i]));
        } else if i >= k + 2 {
            assert(!is_break(s.subrange(k + 2, s.len() as int)[i - k - 2]));
        }
    }
    assert(is_name_char(s.subrange(0, k)[0]));
}

pub proof fn lemma_field_tail_push(hs: Seq<Seq<char>>, h: Seq<char>)
    ensures
        field_tail(hs.push(h)) == field_tail(hs) + crlf() + h,
    decreases hs.len(),
{
    let hp = hs.push(h);
    assert(hp[0] == if hs.len() == 0 { h } else { hs[0] });
    assert(field_tail(hp) == crlf() + hp[0] + field_tail(hp.drop_first()));
    if hs.len() == 0 {
        assert(hp.drop_first() =~= Seq::<Seq<char>>::empty());
        assert(field_tail(hp.drop_first()) =~= Seq::<char>::empty());
        assert(field_tail(hp) =~= field_tail(hs) + crlf() + h);
    } else {
        assert(hp.drop_first() =~= hs.drop_first().push(h));
        lemma_field_tail_push(hs.drop_first(), h);
        assert(field_tail(hp) == crlf() + hs[0] + field_tail(hs.drop_first().push(h)));
        assert(field_tail(hs) == crlf() + hs[0] + field_tail(hs.drop_first()));
        assert(field_tail(hp) =~= field_tail(hs) + crlf() + h);
    }
}

pub proof fn lemma_all_field_lines_rest(hs: Seq<Seq<char>>)
    requires
        all_field_lines(hs),
        hs.len() > 0,
    ensures
        all_field_lines(hs.drop_first()),
        is_field_line(hs[0]),
{
    assert forall|i: int| 0 <= i < hs.drop_first().len() implies is_field_line(
        #[trigger] hs.drop_first()[i],
    ) by {
        assert(hs.drop_first()[i] == hs[i + 1]);
    }
}

/// How a text that starts with a run of field lines begins: a terminator, the
/// first line, then a line break or the end.
pub proof fn lemma_field_tail_head(hs: Seq<Seq<char>>, y: Seq<char>)
    requires
        all_field_lines(hs),
        hs.len() > 0,
        y.len() == 0 || is_break(y[0]),
    ensures
        ({
            let u = field_tail(hs) + y;
            let e = 2 + hs[0].len() as int;
            &&& e <= u.len()
            &&& u[0] == '\r'
            &&& u[1] == '\n'
            &&& u.subrange(2, e) == hs[0]
            &&& (e == u.len() || is_break(u[e]))
            &&& u.subrange(e, u.len() as int) == field_tail(hs.drop_first()) + y
        }),
{
    let h = hs[0];
    let rest = hs.drop_first();
    lemma_field_line_is_text(h);
    let u = field_tail(hs) + y;
    let e = 2 + h.len() as int;
    assert(field_tail(hs) == crlf() + h + field_tail(rest));
    assert(u =~= crlf() + h + (field_tail(rest) + y));
    assert(u.subrange(2, e) =~= h);
    assert(u.subrange(e, u.len() as int) =~= field_tail(rest) + y);
    if rest.len() > 0 {
        assert(field_tail(rest) == crlf() + rest[0] + field_tail(rest.drop_first()));
        assert(u[e] == (field_tail(rest) + y)[0]);
    } else if y.len() > 0 {
        assert(u[e] == y[0]);
    }
}

pub proof fn lemma_no_field_line_shift(t: Seq<char>, a: int, p: int)
    requires
        0 <= a <= p <= t.len(),
        no_field_line_at(t, p),
    ensures
        no_field_line_at(t.subrange(a, t.len() as int), p - a),
{
    reveal(no_field_line_at);
    let t2 = t.subrange(a, t.len() as int);
    if !no_field_line_at(t2, p - a) {
        let j = choose|j: int|
            0 <= p - a && p - a + 2 < j <= t2.len() && t2[p - a] == '\r' && t2[p - a + 1] == '\n'
                && #[trigger] is_field_line(t2.subrange(p - a + 2, j)) && (j == t2.len()
                || is_break(t2[j]));
        assert(t2.subrange(p - a + 2, j) =~= t.subrange(p + 2, j + a));
        assert(is_field_line(t.subrange(p + 2, j + a)));
    }
}

/// A run of field lines that stops where no further field line starts is the
/// only one that a text of that shape admits.
#[verifier::rlimit(40)]
pub proof fn lemma_field_tail_forced(
    t: Seq<char>,
    hs: Seq<Seq<char>>,
    hs2: Seq<Seq<char>>,
    x: Seq<char>,
)
    requires
        all_field_lines(hs),
        all_field_lines(hs2),
        t == field_tail(hs2) + x,
        x.len() == 0 || is_break(x[0]),
        no_field_line_at(x, 0),
        field_tail(hs).len() <= t.len(),
        t.subrange(0, field_tail(hs).len() as int) == field_tail(hs),
        no_field_line_at(t, field_tail(hs).len() as int),
        hs.len() > 0 ==> (field_tail(hs).len() == t.len() || is_break(
            t[field_tail(hs).len() as int],
        )),
    ensures
        hs == hs2,
    decreases hs2.len(),
{
    let p = field_tail(hs).len() as int;
    let y = t.subrange(p, t.len() as int);
    assert(t =~= field_tail(hs) + y);
    if hs.len() > 0 {
        lemma_field_tail_head(hs, y);
        let e = 2 + hs[0].len() as int;
        if hs2.len() == 0 {
            assert(t =~= x);
            lemma_field_line_is_text(hs[0]);
            reveal(no_field_line_at);
            assert(is_field_line(t.subrange(0int + 2, e)));
        } else {
            lemma_field_tail_head(hs2, x);
            let e2 = 2 + hs2[0].len() as int;
            lemma_field_line_is_text(hs[0]);
            lemma_field_line_is_text(hs2[0]);
            if e < e2 {
                assert(t[e] == t.subrange(2, e2)[e - 2]);
            }
            if e2 < e {
                assert(t[e2] == t.subrange(2, e)[e2 - 2]);
            }
            assert(hs[0] == hs2[0]);
            let t2 = t.subrange(e, t.len() as int);
            let rest = hs.drop_first();
            let rest2 = hs2.drop_first();
            assert(field_tail(rest).len() == p - e);
            assert(t2.subrange(0, p - e) =~= field_tail(rest)) by {
                assert(t2 == field_tail(rest) + y);
            }
            lemma_no_field_line_shift(t, e, p);
            lemma_all_field_lines_rest(hs);
            lemma_all_field_lines_rest(hs2);
            if rest.len() > 0 && p < t.len() {
                assert(t2[p - e] == t[p]);
            }
            lemma_field_tail_forced(t2, rest, rest2, x);
            assert(hs =~= hs2) by {
                assert forall|i: int| 0 <= i < hs.len() implies hs[i] == hs2[i] by {
                    if i > 0 {
                        assert(hs[i] == rest[i - 1]);
                        assert(hs2[i] == rest2[i - 1]);
                    }
                }
            }
        }
    } else if hs2.len() > 0 {
        lemma_field_tail_head(hs2, x);
        let e2 = 2 + hs2[0].len() as int;
        lemma_field_line_is_text(hs2[0]);
        reveal(no_field_line_at);
        assert(is_field_line(t.subrange(0int + 2, e2)));
    } else {
        assert(hs =~= hs2);
    }
}

} // verus!
