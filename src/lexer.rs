//! Checks of the grammar's rules on a text held as characters.
use vstd::prelude::*;
use vstd::std_specs::iter::IteratorSpec;
use crate::grammar::{
    all_field_lines, crlf, field_tail, http_slash, is_break, is_digit, is_digits, is_field_line,
    is_field_name, is_line_text, is_method, is_name_char, is_token_char, is_upper, is_uri,
    is_uri_char, is_version, is_version_number, lemma_field_line_is_text, lemma_field_tail_push,
    no_field_line_at, token_end, line_end, field_run_end, lemma_token_end, lemma_line_end,
};

verus! {

broadcast use vstd::string::group_string_axioms;

pub open spec fn views(v: Seq<String>) -> Seq<Seq<char>> {
    v.map_values(|s: String| s@)
}

/// The characters of `s`, in order.
pub fn chars_of(s: &str) -> (r: Vec<char>)
    ensures
        r@ == s@,
{
    let mut it = s.chars();
    let mut r: Vec<char> = Vec::new();
    loop
        invariant
            r@ + it.remaining() == s@,
            it.obeys_prophetic_iter_laws(),
        ensures
            r@ == s@,
        decreases s@.len() - r@.len(),
    {
        match it.next() {
            Some(c) => {
                r.push(c);
            },
            None => {
                assert(r@ =~= s@);
                break;
            },
        }
    }
    r
}

/// The first position at or after `from` that holds no token character.
pub fn scan_token(cs: &Vec<char>, from: usize) -> (j: usize)
    requires
        from <= cs.len(),
    ensures
        from <= j <= cs.len(),
        forall|i: int| from <= i < j ==> is_token_char(#[trigger] cs@[i]),
        j == cs.len() || !is_token_char(cs@[j as int]),
        j == token_end(cs@, from as int),
{
    let mut j = from;
    while j < cs.len() && cs[j] != ' ' && cs[j] != '\r' && cs[j] != '\n'
        invariant
            from <= j <= cs.len(),
            forall|i: int| from <= i < j ==> is_token_char(#[trigger] cs@[i]),
        decreases cs.len() - j,
    {
        j = j + 1;
    }
    proof {
        lemma_token_end(cs@, from as int, j as int);
    }
    j
}

/// The first position at or after `from` that holds a line break.
pub fn scan_line(cs: &Vec<char>, from: usize) -> (j: usize)
    requires
        from <= cs.len(),
    ensures
        from <= j <= cs.len(),
        is_line_text(cs@.subrange(from as int, j as int)),
        j == cs.len() || is_break(cs@[j as int]),
        j == line_end(cs@, from as int),
{
    let mut j = from;
    while j < cs.len() && cs[j] != '\r' && cs[j] != '\n'
        invariant
            from <= j <= cs.len(),
            is_line_text(cs@.subrange(from as int, j as int)),
        decreases cs.len() - j,
    {
        assert(cs@.subrange(from as int, j + 1) =~= cs@.subrange(from as int, j as int).push(
            cs@[j as int],
        ));
        j = j + 1;
    }
    proof {
        assert forall|i: int| from <= i < j implies !is_break(#[trigger] cs@[i]) by {
            assert(cs@[i] == cs@.subrange(from as int, j as int)[i - from]);
        }
        lemma_line_end(cs@, from as int, j as int);
    }
    j
}

pub fn check_method(cs: &Vec<char>, a: usize, b: usize) -> (r: bool)
    requires
        a <= b <= cs.len(),
    ensures
        r == is_method(cs@.subrange(a as int, b as int)),
{
    let ghost s = cs@.subrange(a as int, b as int);
    let mut i = a;
    while i < b
        invariant
            a <= i <= b <= cs.len(),
            s == cs@.subrange(a as int, b as int),
            forall|k: int| a <= k < i ==> is_upper(#[trigger] cs@[k]),
        decreases b - i,
    {
        if !('A' <= cs[i] && cs[i] <= 'Z') {
            assert(s[i - a] == cs@[i as int]);
            return false;
        }
        i = i + 1;
    }
    assert forall|k: int| 0 <= k < s.len() implies is_upper(#[trigger] s[k]) by {
        assert(s[k] == cs@[a + k]);
    }
    a < b
}

pub fn check_uri(cs: &Vec<char>, a: usize, b: usize) -> (r: bool)
    requires
        a <= b <= cs.len(),
    ensures
        r == is_uri(cs@.subrange(a as int, b as int)),
{
    let ghost s = cs@.subrange(a as int, b as int);
    if a == b || cs[a] != '/' {
        return false;
    }
    let mut i = a;
    while i < b
        invariant
            a <= i <= b <= cs.len(),
            s == cs@.subrange(a as int, b as int),
            forall|k: int| a <= k < i ==> is_uri_char(#[trigger] cs@[k]),
        decreases b - i,
    {
        let c = cs[i];
        if !('!' <= c && c <= '~' && c != '\\' && c != '{') {
            assert(s[i - a] == cs@[i as int]);
            return false;
        }
        i = i + 1;
    }
    assert forall|k: int| 0 <= k < s.len() implies is_uri_char(#[trigger] s[k]) by {
        assert(s[k] == cs@[a + k]);
    }
    true
}

pub fn check_digits(cs: &Vec<char>, a: usize, b: usize) -> (r: bool)
    requires
        a <= b <= cs.len(),
    ensures
        r == is_digits(cs@.subrange(a as int, b as int)),
{
    let ghost s = cs@.subrange(a as int, b as int);
    let mut i = a;
    while i < b
        invariant
            a <= i <= b <= cs.len(),
            s == cs@.subrange(a as int, b as int),
            forall|k: int| a <= k < i ==> is_digit(#[trigger] cs@[k]),
        decreases b - i,
    {
        if !('0' <= cs[i] && cs[i] <= '9') {
            assert(s[i - a] == cs@[i as int]);
            return false;
        }
        i = i + 1;
    }
    assert forall|k: int| 0 <= k < s.len() implies is_digit(#[trigger] s[k]) by {
        assert(s[k] == cs@[a + k]);
    }
    a < b
}

pub fn check_version_number(cs: &Vec<char>, a: usize, b: usize) -> (r: bool)
    requires
        a <= b <= cs.len(),
    ensures
        r == is_version_number(cs@.subrange(a as int, b as int)),
{
    let ghost s = cs@.subrange(a as int, b as int);
    if a == b {
        return false;
    }
    if !('0' <= cs[a] && cs[a] <= '9') || !('0' <= cs[b - 1] && cs[b - 1] <= '9') {
        assert(s[0] == cs@[a as int]);
        assert(s[s.len() - 1] == cs@[b - 1]);
        return false;
    }
    let mut seen = false;
    let mut i = a;
    while i < b
        invariant
            a <= i <= b <= cs.len(),
            s == cs@.subrange(a as int, b as int),
            forall|k: int| a <= k < i ==> is_digit(#[trigger] cs@[k]) || cs@[k] == '.',
            forall|k: int| a <= k < i && #[trigger] cs@[k] == '.' && k + 1 < b ==> is_digit(cs@[k + 1]),
            seen <==> exists|k: int| a <= k < i && #[trigger] cs@[k] == '.',
        decreases b - i,
    {
        let c = cs[i];
        if !(('0' <= c && c <= '9') || c == '.') {
            assert(s[i - a] == cs@[i as int]);
            return false;
        }
        if c == '.' {
            if i + 1 < b && !('0' <= cs[i + 1] && cs[i + 1] <= '9') {
                assert(s[i - a] == cs@[i as int]);
                assert(s[i - a + 1] == cs@[i + 1]);
                return false;
            }
            seen = true;
        }
        i = i + 1;
    }
    assert forall|k: int| 0 <= k < s.len() implies is_digit(#[trigger] s[k]) || s[k] == '.' by {
        assert(s[k] == cs@[a + k]);
    }
    assert forall|k: int| 0 <= k < s.len() - 1 && #[trigger] s[k] == '.' implies is_digit(
        s[k + 1],
    ) by {
        assert(s[k] == cs@[a + k]);
        assert(s[k + 1] == cs@[a + k + 1]);
    }
    assert(s[0] == cs@[a as int]);
    assert(s[s.len() - 1] == cs@[b - 1]);
    if seen {
        let ghost k = choose|k: int| a <= k < b && #[trigger] cs@[k] == '.';
        assert(s[k - a] == '.');
    } else {
        assert forall|k: int| 0 <= k < s.len() implies #[trigger] s[k] != '.' by {
            assert(s[k] == cs@[a + k]);
        }
    }
    seen
}

pub fn check_version(cs: &Vec<char>, a: usize, b: usize) -> (r: bool)
    requires
        a <= b <= cs.len(),
    ensures
        r == is_version(cs@.subrange(a as int, b as int)),
{
    let ghost s = cs@.subrange(a as int, b as int);
    if b - a < 5 {
        return false;
    }
    let head = cs[a] == 'H' && cs[a + 1] == 'T' && cs[a + 2] == 'T' && cs[a + 3] == 'P' && cs[a
        + 4] == '/';
    assert(s.subrange(5, s.len() as int) =~= cs@.subrange(a + 5, b as int));
    if !head {
        assert(s.subrange(0, 5) != http_slash()) by {
            if s.subrange(0, 5) == http_slash() {
                assert(s.subrange(0, 5)[0] == cs@[a as int]);
                assert(s.subrange(0, 5)[1] == cs@[a + 1]);
                assert(s.subrange(0, 5)[2] == cs@[a + 2]);
                assert(s.subrange(0, 5)[3] == cs@[a + 3]);
                assert(s.subrange(0, 5)[4] == cs@[a + 4]);
            }
        }
        return false;
    }
    assert(s.subrange(0, 5) =~= http_slash());
    check_version_number(cs, a + 5, b)
}

/// Whether the characters in `[a, b)` hold no line break.
pub fn check_line_text(cs: &Vec<char>, a: usize, b: usize) -> (r: bool)
    requires
        a <= b <= cs.len(),
    ensures
        r == is_line_text(cs@.subrange(a as int, b as int)),
{
    let ghost s = cs@.subrange(a as int, b as int);
    let mut i = a;
    while i < b
        invariant
            a <= i <= b <= cs.len(),
            s == cs@.subrange(a as int, b as int),
            forall|k: int| a <= k < i ==> !is_break(#[trigger] cs@[k]),
        decreases b - i,
    {
        if cs[i] == '\r' || cs[i] == '\n' {
            assert(s[i - a] == cs@[i as int]);
            return false;
        }
        i = i + 1;
    }
    assert forall|k: int| 0 <= k < s.len() implies !is_break(#[trigger] s[k]) by {
        assert(s[k] == cs@[a + k]);
    }
    true
}

/// The first position in `[a, b)` that holds no field-name character, or `b`.
fn scan_name(cs: &Vec<char>, a: usize, b: usize) -> (k: usize)
    requires
        a <= b <= cs.len(),
    ensures
        a <= k <= b,
        forall|i: int| a <= i < k ==> is_name_char(#[trigger] cs@[i]),
        k == b || !is_name_char(cs@[k as int]),
{
    let mut k = a;
    while k < b && (('A' <= cs[k] && cs[k] <= 'Z') || ('a' <= cs[k] && cs[k] <= 'z') || ('0'
        <= cs[k] && cs[k] <= '9') || cs[k] == '-')
        invariant
            a <= k <= b <= cs.len(),
            forall|i: int| a <= i < k ==> is_name_char(#[trigger] cs@[i]),
        decreases b - k,
    {
        k = k + 1;
    }
    k
}

pub fn check_field_name(cs: &Vec<char>, a: usize, b: usize) -> (r: bool)
    requires
        a <= b <= cs.len(),
    ensures
        r == is_field_name(cs@.subrange(a as int, b as int)),
{
    let ghost s = cs@.subrange(a as int, b as int);
    let k = scan_name(cs, a, b);
    if k < b {
        assert(s[k - a] == cs@[k as int]);
        return false;
    }
    assert forall|i: int| 0 <= i < s.len() implies is_name_char(#[trigger] s[i]) by {
        assert(s[i] == cs@[a + i]);
    }
    if a == b {
        return false;
    }
    assert(s[s.len() - 1] == cs@[b - 1]);
    cs[b - 1] != '-'
}

pub fn check_field_line(cs: &Vec<char>, a: usize, b: usize) -> (r: bool)
    requires
        a <= b <= cs.len(),
    ensures
        r == is_field_line(cs@.subrange(a as int, b as int)),
{
    reveal(is_field_line);
    let ghost s = cs@.subrange(a as int, b as int);
    let k = scan_name(cs, a, b);
    let ghost kk = k - a;
    let ok = k > a && cs[k - 1] != '-' && b - k >= 2 && cs[k] == ':' && cs[k + 1] == ' '
        && check_line_text(cs, k + 2, b);
    assert(s.subrange(0, kk) =~= cs@.subrange(a as int, k as int));
    if b - k >= 2 {
        assert(s.subrange(kk + 2, s.len() as int) =~= cs@.subrange(k + 2, b as int));
        assert(s[kk] == cs@[k as int]);
        assert(s[kk + 1] == cs@[k + 1]);
    }
    if ok {
        assert(forall|i: int| 0 <= i < kk ==> #[trigger] s.subrange(0, kk)[i] == cs@[a + i]);
        assert(is_field_name(s.subrange(0, kk)));
    } else {
        assert forall|k2: int|
            0 <= k2 && k2 + 2 <= s.len() && #[trigger] is_field_name(s.subrange(0, k2)) && s[k2]
                == ':' && s[k2 + 1] == ' ' implies !is_line_text(
            s.subrange(k2 + 2, s.len() as int),
        ) by {
            if k2 < kk {
                assert(s[k2] == cs@[a + k2]);
            } else if k2 > kk {
                assert(s.subrange(0, k2)[kk] == cs@[k as int]);
            } else {
                if k > a {
                    assert(s.subrange(0, k2)[kk - 1] == cs@[k - 1]);
                }
            }
        }
    }
    ok
}

/// Reads field lines, each after a line terminator, from `start` on, as long
/// as they come; returns them and the position where they stop.
pub fn field_run(text: &str, cs: &Vec<char>, start: usize) -> (r: (Vec<String>, usize))
    requires
        cs@ == text@,
        start <= cs.len(),
    ensures
        start <= r.1 <= cs.len(),
        all_field_lines(views(r.0@)),
        cs@.subrange(start as int, r.1 as int) == field_tail(views(r.0@)),
        no_field_line_at(cs@, r.1 as int),
        r.0.len() > 0 ==> (r.1 == cs.len() || is_break(cs@[r.1 as int])),
        r.1 == field_run_end(cs@, start as int),
{
    let mut lines: Vec<String> = Vec::new();
    let mut p = start;
    assert(cs@.subrange(start as int, p as int) =~= field_tail(views(lines@)));
    loop
        invariant
            start <= p <= cs.len(),
            cs@ == text@,
            all_field_lines(views(lines@)),
            cs@.subrange(start as int, p as int) == field_tail(views(lines@)),
            lines.len() > 0 ==> (p == cs.len() || is_break(cs@[p as int])),
            field_run_end(cs@, p as int) == field_run_end(cs@, start as int),
        decreases cs.len() - p,
    {
        if cs.len() - p > 2 && cs[p] == '\r' && cs[p + 1] == '\n' {
            let j = scan_line(cs, p + 2);
            if check_field_line(cs, p + 2, j) {
                let line = String::from_str(text.substring_char(p + 2, j));
                proof {
                    lemma_field_line_is_text(line@);
                    lemma_field_tail_push(views(lines@), line@);
                    assert(views(lines@.push(line)) =~= views(lines@).push(line@));
                    assert(cs@.subrange(start as int, j as int) =~= cs@.subrange(
                        start as int,
                        p as int,
                    ) + crlf() + line@);
                }
                lines.push(line);
                p = j;
            } else {
                proof {
                    reveal(no_field_line_at);
                    if !no_field_line_at(cs@, p as int) {
                        let j2 = choose|j2: int|
                            0 <= p && p + 2 < j2 <= cs@.len() && cs@[p as int] == '\r' && cs@[p
                                + 1] == '\n' && #[trigger] is_field_line(
                                cs@.subrange(p + 2, j2),
                            ) && (j2 == cs@.len() || is_break(cs@[j2]));
                        lemma_field_line_is_text(cs@.subrange(p + 2, j2));
                        if j2 < j {
                            assert(cs@[j2] == cs@.subrange(p + 2, j as int)[j2 - p - 2]);
                        }
                        if j < j2 {
                            assert(cs@[j as int] == cs@.subrange(p + 2, j2)[j - p - 2]);
                        }
                    }
                }
                return (lines, p);
            }
        } else {
            proof {
                reveal(no_field_line_at);
            }
            return (lines, p);
        }
    }
}

} // verus!
