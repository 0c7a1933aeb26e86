//! Parsing of whole messages and of single grammar rules.
use vstd::prelude::*;
use crate::grammar::{
    all_field_lines, crlf, field_block, field_tail, http_slash, is_break, is_digits, is_field,
    is_field_line, is_field_name, is_line_text, is_method, is_reason, is_token_char, is_uri,
    is_version, is_version_number, lemma_all_field_lines_rest, lemma_field_line_is_text,
    lemma_field_tail_forced, lemma_no_field_line_shift, no_field_line_at, space, token_end, line_end,
    field_run_end,
};
use crate::lexer::{
    check_digits, check_field_line, check_field_name, check_line_text, check_method, check_uri,
    check_version, check_version_number, chars_of, field_run, scan_line, scan_token, views,
};
use crate::message::{
    is_request_text, is_response_text, is_status_line, request_fits_grammar, request_text,
    response_fits_grammar, response_wire, status_line_text, status_parts_fit, HttpRequest,
    HttpResponse, RequestView, ResponseView,
};

verus! {

broadcast use vstd::string::group_string_axioms;

/// The rules of the message grammar.
#[derive(Debug, Clone, Copy, PartialEq, Eq, Structural)]
pub enum Rule {
    Method,
    Uri,
    VersionNumber,
    Version,
    FieldName,
    FieldLine,
    Field,
    StatusCode,
    StatusMessage,
    StatusLine,
    Request,
    Response,
}

/// Whether `rule` matches the whole of `s`.
pub open spec fn rule_matches(rule: Rule, s: Seq<char>) -> bool {
    match rule {
        Rule::Method => is_method(s),
        Rule::Uri => is_uri(s),
        Rule::VersionNumber => is_version_number(s),
        Rule::Version => is_version(s),
        Rule::FieldName => is_field_name(s),
        Rule::FieldLine => is_field_line(s),
        Rule::Field => is_field(s),
        Rule::StatusCode => is_digits(s),
        Rule::StatusMessage => is_reason(s),
        Rule::StatusLine => is_status_line(s),
        Rule::Request => is_request_text(s),
        Rule::Response => is_response_text(s),
    }
}

/// A failed match: the rule being matched and the character offset where
/// matching stopped.
#[derive(Debug, Clone, Copy, PartialEq, Eq, Structural)]
pub struct ParseError {
    pub rule: Rule,
    pub offset: usize,
}

/// Where and in which rule matching a status line at the start of `s` fails,
/// if it does before the reason phrase ends.
pub open spec fn status_line_error(s: Seq<char>) -> Option<(Rule, int)> {
    let n = s.len();
    let i1 = token_end(s, 0);
    let i2 = token_end(s, i1 + 1);
    let i3 = line_end(s, i2 + 1);
    if !(i1 < n && s[i1] == ' ') {
        Some((Rule::StatusLine, i1))
    } else if !is_version(s.subrange(0, i1)) {
        Some((Rule::Version, 0))
    } else if !(i2 < n && s[i2] == ' ') {
        Some((Rule::StatusLine, i2))
    } else if !is_digits(s.subrange(i1 + 1, i2)) {
        Some((Rule::StatusCode, i1 + 1))
    } else if i3 == i2 + 1 {
        Some((Rule::StatusMessage, i3))
    } else {
        None
    }
}

/// Where the reason phrase of a status line at the start of `s` ends.
pub open spec fn status_line_stop(s: Seq<char>) -> int {
    line_end(s, token_end(s, token_end(s, 0) + 1) + 1)
}

/// The failure reported for a text that is not a whole status line.
pub open spec fn status_line_only_error(s: Seq<char>) -> (Rule, int) {
    match status_line_error(s) {
        Some(x) => x,
        None => (Rule::StatusLine, status_line_stop(s)),
    }
}

/// The failure reported for a text that is not a whole response: in the
/// status line, or where its header lines stop without a blank line after
/// one or more of them.
pub open spec fn response_error(s: Seq<char>) -> (Rule, int) {
    match status_line_error(s) {
        Some(x) => x,
        None => (Rule::Response, field_run_end(s, status_line_stop(s))),
    }
}

/// The failure reported for a text that is not a whole request: at the first
/// token that does not match its rule, at a missing separator, or where its
/// header lines stop without the final terminator.
pub open spec fn request_error(s: Seq<char>) -> (Rule, int) {
    let n = s.len();
    let i1 = token_end(s, 0);
    let i2 = token_end(s, i1 + 1);
    let i3 = token_end(s, i2 + 1);
    if !(i1 < n && s[i1] == ' ') {
        (Rule::Request, i1)
    } else if !is_method(s.subrange(0, i1)) {
        (Rule::Method, 0)
    } else if !(i2 < n && s[i2] == ' ') {
        (Rule::Request, i2)
    } else if !is_uri(s.subrange(i1 + 1, i2)) {
        (Rule::Uri, i1 + 1)
    } else if !is_version(s.subrange(i2 + 1, i3)) {
        (Rule::Version, i2 + 1)
    } else {
        (Rule::Request, field_run_end(s, i3))
    }
}

/// Two scans that stop at the first character outside `p` stop at the same place.
pub proof fn lemma_same_stop(s: Seq<char>, from: int, j: int, k: int, p: spec_fn(char) -> bool)
    requires
        0 <= from <= j <= s.len(),
        from <= k <= s.len(),
        forall|i: int| from <= i < j ==> p(#[trigger] s[i]),
        forall|i: int| from <= i < k ==> p(#[trigger] s[i]),
        j == s.len() || !p(s[j]),
        k == s.len() || !p(s[k]),
    ensures
        j == k,
{
    if j < k {
        assert(p(s[j]));
    }
    if k < j {
        assert(p(s[k]));
    }
}

pub open spec fn status_line_then(v: Seq<char>, c: Seq<char>, m: Seq<char>, y: Seq<char>) -> Seq<
    char,
> {
    status_line_text(v, c, m) + y
}

pub proof fn lemma_version_tokens(v: Seq<char>)
    requires
        is_version(v),
    ensures
        forall|i: int| 0 <= i < v.len() ==> is_token_char(#[trigger] v[i]),
{
    assert forall|i: int| 0 <= i < v.len() implies is_token_char(#[trigger] v[i]) by {
        if i < 5 {
            assert(v[i] == v.subrange(0, 5)[i]);
            assert(v[i] == http_slash()[i]);
        } else {
            assert(v[i] == v.subrange(5, v.len() as int)[i - 5]);
        }
    }
}

/// Where the parts of a status line, followed by `y`, stand in the text.
pub proof fn lemma_status_split(v: Seq<char>, c: Seq<char>, m: Seq<char>, y: Seq<char>)
    requires
        status_parts_fit(v, c, m),
        y.len() == 0 || is_break(y[0]),
    ensures
        ({
            let s = status_line_then(v, c, m, y);
            let ve = v.len() as int;
            let ce = ve + 1 + c.len();
            let me = ce + 1 + m.len();
            &&& s.subrange(0, ve) == v
            &&& s[ve] == ' '
            &&& forall|i: int| 0 <= i < ve ==> is_token_char(#[trigger] s[i])
            &&& s.subrange(ve + 1, ce) == c
            &&& s[ce] == ' '
            &&& forall|i: int| ve + 1 <= i < ce ==> is_token_char(#[trigger] s[i])
            &&& s.subrange(ce + 1, me) == m
            &&& forall|i: int| ce + 1 <= i < me ==> !is_break(#[trigger] s[i])
            &&& me <= s.len()
            &&& (me == s.len() || is_break(s[me]))
            &&& s.subrange(me, s.len() as int) == y
        }),
{
    let s = status_line_then(v, c, m, y);
    let ve = v.len() as int;
    let ce = ve + 1 + c.len();
    let me = ce + 1 + m.len();
    assert(s =~= v + space() + c + space() + m + y);
    lemma_version_tokens(v);
    assert(s.subrange(0, ve) =~= v);
    assert(s.subrange(ve + 1, ce) =~= c);
    assert(s.subrange(ce + 1, me) =~= m);
    assert(s.subrange(me, s.len() as int) =~= y);
    assert forall|i: int| 0 <= i < ve implies is_token_char(#[trigger] s[i]) by {
        assert(s[i] == v[i]);
    }
    assert forall|i: int| ve + 1 <= i < ce implies is_token_char(#[trigger] s[i]) by {
        assert(s[i] == c[i - ve - 1]);
    }
    assert forall|i: int| ce + 1 <= i < me implies !is_break(#[trigger] s[i]) by {
        assert(s[i] == m[i - ce - 1]);
    }
    if me < s.len() {
        assert(s[me] == y[0]);
    }
}

/// Finds the three parts of a status line at the start of the text, the
/// reason phrase running to the first line break or the end.
fn scan_status_line(cs: &Vec<char>) -> (r: Result<(usize, usize, usize), ParseError>)
    ensures
        match r {
            Ok((i1, i2, i3)) => {
                &&& i1 < i2 < i3 <= cs.len()
                &&& status_parts_fit(
                    cs@.subrange(0, i1 as int),
                    cs@.subrange(i1 + 1, i2 as int),
                    cs@.subrange(i2 + 1, i3 as int),
                )
                &&& cs@[i1 as int] == ' '
                &&& cs@[i2 as int] == ' '
                &&& (i3 == cs.len() || is_break(cs@[i3 as int]))
                &&& status_line_error(cs@) is None
                &&& i3 == status_line_stop(cs@)
            },
            Err(e) => {
                &&& e.offset <= cs.len()
                &&& status_line_error(cs@) == Some((e.rule, e.offset as int))
                &&& forall|v: Seq<char>, c: Seq<char>, m: Seq<char>, y: Seq<char>|
                    status_parts_fit(v, c, m) && (y.len() == 0 || is_break(y[0]))
                        ==> cs@ != #[trigger] status_line_then(v, c, m, y)
            },
        },
{
    let n = cs.len();
    let i1 = scan_token(cs, 0);
    let ok1 = i1 < n && cs[i1] == ' ';
    let ok1v = ok1 && check_version(cs, 0, i1);
    if !ok1v {
        proof {
            assert forall|v: Seq<char>, c: Seq<char>, m: Seq<char>, y: Seq<char>|
                status_parts_fit(v, c, m) && (y.len() == 0 || is_break(y[0])) implies cs@
                != #[trigger] status_line_then(v, c, m, y) by {
                if cs@ == status_line_then(v, c, m, y) {
                    lemma_status_split(v, c, m, y);
                    lemma_same_stop(cs@, 0, i1 as int, v.len() as int, |ch| is_token_char(ch));
                }
            }
        }
        return Err(ParseError { rule: if ok1 { Rule::Version } else { Rule::StatusLine }, offset: if ok1 { 0 } else { i1 } });
    }
    let i2 = scan_token(cs, i1 + 1);
    let ok2 = i2 < n && cs[i2] == ' ';
    let ok2c = ok2 && check_digits(cs, i1 + 1, i2);
    if !ok2c {
        proof {
            assert forall|v: Seq<char>, c: Seq<char>, m: Seq<char>, y: Seq<char>|
                status_parts_fit(v, c, m) && (y.len() == 0 || is_break(y[0])) implies cs@
                != #[trigger] status_line_then(v, c, m, y) by {
                if cs@ == status_line_then(v, c, m, y) {
                    lemma_status_split(v, c, m, y);
                    lemma_same_stop(cs@, 0, i1 as int, v.len() as int, |ch| is_token_char(ch));
                    lemma_same_stop(
                        cs@,
                        i1 + 1,
                        i2 as int,
                        (v.len() + 1 + c.len()) as int,
                        |ch| is_token_char(ch),
                    );
                }
            }
        }
        return Err(ParseError { rule: if ok2 { Rule::StatusCode } else { Rule::StatusLine }, offset: if ok2 { i1 + 1 } else { i2 } });
    }
    let i3 = scan_line(cs, i2 + 1);
    if i3 == i2 + 1 {
        proof {
            assert forall|v: Seq<char>, c: Seq<char>, m: Seq<char>, y: Seq<char>|
                status_parts_fit(v, c, m) && (y.len() == 0 || is_break(y[0])) implies cs@
                != #[trigger] status_line_then(v, c, m, y) by {
                if cs@ == status_line_then(v, c, m, y) {
                    lemma_status_split(v, c, m, y);
                    lemma_same_stop(cs@, 0, i1 as int, v.len() as int, |ch| is_token_char(ch));
                    lemma_same_stop(
                        cs@,
                        i1 + 1,
                        i2 as int,
                        (v.len() + 1 + c.len()) as int,
                        |ch| is_token_char(ch),
                    );
                    assert(m.len() > 0);
                    assert(!is_break(cs@[i2 + 1]));
                }
            }
        }
        return Err(ParseError { rule: Rule::StatusMessage, offset: i3 });
    }
    proof {
        assert forall|k: int| 0 <= k < cs@.subrange(i2 + 1, i3 as int).len() implies !is_break(
            #[trigger] cs@.subrange(i2 + 1, i3 as int)[k],
        ) by {}
    }
    Ok((i1, i2, i3))
}

/// The matcher of the message grammar.
pub struct HttpParser;

impl HttpParser {
    /// Whether `rule` matches the whole of `text`.
    pub fn accepts(rule: Rule, text: &str) -> (r: bool)
        ensures
            r == rule_matches(rule, text@),
    {
        let cs = chars_of(text);
        let n = cs.len();
        assert(cs@.subrange(0, n as int) =~= text@);
        match rule {
            Rule::Method => check_method(&cs, 0, n),
            Rule::Uri => check_uri(&cs, 0, n),
            Rule::VersionNumber => check_version_number(&cs, 0, n),
            Rule::Version => check_version(&cs, 0, n),
            Rule::FieldName => check_field_name(&cs, 0, n),
            Rule::FieldLine => check_field_line(&cs, 0, n),
            Rule::Field => Self::accepts_field(text, &cs),
            Rule::StatusCode => check_digits(&cs, 0, n),
            Rule::StatusMessage => n > 0 && check_line_text(&cs, 0, n),
            Rule::StatusLine => Http::parse_status_line(text).is_ok(),
            Rule::Request => {
                let r = Http::parse_request(text);
                match r {
                    Ok(req) => {
                        assert(request_fits_grammar(req@) && request_text(req@) == text@);
                        true
                    },
                    Err(_) => false,
                }
            },
            Rule::Response => {
                let r = Http::parse_response(text);
                match r {
                    Ok(resp) => {
                        assert(response_fits_grammar(resp@) && response_wire(resp@) == text@);
                        true
                    },
                    Err(_) => false,
                }
            },
        }
    }

    fn accepts_field(text: &str, cs: &Vec<char>) -> (r: bool)
        requires
            cs@ == text@,
        ensures
            r == is_field(text@),
    {
        let n = cs.len();
        let j = scan_line(cs, 0);
        proof {
            assert forall|i: int| 0 <= i < j implies !is_break(#[trigger] cs@[i]) by {
                assert(cs@[i] == cs@.subrange(0, j as int)[i]);
            }
        }
        if !check_field_line(cs, 0, j) {
            proof {
                assert forall|hs: Seq<Seq<char>>|
                    hs.len() > 0 && #[trigger] all_field_lines(hs) implies cs@ != field_block(
                        hs,
                    ) by {
                    if cs@ == field_block(hs) {
                        lemma_field_block_head(hs);
                        lemma_same_stop(cs@, 0, j as int, hs[0].len() as int, |ch| !is_break(ch));
                    }
                }
            }
            return false;
        }
        let (lines, p) = field_run(text, cs, j);
        if p != n {
            proof {
                assert forall|hs: Seq<Seq<char>>|
                    hs.len() > 0 && #[trigger] all_field_lines(hs) implies cs@ != field_block(
                        hs,
                    ) by {
                    if cs@ == field_block(hs) {
                        lemma_field_block_head(hs);
                        lemma_same_stop(cs@, 0, j as int, hs[0].len() as int, |ch| !is_break(ch));
                        let t = cs@.subrange(j as int, n as int);
                        lemma_all_field_lines_rest(hs);
                        assert(t =~= field_tail(hs.drop_first()) + Seq::<char>::empty());
                        lemma_no_field_line_in_empty();
                        lemma_no_field_line_shift(cs@, j as int, p as int);
                        assert(t.subrange(0, p - j) =~= cs@.subrange(j as int, p as int));
                        if lines.len() > 0 && p < n {
                            assert(t[p - j] == cs@[p as int]);
                        }
                        lemma_field_tail_forced(
                            t,
                            views(lines@),
                            hs.drop_first(),
                            Seq::<char>::empty(),
                        );
                    }
                }
            }
            return false;
        }
        proof {
            let first = cs@.subrange(0, j as int);
            let hs = seq![first] + views(lines@);
            assert(hs.drop_first() =~= views(lines@));
            assert(hs[0] == first);
            assert(cs@ =~= field_block(hs));
            assert(all_field_lines(hs)) by {
                assert forall|i: int| 0 <= i < hs.len() implies is_field_line(#[trigger] hs[i]) by {
                    if i > 0 {
                        assert(hs[i] == views(lines@)[i - 1]);
                    }
                }
            }
        }
        true
    }
}

proof fn lemma_no_field_line_in_empty()
    ensures
        no_field_line_at(Seq::<char>::empty(), 0),
{
    reveal(no_field_line_at);
}

proof fn lemma_field_block_head(hs: Seq<Seq<char>>)
    requires
        hs.len() > 0,
        all_field_lines(hs),
    ensures
        ({
            let s = field_block(hs);
            let e = hs[0].len() as int;
            &&& s.subrange(0, e) == hs[0]
            &&& forall|i: int| 0 <= i < e ==> !is_break(#[trigger] s[i])
            &&& (e == s.len() || is_break(s[e]))
            &&& s.subrange(e, s.len() as int) == field_tail(hs.drop_first())
        }),
{
    let s = field_block(hs);
    let e = hs[0].len() as int;
    lemma_field_line_is_text(hs[0]);
    assert(s.subrange(0, e) =~= hs[0]);
    assert(s.subrange(e, s.len() as int) =~= field_tail(hs.drop_first()));
    assert forall|i: int| 0 <= i < e implies !is_break(#[trigger] s[i]) by {
        assert(s[i] == hs[0][i]);
    }
    let rest = hs.drop_first();
    if rest.len() > 0 {
        assert(field_tail(rest) == crlf() + rest[0] + field_tail(rest.drop_first()));
        assert(s[e] == field_tail(rest)[0]);
    }
}

/// Where the parts of a request stand in its text.
pub proof fn lemma_request_split(r: RequestView)
    requires
        request_fits_grammar(r),
    ensures
        ({
            let s = request_text(r);
            let me = r.method.len() as int;
            let ue = me + 1 + r.uri.len();
            let ve = ue + 1 + r.version.len();
            &&& s.subrange(0, me) == r.method
            &&& s[me] == ' '
            &&& forall|i: int| 0 <= i < me ==> is_token_char(#[trigger] s[i])
            &&& s.subrange(me + 1, ue) == r.uri
            &&& s[ue] == ' '
            &&& forall|i: int| me + 1 <= i < ue ==> is_token_char(#[trigger] s[i])
            &&& s.subrange(ue + 1, ve) == r.version
            &&& forall|i: int| ue + 1 <= i < ve ==> is_token_char(#[trigger] s[i])
            &&& ve < s.len()
            &&& !is_token_char(s[ve])
            &&& s.subrange(ve, s.len() as int) == field_tail(r.headers) + crlf()
        }),
{
    let s = request_text(r);
    let me = r.method.len() as int;
    let ue = me + 1 + r.uri.len();
    let ve = ue + 1 + r.version.len();
    let tail = field_tail(r.headers) + crlf();
    assert(s =~= r.method + space() + r.uri + space() + r.version + tail);
    lemma_version_tokens(r.version);
    assert(s.subrange(0, me) =~= r.method);
    assert(s.subrange(me + 1, ue) =~= r.uri);
    assert(s.subrange(ue + 1, ve) =~= r.version);
    assert(s.subrange(ve, s.len() as int) =~= tail);
    assert forall|i: int| 0 <= i < me implies is_token_char(#[trigger] s[i]) by {
        assert(s[i] == r.method[i]);
    }
    assert forall|i: int| me + 1 <= i < ue implies is_token_char(#[trigger] s[i]) by {
        assert(s[i] == r.uri[i - me - 1]);
    }
    assert forall|i: int| ue + 1 <= i < ve implies is_token_char(#[trigger] s[i]) by {
        assert(s[i] == r.version[i - ue - 1]);
    }
    if r.headers.len() > 0 {
        assert(field_tail(r.headers) == crlf() + r.headers[0] + field_tail(
            r.headers.drop_first(),
        ));
        assert(s[ve] == field_tail(r.headers)[0]);
    } else {
        assert(s[ve] == crlf()[0]);
    }
}

pub proof fn lemma_no_field_line_before_blank(t: Seq<char>, p: int)
    requires
        0 <= p,
        p + 2 < t.len(),
        is_break(t[p + 2]),
    ensures
        no_field_line_at(t, p),
{
    reveal(no_field_line_at);
    if !no_field_line_at(t, p) {
        let j = choose|j: int|
            0 <= p && p + 2 < j <= t.len() && t[p] == '\r' && t[p + 1] == '\n'
                && #[trigger] is_field_line(t.subrange(p + 2, j)) && (j == t.len() || is_break(t[j]));
        lemma_field_line_is_text(t.subrange(p + 2, j));
        assert(t.subrange(p + 2, j)[0] == t[p + 2]);
    }
}

proof fn lemma_no_field_line_in_terminator()
    ensures
        no_field_line_at(crlf(), 0),
{
    reveal(no_field_line_at);
}

/// Entry points that parse whole messages.
pub struct Http;

impl Http {
    /// Parses a whole status line into version, status code and reason phrase.
    pub fn parse_status_line(text: &str) -> (r: Result<(String, String, String), ParseError>)
        ensures
            match r {
                Ok((v, c, m)) => status_parts_fit(v@, c@, m@) && text@ == status_line_text(
                    v@,
                    c@,
                    m@,
                ),
                Err(e) => {
                    &&& !is_status_line(text@)
                    &&& e.offset <= text@.len()
                    &&& (e.rule, e.offset as int) == status_line_only_error(text@)
                },
            },
    {
        let cs = chars_of(text);
        let n = cs.len();
        match scan_status_line(&cs) {
            Err(e) => {
                proof {
                    assert forall|v: Seq<char>, c: Seq<char>, m: Seq<char>|
                        #[trigger] status_parts_fit(v, c, m) implies text@ != status_line_text(
                            v,
                            c,
                            m,
                        ) by {
                        assert(status_line_text(v, c, m) =~= status_line_then(
                            v,
                            c,
                            m,
                            Seq::empty(),
                        ));
                    }
                }
                Err(e)
            },
            Ok((i1, i2, i3)) => {
                if i3 != n {
                    proof {
                        assert forall|v: Seq<char>, c: Seq<char>, m: Seq<char>|
                            #[trigger] status_parts_fit(v, c, m) implies text@ != status_line_text(
                                v,
                                c,
                                m,
                            ) by {
                            if text@ == status_line_text(v, c, m) {
                                assert(status_line_text(v, c, m) =~= status_line_then(
                                    v,
                                    c,
                                    m,
                                    Seq::empty(),
                                ));
                                lemma_status_split(v, c, m, Seq::empty());
                                lemma_same_stop(
                                    cs@,
                                    0,
                                    i1 as int,
                                    v.len() as int,
                                    |ch| is_token_char(ch),
                                );
                                lemma_same_stop(
                                    cs@,
                                    i1 + 1,
                                    i2 as int,
                                    (v.len() + 1 + c.len()) as int,
                                    |ch| is_token_char(ch),
                                );
                            }
                        }
                    }
                    return Err(ParseError { rule: Rule::StatusLine, offset: i3 });
                }
                let v = String::from_str(text.substring_char(0, i1));
                let c = String::from_str(text.substring_char(i1 + 1, i2));
                let m = String::from_str(text.substring_char(i2 + 1, i3));
                proof {
                    assert(text@ =~= status_line_text(v@, c@, m@));
                }
                Ok((v, c, m))
            },
        }
    }

    /// Parses a whole request.
    #[verifier::rlimit(100)]
    #[verifier::spinoff_prover]
    pub fn parse_request(http_request: &str) -> (r: Result<HttpRequest, ParseError>)
        ensures
            match r {
                Ok(req) => request_fits_grammar(req@) && request_text(req@) == http_request@,
                Err(e) => {
                    &&& !is_request_text(http_request@)
                    &&& e.offset <= http_request@.len()
                    &&& (e.rule, e.offset as int) == request_error(http_request@)
                },
            },
    {
        let text = http_request;
        let cs = chars_of(text);
        let n = cs.len();
        let i1 = scan_token(&cs, 0);
        let i2 = if i1 < n {
            scan_token(&cs, i1 + 1)
        } else {
            n
        };
        let i3 = if i2 < n {
            scan_token(&cs, i2 + 1)
        } else {
            n
        };
        let ghost w = choose|r: RequestView|
            #[trigger] request_fits_grammar(r) && request_text(r) == cs@;
        let ghost me = w.method.len() as int;
        let ghost ue = me + 1 + w.uri.len();
        let ghost ve = ue + 1 + w.version.len();
        proof {
            if is_request_text(cs@) {
                lemma_request_split(w);
                lemma_same_stop(cs@, 0, i1 as int, me, |ch| is_token_char(ch));
                lemma_same_stop(cs@, me + 1, i2 as int, ue, |ch| is_token_char(ch));
                lemma_same_stop(cs@, ue + 1, i3 as int, ve, |ch| is_token_char(ch));
            }
        }
        if !(i1 < n && cs[i1] == ' ') {
            return Err(ParseError { rule: Rule::Request, offset: i1 });
        }
        if !check_method(&cs, 0, i1) {
            return Err(ParseError { rule: Rule::Method, offset: 0 });
        }
        if !(i2 < n && cs[i2] == ' ') {
            return Err(ParseError { rule: Rule::Request, offset: i2 });
        }
        if !check_uri(&cs, i1 + 1, i2) {
            return Err(ParseError { rule: Rule::Uri, offset: i1 + 1 });
        }
        if !check_version(&cs, i2 + 1, i3) {
            return Err(ParseError { rule: Rule::Version, offset: i2 + 1 });
        }
        let (lines, p) = field_run(text, &cs, i3);
        proof {
            if is_request_text(cs@) {
                let t = cs@.subrange(i3 as int, n as int);
                lemma_no_field_line_in_terminator();
                lemma_no_field_line_shift(cs@, i3 as int, p as int);
                assert(t.subrange(0, p - i3) =~= cs@.subrange(i3 as int, p as int));
                if lines.len() > 0 && p < n {
                    assert(t[p - i3] == cs@[p as int]);
                }
                lemma_field_tail_forced(t, views(lines@), w.headers, crlf());
                assert(cs@[p as int] == t[p - i3]);
                assert(cs@[p + 1] == t[p - i3 + 1]);
            }
        }
        if !(n - p == 2 && cs[p] == '\r' && cs[p + 1] == '\n') {
            return Err(ParseError { rule: Rule::Request, offset: p });
        }
        let mut req = HttpRequest::new();
        req.set_method(text.substring_char(0, i1));
        req.set_uri(text.substring_char(i1 + 1, i2));
        req.set_version(text.substring_char(i2 + 1, i3));
        req.append_fields(&lines);
        proof {
            assert(req@.headers =~= views(lines@));
            assert(cs@.subrange(p as int, n as int) =~= crlf());
            assert(cs@ =~= cs@.subrange(0, i1 as int) + space() + cs@.subrange(i1 + 1, i2 as int)
                + space() + cs@.subrange(i2 + 1, i3 as int) + cs@.subrange(i3 as int, p as int)
                + cs@.subrange(p as int, n as int));
        }
        Ok(req)
    }

    /// Parses a whole response.
    #[verifier::rlimit(100)]
    #[verifier::spinoff_prover]
    pub fn parse_response(http_response: &str) -> (r: Result<HttpResponse, ParseError>)
        ensures
            match r {
                Ok(resp) => response_fits_grammar(resp@) && response_wire(resp@)
                    == http_response@,
                Err(e) => {
                    &&& !is_response_text(http_response@)
                    &&& e.offset <= http_response@.len()
                    &&& (e.rule, e.offset as int) == response_error(http_response@)
                },
            },
    {
        let text = http_response;
        let cs = chars_of(text);
        let n = cs.len();
        let ghost w = choose|r: ResponseView|
            #[trigger] response_fits_grammar(r) && response_wire(r) == cs@;
        let ghost y = field_tail(w.headers) + crlf() + crlf() + w.body;
        proof {
            if is_response_text(cs@) {
                assert(field_tail(w.headers) == crlf() + w.headers[0] + field_tail(
                    w.headers.drop_first(),
                ));
                assert(y[0] == '\r');
                assert(cs@ =~= status_line_then(w.version, w.status, w.message, y));
            }
        }
        let (i1, i2, i3) = match scan_status_line(&cs) {
            Ok(t) => t,
            Err(e) => {
                return Err(e);
            },
        };
        let ghost ve = w.version.len() as int;
        let ghost ce = ve + 1 + w.status.len();
        let ghost me = ce + 1 + w.message.len();
        proof {
            if is_response_text(cs@) {
                lemma_status_split(w.version, w.status, w.message, y);
                lemma_version_tokens(cs@.subrange(0, i1 as int));
                assert forall|i: int| 0 <= i < i1 implies is_token_char(#[trigger] cs@[i]) by {
                    assert(cs@[i] == cs@.subrange(0, i1 as int)[i]);
                }
                lemma_same_stop(cs@, 0, i1 as int, ve, |ch| is_token_char(ch));
                assert forall|i: int| i1 + 1 <= i < i2 implies is_token_char(#[trigger] cs@[i]) by {
                    assert(cs@[i] == cs@.subrange(i1 + 1, i2 as int)[i - i1 - 1]);
                }
                lemma_same_stop(cs@, i1 + 1, i2 as int, ce, |ch| is_token_char(ch));
                assert forall|i: int| i2 + 1 <= i < i3 implies !is_break(#[trigger] cs@[i]) by {
                    assert(cs@[i] == cs@.subrange(i2 + 1, i3 as int)[i - i2 - 1]);
                }
                lemma_same_stop(cs@, i2 + 1, i3 as int, me, |ch| !is_break(ch));
            }
        }
        let (lines, p) = field_run(text, &cs, i3);
        proof {
            if is_response_text(cs@) {
                let t = cs@.subrange(i3 as int, n as int);
                let x = crlf() + crlf() + w.body;
                assert(t =~= field_tail(w.headers) + x);
                assert(x[2] == '\r');
                lemma_no_field_line_before_blank(x, 0);
                lemma_no_field_line_shift(cs@, i3 as int, p as int);
                assert(t.subrange(0, p - i3) =~= cs@.subrange(i3 as int, p as int));
                if lines.len() > 0 && p < n {
                    assert(t[p - i3] == cs@[p as int]);
                }
                lemma_field_tail_forced(t, views(lines@), w.headers, x);
                assert(cs@[p as int] == t[p - i3]);
                assert(cs@[p + 1] == t[p - i3 + 1]);
                assert(cs@[p + 2] == t[p - i3 + 2]);
                assert(cs@[p + 3] == t[p - i3 + 3]);
            }
        }
        if !(lines.len() > 0 && n - p >= 4 && cs[p] == '\r' && cs[p + 1] == '\n' && cs[p + 2]
            == '\r' && cs[p + 3] == '\n') {
            return Err(ParseError { rule: Rule::Response, offset: p });
        }
        let mut resp = HttpResponse::new();
        resp.set_version(text.substring_char(0, i1));
        resp.set_status_code(text.substring_char(i1 + 1, i2));
        resp.set_message(text.substring_char(i2 + 1, i3));
        resp.append_fields(&lines);
        resp.set_body(text.substring_char(p + 4, n));
        proof {
            assert(resp@.headers =~= views(lines@));
            assert(cs@.subrange(p as int, p + 4) =~= crlf() + crlf());
            assert(cs@ =~= cs@.subrange(0, i1 as int) + space() + cs@.subrange(i1 + 1, i2 as int)
                + space() + cs@.subrange(i2 + 1, i3 as int) + cs@.subrange(i3 as int, p as int)
                + cs@.subrange(p as int, p + 4) + cs@.subrange(p + 4, n as int));
        }
        Ok(resp)
    }
}

/// Setting a response's version, status code and reason phrase from one status line.
pub trait SetStatusLine: Sized {
    /// `self` is `prior` with its version, status code and reason phrase replaced.
    spec fn status_line_replaced(
        &self,
        prior: &Self,
        version: Seq<char>,
        status: Seq<char>,
        message: Seq<char>,
    ) -> bool;

    /// Parses `status` as a whole status line and applies its parts; on
    /// failure the value is left as it was.
    fn set_status_line(&mut self, status: &str) -> (r: Result<&mut Self, ParseError>)
        ensures
            match r {
                Ok(s) => {
                    &&& exists|v: Seq<char>, c: Seq<char>, m: Seq<char>|
                        #[trigger] status_parts_fit(v, c, m) && status@ == status_line_text(v, c, m)
                            && s.status_line_replaced(old(self), v, c, m)
                    &&& *final(self) == *final(s)
                },
                Err(e) => {
                    &&& !is_status_line(status@)
                    &&& e.offset <= status@.len()
                    &&& (e.rule, e.offset as int) == status_line_only_error(status@)
                    &&& *final(self) == *old(self)
                },
            },
    ;
}

impl SetStatusLine for HttpResponse {
    open spec fn status_line_replaced(
        &self,
        prior: &Self,
        version: Seq<char>,
        status: Seq<char>,
        message: Seq<char>,
    ) -> bool {
        self@ == ResponseView { version, status, message, ..prior@ }
    }

    fn set_status_line(&mut self, status: &str) -> (r: Result<&mut Self, ParseError>) {
        match Http::parse_status_line(status) {
            Ok((v, c, m)) => {
                self.set_version(v.as_str());
                self.set_status_code(c.as_str());
                self.set_message(m.as_str());
                Ok(self)
            },
            Err(e) => Err(e),
        }
    }
}

impl HttpRequest {
    /// Each token matches its rule and each header line is a field line.
    pub fn is_valid(&self) -> (r: bool)
        ensures
            r == request_fits_grammar(self@),
    {
        if !(HttpParser::accepts(Rule::Method, self.method())
            && HttpParser::accepts(Rule::Uri, self.uri())
            && HttpParser::accepts(Rule::Version, self.version())) {
            return false;
        }
        all_lines_fit(self.headers())
    }
}

impl HttpResponse {
    /// The status line's parts match their rules and there are one or more
    /// header lines, each a field line.
    pub fn is_valid(&self) -> (r: bool)
        ensures
            r == response_fits_grammar(self@),
    {
        if !(HttpParser::accepts(Rule::Version, self.version())
            && HttpParser::accepts(Rule::StatusCode, self.status_code())
            && HttpParser::accepts(Rule::StatusMessage, self.message())
            && self.headers().len() > 0) {
            return false;
        }
        all_lines_fit(self.headers())
    }
}

fn all_lines_fit(lines: &Vec<String>) -> (r: bool)
    ensures
        r == all_field_lines(views(lines@)),
{
    let mut i: usize = 0;
    while i < lines.len()
        invariant
            i <= lines.len(),
            forall|k: int| 0 <= k < i ==> is_field_line(#[trigger] views(lines@)[k]),
        decreases lines.len() - i,
    {
        if !HttpParser::accepts(Rule::FieldLine, lines[i].as_str()) {
            assert(views(lines@)[i as int] == lines@[i as int]@);
            return false;
        }
        i = i + 1;
    }
    true
}

} // verus!
