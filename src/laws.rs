//! Properties that relate parsing, rendering and the builders.
use vstd::prelude::*;
use crate::grammar::{
    all_field_lines, crlf, field_tail, is_break, is_token_char, lemma_field_line_is_text,
    lemma_field_tail_forced, lemma_field_tail_push, no_field_line_at,
};
use crate::message::{
    is_request_text, is_response_text, request_fits_grammar, request_text, request_wire, response_fits_grammar,
    response_wire, status_line_text, status_parts_fit, RequestView, ResponseView,
};
use crate::parser::{
    lemma_no_field_line_before_blank, lemma_request_split, lemma_same_stop, lemma_status_split,
    status_line_then,
};

verus! {

/// Header lines are recovered from their text: two runs of field lines with
/// the same text are the same lines.
pub proof fn lemma_field_tail_injective(h1: Seq<Seq<char>>, h2: Seq<Seq<char>>)
    requires
        all_field_lines(h1),
        all_field_lines(h2),
        field_tail(h1) == field_tail(h2),
    ensures
        h1 == h2,
{
    let t = field_tail(h2);
    assert(t =~= field_tail(h2) + Seq::<char>::empty());
    assert(t.subrange(0, field_tail(h1).len() as int) =~= field_tail(h1));
    assert(no_field_line_at(Seq::<char>::empty(), 0)) by {
        reveal(no_field_line_at);
    }
    assert(no_field_line_at(t, t.len() as int)) by {
        reveal(no_field_line_at);
    }
    lemma_field_tail_forced(t, h1, h2, Seq::<char>::empty());
}

/// A request is recovered from its text: two requests that fit the grammar and
/// have the same text are the same request.
pub proof fn lemma_request_text_injective(r1: RequestView, r2: RequestView)
    requires
        request_fits_grammar(r1),
        request_fits_grammar(r2),
        request_text(r1) == request_text(r2),
    ensures
        r1 == r2,
{
    let s = request_text(r1);
    lemma_request_split(r1);
    lemma_request_split(r2);
    let m1 = r1.method.len() as int;
    let m2 = r2.method.len() as int;
    lemma_same_stop(s, 0, m1, m2, |ch| is_token_char(ch));
    let u1 = m1 + 1 + r1.uri.len();
    let u2 = m2 + 1 + r2.uri.len();
    lemma_same_stop(s, m1 + 1, u1, u2, |ch| is_token_char(ch));
    let v1 = u1 + 1 + r1.version.len();
    let v2 = u2 + 1 + r2.version.len();
    lemma_same_stop(s, u1 + 1, v1, v2, |ch| is_token_char(ch));
    let tail = s.subrange(v1, s.len() as int);
    assert(field_tail(r1.headers) =~= tail.subrange(0, tail.len() - 2));
    assert(field_tail(r2.headers) =~= tail.subrange(0, tail.len() - 2));
    lemma_field_tail_injective(r1.headers, r2.headers);
}

/// Rendering a request that fits the grammar and has no header lines, then
/// parsing the text, gives the same request back: the text is a request text,
/// and the one request that fits the grammar and spells it is the request
/// that was rendered.
pub proof fn law_request_round_trip(r: RequestView)
    requires
        request_fits_grammar(r),
        r.headers.len() == 0,
    ensures
        is_request_text(request_wire(r)),
        forall|r2: RequestView|
            request_fits_grammar(r2) && #[trigger] request_text(r2) == request_wire(r) ==> r2 == r,
{
    assert(field_tail(r.headers) =~= Seq::<char>::empty());
    assert(request_text(r) =~= request_wire(r));
    assert forall|r2: RequestView|
        request_fits_grammar(r2) && #[trigger] request_text(r2) == request_wire(r) implies r2
        == r by {
        lemma_request_text_injective(r2, r);
    }
}

/// A request with header lines renders without a final terminator, which the
/// request grammar asks for: the rendered text is refused as it stands, and
/// with one terminator appended it parses back to the same request.
pub proof fn law_request_with_headers_round_trip(r: RequestView)
    requires
        request_fits_grammar(r),
        r.headers.len() > 0,
    ensures
        !is_request_text(request_wire(r)),
        request_wire(r) + crlf() == request_text(r),
        forall|r2: RequestView|
            request_fits_grammar(r2) && #[trigger] request_text(r2) == request_wire(r) + crlf()
                ==> r2 == r,
{
    let w = request_wire(r);
    let h = r.headers;
    let last = h[h.len() - 1];
    assert(h =~= h.drop_last().push(last));
    lemma_field_tail_push(h.drop_last(), last);
    lemma_field_line_is_text(last);
    assert(w[w.len() - 1] == last[last.len() - 1]);
    assert(request_wire(r) + crlf() =~= request_text(r));
    if is_request_text(w) {
        let r2 = choose|r2: RequestView| #[trigger] request_fits_grammar(r2) && request_text(r2) == w;
        assert(request_text(r2)[w.len() - 1] == '\n');
    }
    assert forall|r2: RequestView|
        request_fits_grammar(r2) && #[trigger] request_text(r2) == request_wire(r) + crlf() implies r2
        == r by {
        lemma_request_text_injective(r2, r);
    }
}

/// A status line has one split into parts: two sets of parts that fit the
/// grammar and spell the same line are the same parts. Setting a status line
/// on a response and parsing the same line alone both state their result
/// through such parts, so they agree on version, status code and message.
pub proof fn law_status_line_parts_unique(
    v1: Seq<char>,
    c1: Seq<char>,
    m1: Seq<char>,
    v2: Seq<char>,
    c2: Seq<char>,
    m2: Seq<char>,
)
    requires
        status_parts_fit(v1, c1, m1),
        status_parts_fit(v2, c2, m2),
        status_line_text(v1, c1, m1) == status_line_text(v2, c2, m2),
    ensures
        v1 == v2,
        c1 == c2,
        m1 == m2,
{
    assert(status_line_text(v1, c1, m1) =~= status_line_then(v1, c1, m1, Seq::empty()));
    assert(status_line_text(v2, c2, m2) =~= status_line_then(v2, c2, m2, Seq::empty()));
    lemma_status_parts_forced(v1, c1, m1, Seq::empty(), v2, c2, m2, Seq::empty());
}

proof fn lemma_status_parts_forced(
    v1: Seq<char>,
    c1: Seq<char>,
    m1: Seq<char>,
    y1: Seq<char>,
    v2: Seq<char>,
    c2: Seq<char>,
    m2: Seq<char>,
    y2: Seq<char>,
)
    requires
        status_parts_fit(v1, c1, m1),
        status_parts_fit(v2, c2, m2),
        y1.len() == 0 || is_break(y1[0]),
        y2.len() == 0 || is_break(y2[0]),
        status_line_then(v1, c1, m1, y1) == status_line_then(v2, c2, m2, y2),
    ensures
        v1 == v2,
        c1 == c2,
        m1 == m2,
        y1 == y2,
{
    let s = status_line_then(v1, c1, m1, y1);
    lemma_status_split(v1, c1, m1, y1);
    lemma_status_split(v2, c2, m2, y2);
    let e1 = v1.len() as int;
    let e2 = v2.len() as int;
    lemma_same_stop(s, 0, e1, e2, |ch| is_token_char(ch));
    let d1 = e1 + 1 + c1.len();
    let d2 = e2 + 1 + c2.len();
    lemma_same_stop(s, e1 + 1, d1, d2, |ch| is_token_char(ch));
    let f1 = d1 + 1 + m1.len();
    let f2 = d2 + 1 + m2.len();
    lemma_same_stop(s, d1 + 1, f1, f2, |ch| !is_break(ch));
}

/// Rendering a response that fits the grammar, then parsing the text, gives
/// the same response back: the text is a response text, and the one response
/// that fits the grammar and renders to it is the response that was rendered.
pub proof fn law_response_round_trip(r: ResponseView)
    requires
        response_fits_grammar(r),
    ensures
        is_response_text(response_wire(r)),
        forall|r2: ResponseView|
            response_fits_grammar(r2) && #[trigger] response_wire(r2) == response_wire(r) ==> r2
                == r,
{
    assert forall|r2: ResponseView|
        response_fits_grammar(r2) && #[trigger] response_wire(r2) == response_wire(r) implies r2
        == r by {
        lemma_response_wire_injective(r, r2);
    }
}

/// A response is recovered from its text: two responses that fit the grammar
/// and render to the same text are the same response.
pub proof fn lemma_response_wire_injective(r: ResponseView, r2: ResponseView)
    requires
        response_fits_grammar(r),
        response_fits_grammar(r2),
        response_wire(r2) == response_wire(r),
    ensures
        r2 == r,
{
    let x1 = crlf() + crlf() + r.body;
    let x2 = crlf() + crlf() + r2.body;
    let y1 = field_tail(r.headers) + x1;
    let y2 = field_tail(r2.headers) + x2;
    assert(field_tail(r.headers) == crlf() + r.headers[0] + field_tail(r.headers.drop_first()));
    assert(field_tail(r2.headers) == crlf() + r2.headers[0] + field_tail(
        r2.headers.drop_first(),
    ));
    assert(y1[0] == '\r');
    assert(y2[0] == '\r');
    assert(response_wire(r) =~= status_line_then(r.version, r.status, r.message, y1));
    assert(response_wire(r2) =~= status_line_then(r2.version, r2.status, r2.message, y2));
    lemma_status_parts_forced(r.version, r.status, r.message, y1, r2.version, r2.status, r2.message, y2);
    let p = field_tail(r.headers).len() as int;
    assert(y2.subrange(0, p) =~= field_tail(r.headers));
    assert(x1[2] == '\r');
    assert(x2[2] == '\r');
    assert(y2[p + 2] == x1[2]);
    lemma_no_field_line_before_blank(y2, p);
    lemma_no_field_line_before_blank(x2, 0);
    assert(y2[p] == x1[0]);
    lemma_field_tail_forced(y2, r.headers, r2.headers, x2);
    assert(r.body =~= y1.subrange(p + 4, y1.len() as int));
    assert(r2.body =~= y2.subrange(p + 4, y2.len() as int));
}

} // verus!
