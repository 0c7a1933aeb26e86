//! The request and response values, their wire text, and their builders.
use vstd::prelude::*;
use crate::grammar::{
    all_field_lines, crlf, field_tail, is_digits, is_method, is_reason, is_uri, is_version, space,
    lemma_field_tail_push,
};
use crate::lexer::views;

verus! {

broadcast use vstd::string::group_string_axioms;

/// What a request holds: three tokens and its header lines, in order.
pub struct RequestView {
    pub method: Seq<char>,
    pub uri: Seq<char>,
    pub version: Seq<char>,
    pub headers: Seq<Seq<char>>,
}

/// What a response holds: its status line's three parts, its header lines in
/// order, and its body.
pub struct ResponseView {
    pub version: Seq<char>,
    pub status: Seq<char>,
    pub message: Seq<char>,
    pub headers: Seq<Seq<char>>,
    pub body: Seq<char>,
}

/// `method uri version`, without a terminator.
pub open spec fn request_start(r: RequestView) -> Seq<char> {
    r.method + space() + r.uri + space() + r.version
}

/// The request as the request grammar spells it: the start line, each header
/// after a terminator, and a final terminator.
pub open spec fn request_text(r: RequestView) -> Seq<char> {
    request_start(r) + field_tail(r.headers) + crlf()
}

/// The rendered request: a trailing terminator only when there are no headers.
pub open spec fn request_wire(r: RequestView) -> Seq<char> {
    if r.headers.len() == 0 {
        request_start(r) + crlf()
    } else {
        request_start(r) + field_tail(r.headers)
    }
}

/// Each token matches its rule and each header is a field line.
pub open spec fn request_fits_grammar(r: RequestView) -> bool {
    &&& is_method(r.method)
    &&& is_uri(r.uri)
    &&& is_version(r.version)
    &&& all_field_lines(r.headers)
}

/// The texts that the request grammar matches whole.
pub open spec fn is_request_text(s: Seq<char>) -> bool {
    exists|r: RequestView| #[trigger] request_fits_grammar(r) && request_text(r) == s
}

pub open spec fn status_line_text(version: Seq<char>, status: Seq<char>, message: Seq<char>) -> Seq<
    char,
> {
    version + space() + status + space() + message
}

pub open spec fn status_parts_fit(version: Seq<char>, status: Seq<char>, message: Seq<char>) -> bool {
    is_version(version) && is_digits(status) && is_reason(message)
}

/// The texts that the status-line rule matches whole.
pub open spec fn is_status_line(s: Seq<char>) -> bool {
    exists|v: Seq<char>, c: Seq<char>, m: Seq<char>|
        #[trigger] status_parts_fit(v, c, m) && s == status_line_text(v, c, m)
}

/// The rendered response: the status line, each header after a terminator, a
/// blank line, then the body.
pub open spec fn response_wire(r: ResponseView) -> Seq<char> {
    status_line_text(r.version, r.status, r.message) + field_tail(r.headers) + crlf() + crlf()
        + r.body
}

/// The status line's parts match their rules, and there are one or more
/// header lines, each a field line.
pub open spec fn response_fits_grammar(r: ResponseView) -> bool {
    &&& status_parts_fit(r.version, r.status, r.message)
    &&& r.headers.len() > 0
    &&& all_field_lines(r.headers)
}

/// The texts that the response grammar matches whole.
pub open spec fn is_response_text(s: Seq<char>) -> bool {
    exists|r: ResponseView| #[trigger] response_fits_grammar(r) && response_wire(r) == s
}

/// An HTTP request: method, URI, version and header lines.
#[derive(Debug, Clone, PartialEq, Eq)]
pub struct HttpRequest {
    method: String,
    uri: String,
    version: String,
    headers: Vec<String>,
}

impl View for HttpRequest {
    type V = RequestView;

    closed spec fn view(&self) -> RequestView {
        RequestView {
            method: self.method@,
            uri: self.uri@,
            version: self.version@,
            headers: views(self.headers@),
        }
    }
}

/// Appends each line after a terminator.
fn append_lines(out: &mut String, lines: &Vec<String>)
    ensures
        final(out)@ == old(out)@ + field_tail(views(lines@)),
{
    let mut i: usize = 0;
    assert(views(lines@.take(0)) =~= Seq::<Seq<char>>::empty());
    assert(out@ =~= old(out)@ + field_tail(views(lines@.take(0))));
    while i < lines.len()
        invariant
            i <= lines.len(),
            out@ == old(out)@ + field_tail(views(lines@.take(i as int))),
        decreases lines.len() - i,
    {
        proof {
            lemma_field_tail_push(views(lines@.take(i as int)), lines@[i as int]@);
            assert(views(lines@.take(i + 1)) =~= views(lines@.take(i as int)).push(
                lines@[i as int]@,
            ));
        }
        let ghost before = out@;
        out.append("\r\n");
        out.append(lines[i].as_str());
        proof {
            reveal_strlit("\r\n");
        }
        assert("\r\n"@ =~= crlf());
        assert(out@ =~= before + crlf() + lines@[i as int]@);
        i = i + 1;
    }
    assert(lines@.take(lines.len() as int) =~= lines@);
}

impl HttpRequest {
    /// A request with every field empty.
    pub fn new() -> (r: HttpRequest)
        ensures
            r@ == (RequestView {
                method: Seq::empty(),
                uri: Seq::empty(),
                version: Seq::empty(),
                headers: Seq::empty(),
            }),
    {
        let r = HttpRequest {
            method: String::new(),
            uri: String::new(),
            version: String::new(),
            headers: Vec::new(),
        };
        assert(r@.headers =~= Seq::<Seq<char>>::empty());
        r
    }

    pub fn set_method(&mut self, method: &str) -> (r: &mut HttpRequest)
        ensures
            r@ == (RequestView { method: method@, ..old(self)@ }),
            *final(self) == *final(r),
    {
        self.method = String::from_str(method);
        self
    }

    pub fn set_uri(&mut self, uri: &str) -> (r: &mut HttpRequest)
        ensures
            r@ == (RequestView { uri: uri@, ..old(self)@ }),
            *final(self) == *final(r),
    {
        self.uri = String::from_str(uri);
        self
    }

    pub fn set_version(&mut self, version: &str) -> (r: &mut HttpRequest)
        ensures
            r@ == (RequestView { version: version@, ..old(self)@ }),
            *final(self) == *final(r),
    {
        self.version = String::from_str(version);
        self
    }

    /// Appends one header line.
    pub fn push_field_line(&mut self, line: &str) -> (r: &mut HttpRequest)
        ensures
            r@ == (RequestView { headers: old(self)@.headers.push(line@), ..old(self)@ }),
            *final(self) == *final(r),
    {
        let ghost before = self.headers@;
        self.headers.push(String::from_str(line));
        assert(views(self.headers@) =~= views(before).push(line@));
        self
    }

    /// Appends the header lines in order.
    pub fn append_fields(&mut self, lines: &Vec<String>) -> (r: &mut HttpRequest)
        ensures
            r@ == (RequestView { headers: old(self)@.headers + views(lines@), ..old(self)@ }),
            *final(self) == *final(r),
    {
        let ghost before = self.headers@;
        let mut i: usize = 0;
        while i < lines.len()
            invariant
                i <= lines.len(),
                self.method == old(self).method,
                self.uri == old(self).uri,
                self.version == old(self).version,
                views(self.headers@) == views(before) + views(lines@.take(i as int)),
            decreases lines.len() - i,
        {
            let line = lines[i].clone();
            let ghost prev = self.headers@;
            self.headers.push(line);
            assert(views(prev.push(line)) =~= views(prev).push(line@));
            assert(views(lines@.take(i + 1)) =~= views(lines@.take(i as int)).push(
                lines@[i as int]@,
            ));
            assert(views(self.headers@) =~= views(before) + views(lines@.take(i + 1)));
            i = i + 1;
        }
        assert(lines@.take(lines.len() as int) =~= lines@);
        self
    }

    pub fn method(&self) -> (r: &str)
        ensures
            r@ == self@.method,
    {
        self.method.as_str()
    }

    pub fn uri(&self) -> (r: &str)
        ensures
            r@ == self@.uri,
    {
        self.uri.as_str()
    }

    pub fn version(&self) -> (r: &str)
        ensures
            r@ == self@.version,
    {
        self.version.as_str()
    }

    pub fn headers(&self) -> (r: &Vec<String>)
        ensures
            views(r@) == self@.headers,
    {
        &self.headers
    }

    /// Method, URI and version are all non-empty; headers are not needed.
    pub fn is_complete(&self) -> (r: bool)
        ensures
            r == (self@.method.len() > 0 && self@.uri.len() > 0 && self@.version.len() > 0),
    {
        self.method.as_str().unicode_len() > 0 && self.uri.as_str().unicode_len() > 0
            && self.version.as_str().unicode_len() > 0
    }

    /// The request as wire text. A request without headers ends in a line
    /// terminator; one with headers ends with its last header line, so the
    /// request grammar takes it back only after a terminator is appended.
    pub fn render(&self) -> (r: String)
        ensures
            r@ == request_wire(self@),
    {
        proof {
            reveal_strlit(" ");
            reveal_strlit("\r\n");
        }
        let mut out = String::from_str(self.method.as_str());
        out.append(" ");
        out.append(self.uri.as_str());
        out.append(" ");
        out.append(self.version.as_str());
        if self.headers.len() == 0 {
            out.append("\r\n");
        } else {
            append_lines(&mut out, &self.headers);
        }
        out
    }
}

/// An HTTP response: status line parts, header lines and body.
#[derive(Debug, Clone, PartialEq, Eq)]
pub struct HttpResponse {
    version: String,
    status: String,
    message: String,
    headers: Vec<String>,
    body: String,
}

impl View for HttpResponse {
    type V = ResponseView;

    closed spec fn view(&self) -> ResponseView {
        ResponseView {
            version: self.version@,
            status: self.status@,
            message: self.message@,
            headers: views(self.headers@),
            body: self.body@,
        }
    }
}

impl HttpResponse {
    /// A response with every field empty.
    pub fn new() -> (r: HttpResponse)
        ensures
            r@ == (ResponseView {
                version: Seq::empty(),
                status: Seq::empty(),
                message: Seq::empty(),
                headers: Seq::empty(),
                body: Seq::empty(),
            }),
    {
        let r = HttpResponse {
            version: String::new(),
            status: String::new(),
            message: String::new(),
            headers: Vec::new(),
            body: String::new(),
        };
        assert(r@.headers =~= Seq::<Seq<char>>::empty());
        r
    }

    pub fn set_version(&mut self, version: &str) -> (r: &mut HttpResponse)
        ensures
            r@ == (ResponseView { version: version@, ..old(self)@ }),
            *final(self) == *final(r),
    {
        self.version = String::from_str(version);
        self
    }

    pub fn set_status_code(&mut self, status: &str) -> (r: &mut HttpResponse)
        ensures
            r@ == (ResponseView { status: status@, ..old(self)@ }),
            *final(self) == *final(r),
    {
        self.status = String::from_str(status);
        self
    }

    pub fn set_message(&mut self, message: &str) -> (r: &mut HttpResponse)
        ensures
            r@ == (ResponseView { message: message@, ..old(self)@ }),
            *final(self) == *final(r),
    {
        self.message = String::from_str(message);
        self
    }

    pub fn set_body(&mut self, body: &str) -> (r: &mut HttpResponse)
        ensures
            r@ == (ResponseView { body: body@, ..old(self)@ }),
            *final(self) == *final(r),
    {
        self.body = String::from_str(body);
        self
    }

    /// Appends one header line.
    pub fn push_field_line(&mut self, line: &str) -> (r: &mut HttpResponse)
        ensures
            r@ == (ResponseView { headers: old(self)@.headers.push(line@), ..old(self)@ }),
            *final(self) == *final(r),
    {
        let ghost before = self.headers@;
        self.headers.push(String::from_str(line));
        assert(views(self.headers@) =~= views(before).push(line@));
        self
    }

    /// Appends the header lines in order.
    pub fn append_fields(&mut self, lines: &Vec<String>) -> (r: &mut HttpResponse)
        ensures
            r@ == (ResponseView { headers: old(self)@.headers + views(lines@), ..old(self)@ }),
            *final(self) == *final(r),
    {
        let ghost before = self.headers@;
        let mut i: usize = 0;
        while i < lines.len()
            invariant
                i <= lines.len(),
                self.version == old(self).version,
                self.status == old(self).status,
                self.message == old(self).message,
                self.body == old(self).body,
                views(self.headers@) == views(before) + views(lines@.take(i as int)),
            decreases lines.len() - i,
        {
            let line = lines[i].clone();
            let ghost prev = self.headers@;
            self.headers.push(line);
            assert(views(prev.push(line)) =~= views(prev).push(line@));
            assert(views(lines@.take(i + 1)) =~= views(lines@.take(i as int)).push(
                lines@[i as int]@,
            ));
            assert(views(self.headers@) =~= views(before) + views(lines@.take(i + 1)));
            i = i + 1;
        }
        assert(lines@.take(lines.len() as int) =~= lines@);
        self
    }

    pub fn version(&self) -> (r: &str)
        ensures
            r@ == self@.version,
    {
        self.version.as_str()
    }

    pub fn status_code(&self) -> (r: &str)
        ensures
            r@ == self@.status,
    {
        self.status.as_str()
    }

    pub fn message(&self) -> (r: &str)
        ensures
            r@ == self@.message,
    {
        self.message.as_str()
    }

    pub fn headers(&self) -> (r: &Vec<String>)
        ensures
            views(r@) == self@.headers,
    {
        &self.headers
    }

    pub fn body(&self) -> (r: &str)
        ensures
            r@ == self@.body,
    {
        self.body.as_str()
    }

    /// Version, status and message are non-empty, there is at least one
    /// header line, and the body is non-empty. This deliberately strict rule
    /// counts a response without headers or without a body (such as
    /// `204 No Content`) as incomplete.
    pub fn is_complete(&self) -> (r: bool)
        ensures
            r == (self@.version.len() > 0 && self@.status.len() > 0 && self@.message.len() > 0
                && self@.headers.len() > 0 && self@.body.len() > 0),
    {
        self.version.as_str().unicode_len() > 0 && self.status.as_str().unicode_len() > 0
            && self.message.as_str().unicode_len() > 0 && self.headers.len() > 0
            && self.body.as_str().unicode_len() > 0
    }

    /// The response as wire text.
    pub fn render(&self) -> (r: String)
        ensures
            r@ == response_wire(self@),
    {
        proof {
            reveal_strlit(" ");
            reveal_strlit("\r\n\r\n");
        }
        let mut out = String::from_str(self.version.as_str());
        out.append(" ");
        out.append(self.status.as_str());
        out.append(" ");
        out.append(self.message.as_str());
        append_lines(&mut out, &self.headers);
        out.append("\r\n\r\n");
        out.append(self.body.as_str());
        assert(out@ =~= response_wire(self@));
        out
    }
}

} // verus!
