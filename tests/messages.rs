use http_parser::{Http, HttpRequest, HttpResponse, Rule, SetStatusLine};

#[test]
fn parse_simple_request() {
    let req = Http::parse_request("GET / HTTP/1.1\r\n").unwrap();
    assert_eq!(req.method(), "GET");
    assert_eq!(req.uri(), "/");
    assert_eq!(req.version(), "HTTP/1.1");
    assert!(req.headers().is_empty());
    assert_eq!(req.render(), "GET / HTTP/1.1\r\n");
}

#[test]
fn parse_request_with_headers() {
    let text = "POST /form HTTP/1.1\r\nHost: example.org\r\nContent-Length: 0\r\n";
    let req = Http::parse_request(text).unwrap();
    assert_eq!(req.method(), "POST");
    assert_eq!(req.uri(), "/form");
    assert_eq!(
        req.headers().clone(),
        vec!["Host: example.org".to_string(), "Content-Length: 0".to_string()]
    );
    assert_eq!(
        req.render(),
        "POST /form HTTP/1.1\r\nHost: example.org\r\nContent-Length: 0"
    );
}

#[test]
fn request_errors() {
    let e = Http::parse_request("get / HTTP/1.1\r\n").unwrap_err();
    assert_eq!(e.rule, Rule::Method);
    assert_eq!(e.offset, 0);
    let e = Http::parse_request("GET index HTTP/1.1\r\n").unwrap_err();
    assert_eq!(e.rule, Rule::Uri);
    assert_eq!(e.offset, 4);
    let e = Http::parse_request("GET / HTTP/1\r\n").unwrap_err();
    assert_eq!(e.rule, Rule::Version);
    assert_eq!(e.offset, 6);
    let e = Http::parse_request("GET /\r\n").unwrap_err();
    assert_eq!(e.rule, Rule::Request);
    assert_eq!(e.offset, 5);
    let e = Http::parse_request("GET / HTTP/1.1").unwrap_err();
    assert_eq!(e.rule, Rule::Request);
    assert_eq!(e.offset, 14);
    assert!(Http::parse_request("").is_err());
    assert!(Http::parse_request("GET / HTTP/1.1\r\nHost: a").is_err());
    assert!(Http::parse_request("GET / HTTP/1.1\r\nbad line\r\n").is_err());
}

#[test]
fn request_round_trip_without_headers() {
    let mut req = HttpRequest::new();
    req.set_method("PUT").set_uri("/items/7").set_version("HTTP/1.1");
    let text = req.render();
    assert_eq!(text, "PUT /items/7 HTTP/1.1\r\n");
    assert_eq!(Http::parse_request(&text).unwrap(), req);
}

#[test]
fn request_with_headers_round_trip_needs_terminator() {
    let mut req = HttpRequest::new();
    req.set_method("GET")
        .set_uri("/")
        .set_version("HTTP/1.1")
        .push_field_line("Host: a")
        .push_field_line("Accept: */*");
    let text = req.render();
    assert_eq!(text, "GET / HTTP/1.1\r\nHost: a\r\nAccept: */*");
    assert!(Http::parse_request(&text).is_err());
    let framed = format!("{}\r\n", text);
    assert_eq!(Http::parse_request(&framed).unwrap(), req);
}

#[test]
fn request_completeness_and_validity() {
    let mut req = HttpRequest::new();
    assert!(!req.is_complete());
    req.set_method("GET").set_uri("/");
    assert!(!req.is_complete());
    req.set_version("HTTP/1.1");
    assert!(req.is_complete());
    assert!(req.is_valid());
    req.set_method("get");
    assert!(req.is_complete());
    assert!(!req.is_valid());
}

#[test]
fn append_fields_keeps_order() {
    let mut req = HttpRequest::new();
    req.push_field_line("A: 1");
    req.append_fields(&vec!["B: 2".to_string(), "A: 1".to_string()]);
    assert_eq!(
        req.headers().clone(),
        vec!["A: 1".to_string(), "B: 2".to_string(), "A: 1".to_string()]
    );
}

#[test]
fn parse_response_scenario() {
    let text = "HTTP/1.1 200 OK\r\nContent-Length: 299\r\n\r\n<body text>";
    let resp = Http::parse_response(text).unwrap();
    assert_eq!(resp.version(), "HTTP/1.1");
    assert_eq!(resp.status_code(), "200");
    assert_eq!(resp.message(), "OK");
    assert_eq!(resp.headers().clone(), vec!["Content-Length: 299".to_string()]);
    assert_eq!(resp.body(), "<body text>");
    assert_eq!(resp.render(), text);
}

#[test]
fn response_body_keeps_terminators() {
    let text = "HTTP/1.1 404 Not Found\r\nA: b\r\nC: d\r\n\r\nline one\r\n\r\nline two\r\n";
    let resp = Http::parse_response(text).unwrap();
    assert_eq!(resp.message(), "Not Found");
    assert_eq!(resp.headers().len(), 2);
    assert_eq!(resp.body(), "line one\r\n\r\nline two\r\n");
    assert_eq!(resp.render(), text);
}

#[test]
fn response_errors() {
    let e = Http::parse_response("HTTP/1 200 OK\r\nA: b\r\n\r\n").unwrap_err();
    assert_eq!(e.rule, Rule::Version);
    assert_eq!(e.offset, 0);
    let e = Http::parse_response("HTTP/1.1 2O0 OK\r\nA: b\r\n\r\n").unwrap_err();
    assert_eq!(e.rule, Rule::StatusCode);
    assert_eq!(e.offset, 9);
    let e = Http::parse_response("HTTP/1.1 200 \r\nA: b\r\n\r\n").unwrap_err();
    assert_eq!(e.rule, Rule::StatusMessage);
    assert_eq!(e.offset, 13);
    let e = Http::parse_response("HTTP/1.1 200 OK\r\n\r\nbody").unwrap_err();
    assert_eq!(e.rule, Rule::Response);
    assert_eq!(e.offset, 15);
    assert!(Http::parse_response("HTTP/1.1 200 OK\r\nA: b\r\nbody").is_err());
}

#[test]
fn response_builder_and_completeness() {
    let mut resp = HttpResponse::new();
    assert!(!resp.is_complete());
    resp.set_version("HTTP/1.1")
        .set_status_code("204")
        .set_message("No Content");
    assert!(!resp.is_complete());
    resp.push_field_line("Server: x");
    assert!(!resp.is_complete());
    assert!(resp.is_valid());
    resp.set_body("done");
    assert!(resp.is_complete());
    assert_eq!(
        resp.render(),
        "HTTP/1.1 204 No Content\r\nServer: x\r\n\r\ndone"
    );
    assert_eq!(Http::parse_response(&resp.render()).unwrap(), resp);
}

#[test]
fn set_status_line_matches_parsed_parts() {
    let mut resp = HttpResponse::new();
    resp.set_status_line("HTTP/1.1 200 OK").unwrap();
    let (v, c, m) = Http::parse_status_line("HTTP/1.1 200 OK").unwrap();
    assert_eq!(resp.version(), v);
    assert_eq!(resp.status_code(), c);
    assert_eq!(resp.message(), m);
    assert_eq!(v, "HTTP/1.1");
    assert_eq!(c, "200");
    assert_eq!(m, "OK");
}

#[test]
fn set_status_line_failure_leaves_response() {
    let mut resp = HttpResponse::new();
    resp.set_version("HTTP/1.0").set_status_code("500").set_message("Oops");
    let before = resp.clone();
    let e = resp.set_status_line("HTTP/1.1 200").unwrap_err();
    assert_eq!(e.rule, Rule::StatusLine);
    assert_eq!(resp, before);
    assert!(Http::parse_status_line("HTTP/1.1 200 OK\r\n").is_err());
}

#[test]
fn set_status_line_chains() {
    let mut resp = HttpResponse::new();
    resp.set_status_line("HTTP/2.0 301 Moved Permanently")
        .unwrap()
        .push_field_line("Location: /new")
        .set_body("x");
    assert_eq!(resp.status_code(), "301");
    assert_eq!(resp.message(), "Moved Permanently");
    assert_eq!(
        resp.render(),
        "HTTP/2.0 301 Moved Permanently\r\nLocation: /new\r\n\r\nx"
    );
}
