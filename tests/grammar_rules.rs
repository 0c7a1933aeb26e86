use http_parser::{HttpParser, Rule};

#[test]
fn method_rule_accepts_uppercase_words() {
    assert!(HttpParser::accepts(Rule::Method, "GET"));
    assert!(HttpParser::accepts(Rule::Method, "POST"));
    assert!(HttpParser::accepts(Rule::Method, "DELETE"));
}

#[test]
fn method_rule_rejects_empty_and_lowercase() {
    assert!(!HttpParser::accepts(Rule::Method, ""));
    assert!(!HttpParser::accepts(Rule::Method, "get"));
    assert!(!HttpParser::accepts(Rule::Method, "Get"));
    assert!(!HttpParser::accepts(Rule::Method, "GeT"));
}

#[test]
fn uri_rule_accepts_paths() {
    assert!(HttpParser::accepts(Rule::Uri, "/"));
    assert!(HttpParser::accepts(Rule::Uri, "/index.html"));
    assert!(HttpParser::accepts(Rule::Uri, "/test.js"));
    assert!(HttpParser::accepts(Rule::Uri, "/home/settings"));
}

#[test]
fn uri_rule_rejects_bad_text() {
    assert!(!HttpParser::accepts(Rule::Uri, ""));
    assert!(!HttpParser::accepts(Rule::Uri, " "));
    assert!(!HttpParser::accepts(Rule::Uri, "\n"));
    assert!(!HttpParser::accepts(Rule::Uri, "/home/settings{"));
    assert!(!HttpParser::accepts(Rule::Uri, "/\t"));
    assert!(!HttpParser::accepts(Rule::Uri, "/\\"));
    assert!(!HttpParser::accepts(Rule::Uri, "index.html"));
}

#[test]
fn version_number_rule() {
    assert!(HttpParser::accepts(Rule::VersionNumber, "1.1"));
    assert!(HttpParser::accepts(Rule::VersionNumber, "1.1.0"));
    assert!(!HttpParser::accepts(Rule::VersionNumber, "1."));
    assert!(!HttpParser::accepts(Rule::VersionNumber, ".1"));
    assert!(!HttpParser::accepts(Rule::VersionNumber, "1"));
    assert!(!HttpParser::accepts(Rule::VersionNumber, "1..1"));
}

#[test]
fn version_rule() {
    assert!(HttpParser::accepts(Rule::Version, "HTTP/1.1"));
    assert!(HttpParser::accepts(Rule::Version, "HTTP/1.1.0"));
    assert!(!HttpParser::accepts(Rule::Version, "HTTP/1"));
    assert!(!HttpParser::accepts(Rule::Version, "http/1.1"));
    assert!(!HttpParser::accepts(Rule::Version, "1.1"));
}

#[test]
fn field_name_rule() {
    assert!(HttpParser::accepts(Rule::FieldName, "Sec-Fetch-Dest"));
    assert!(!HttpParser::accepts(Rule::FieldName, "Sec-Fetch-Dest-"));
    assert!(!HttpParser::accepts(Rule::FieldName, ""));
    assert!(!HttpParser::accepts(Rule::FieldName, "Sec Fetch"));
}

#[test]
fn field_line_rule() {
    assert!(HttpParser::accepts(Rule::FieldLine, "Content-Length: 299"));
    assert!(HttpParser::accepts(Rule::FieldLine, "Accept: "));
    assert!(!HttpParser::accepts(Rule::FieldLine, "Content-Length:299"));
    assert!(!HttpParser::accepts(Rule::FieldLine, "Host: a\rb"));
    assert!(!HttpParser::accepts(Rule::FieldLine, "-: x"));
}

#[test]
fn field_rule_accepts_one_or_more_lines() {
    assert!(HttpParser::accepts(Rule::Field, "Name: value"));
    assert!(HttpParser::accepts(Rule::Field, "Name: value\r\nOther: thing"));
}

#[test]
fn field_rule_rejects_trailing_terminator() {
    assert!(!HttpParser::accepts(Rule::Field, "Name: value\r\n"));
    assert!(!HttpParser::accepts(Rule::Field, ""));
    assert!(!HttpParser::accepts(Rule::Field, "Name: value\r\n\r\nOther: thing"));
}

#[test]
fn status_rules() {
    assert!(HttpParser::accepts(Rule::StatusCode, "200"));
    assert!(!HttpParser::accepts(Rule::StatusCode, "2x0"));
    assert!(HttpParser::accepts(Rule::StatusMessage, "Not Found"));
    assert!(!HttpParser::accepts(Rule::StatusMessage, ""));
    assert!(HttpParser::accepts(Rule::StatusLine, "HTTP/1.1 404 Not Found"));
    assert!(!HttpParser::accepts(Rule::StatusLine, "HTTP/1.1 404"));
    assert!(!HttpParser::accepts(Rule::StatusLine, "HTTP/1.1 OK 200"));
}

#[test]
fn message_rules() {
    assert!(HttpParser::accepts(Rule::Request, "GET / HTTP/1.1\r\n"));
    assert!(!HttpParser::accepts(Rule::Request, "GET / HTTP/1.1"));
    assert!(HttpParser::accepts(
        Rule::Response,
        "HTTP/1.1 200 OK\r\nA: b\r\n\r\n"
    ));
    assert!(!HttpParser::accepts(Rule::Response, "HTTP/1.1 200 OK\r\n\r\nbody"));
}
