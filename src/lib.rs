//! Parsing and rendering of HTTP/1.1 request and response messages.
//!
//! `grammar` states the message grammar as spec predicates, `lexer` checks its
//! rules on characters, `message` holds the request and response values with
//! their builders and wire text, `parser` matches whole messages, and `laws`
//! proves that parsing takes rendered messages back to the values they came
//! from. Parsing never backtracks: each token ends at the first character that
//! cannot belong to it, so a message is read in one pass.
pub mod grammar;
pub mod lexer;
pub mod message;
pub mod parser;
pub mod laws;

pub use message::{HttpRequest, HttpResponse, RequestView, ResponseView};
pub use parser::{Http, HttpParser, ParseError, Rule, SetStatusLine};
