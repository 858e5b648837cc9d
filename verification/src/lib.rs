//! A passive capture library for HTTP/1.x traffic.
//!
//! The crate frames one request out of a byte stream, keeps a verbatim copy
//! of every byte it consumed, and decides what a connection handler does
//! with the outcome. Sockets, files and threads stay with the caller: the
//! framer is a state machine that is handed what was read.
//!
//! The logic is verified with Verus. What is taken on trust of the
//! standard library stands in `encoding`: the passage between bytes and
//! text, lower-casing and lossy decoding.
//!
//! - `http`: the request, framing a whole stream, and what holds of it
//! - `framer`: the state machine
//! - `line`: the grammar of the request line and of header lines
//! - `headers`: the header fields
//! - `text`, `number`: trimming, splitting, and the numbers of a request
//! - `wire`: requests put together from their parts, and what framing
//!   makes of them
//! - `handler`, `storage`: records, sequence numbers, file names
//! - `error`: the errors

pub mod encoding;
pub mod error;
pub mod framer;
pub mod handler;
pub mod headers;
pub mod http;
pub mod line;
pub mod number;
pub mod storage;
pub mod text;
pub mod wire;
