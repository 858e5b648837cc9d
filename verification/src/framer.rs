//! The framer: a state machine that is fed what was read from a
//! connection, one piece at a time, and says what to read next.
//!
//! The framer never reads by itself. Its owner asks `demand` what the
//! framer waits for, reads that from wherever the bytes come, and hands
//! it over with `supply`, which also files the bytes in the capture
//! buffer. So the decisions are the same whether the bytes come from a
//! socket or from memory.

use crate::encoding::{lossy_decoding, lossy_text};
use crate::error::FramingError;
use crate::http::{outcome_view, with_content, with_field, HttpModel, HttpStruct};
use crate::line::{
    announced_length, body_length, header_line, parse_header_line, parse_request_line,
    request_line, HeaderLine, HeaderLineModel,
};
use vstd::prelude::*;
use vstd::utf8::*;

verus! {

/// What a framer waits for.
#[derive(Clone, Copy, Debug, PartialEq, Eq, Structural)]
pub enum Demand {
    /// The next line: the bytes up to and including the next line feed, or
    /// up to the end of the stream.
    Line,
    /// What one read of at most that many bytes returns.
    Body(usize),
    /// Nothing more: the outcome is settled.
    Nothing,
}

/// A framer between two reads.
pub enum Framer {
    /// Nothing was read yet.
    RequestLine,
    /// The request line was read, and maybe header lines.
    Headers { request: HttpStruct },
    /// The header section has ended and announced a body.
    Body { request: HttpStruct, length: usize },
    /// The request is framed, or framing has failed.
    Done { outcome: Result<HttpStruct, FramingError> },
}

/// A framer between two reads, as mathematical values.
pub enum FramerModel {
    RequestLine,
    Headers { request: HttpModel },
    Body { request: HttpModel, length: usize },
    Done { outcome: Result<HttpModel, FramingError> },
}

impl View for Framer {
    type V = FramerModel;

    open spec fn view(&self) -> FramerModel {
        match self {
            Framer::RequestLine => FramerModel::RequestLine,
            Framer::Headers { request } => FramerModel::Headers { request: request@ },
            Framer::Body { request, length } => FramerModel::Body {
                request: request@,
                length: *length,
            },
            Framer::Done { outcome } => FramerModel::Done { outcome: outcome_view(*outcome) },
        }
    }
}

/// What a framer in `state` waits for.
pub open spec fn demand_of(state: FramerModel) -> Demand {
    match state {
        FramerModel::RequestLine => Demand::Line,
        FramerModel::Headers { .. } => Demand::Line,
        FramerModel::Body { length, .. } => Demand::Body(length),
        FramerModel::Done { .. } => Demand::Nothing,
    }
}

/// The state after the header section of `request` has ended: the body is
/// awaited if one is announced, else the request is complete.
pub open spec fn after_headers(request: HttpModel) -> FramerModel {
    match body_length(request) {
        Err(e) => FramerModel::Done { outcome: Err(e) },
        Ok(None) => FramerModel::Done { outcome: Ok(request) },
        Ok(Some(length)) => FramerModel::Body { request, length },
    }
}

/// `request` with `body` as its content, decoded leniently.
pub open spec fn with_body(request: HttpModel, body: Seq<u8>) -> HttpModel {
    with_content(request, lossy_decoding(body))
}

/// The state that follows `state` when `chunk` was read.
pub open spec fn step(state: FramerModel, chunk: Seq<u8>) -> FramerModel {
    match state {
        FramerModel::RequestLine => match request_line(chunk) {
            Ok(request) => FramerModel::Headers { request },
            Err(e) => FramerModel::Done { outcome: Err(e) },
        },
        FramerModel::Headers { request } => match header_line(chunk) {
            Err(e) => FramerModel::Done { outcome: Err(e) },
            Ok(HeaderLineModel::Ignored) => state,
            Ok(HeaderLineModel::Field { name, value }) => FramerModel::Headers {
                request: with_field(request, name, value),
            },
            Ok(HeaderLineModel::End) => after_headers(request),
        },
        FramerModel::Body { request, .. } => FramerModel::Done {
            outcome: Ok(with_body(request, chunk)),
        },
        FramerModel::Done { .. } => state,
    }
}

impl Framer {
    /// A framer that has read nothing.
    pub fn new() -> (framer: Framer)
        ensures
            framer@ == FramerModel::RequestLine,
    {
        Framer::RequestLine
    }

    /// What the framer waits for.
    pub fn demand(&self) -> (demand: Demand)
        ensures
            demand == demand_of(self@),
    {
        match self {
            Framer::RequestLine => Demand::Line,
            Framer::Headers { .. } => Demand::Line,
            Framer::Body { length, .. } => Demand::Body(*length),
            Framer::Done { .. } => Demand::Nothing,
        }
    }

    /// Takes what was read, files it in `capture`, and moves on.
    pub fn supply(self, chunk: &[u8], capture: &mut Vec<u8>) -> (next: Framer)
        ensures
            next@ == step(self@, chunk@),
            final(capture)@ == old(capture)@ + chunk@,
            self@ is Body && valid_utf8(chunk@) ==> lossy_decoding(chunk@) == decode_utf8(chunk@),
    {
        append(capture, chunk);
        match self {
            Framer::RequestLine => match parse_request_line(chunk) {
                Ok(request) => Framer::Headers { request },
                Err(e) => Framer::Done { outcome: Err(e) },
            },
            Framer::Headers { request } => match parse_header_line(chunk) {
                Err(e) => Framer::Done { outcome: Err(e) },
                Ok(HeaderLine::Ignored) => Framer::Headers { request },
                Ok(HeaderLine::Field { name, value }) => Framer::Headers {
                    request: request.with_field(name, value),
                },
                Ok(HeaderLine::End) => match announced_length(&request) {
                    Err(e) => Framer::Done { outcome: Err(e) },
                    Ok(None) => Framer::Done { outcome: Ok(request) },
                    Ok(Some(length)) => Framer::Body { request, length },
                },
            },
            Framer::Body { request, .. } => {
                let content = lossy_text(chunk);
                proof {
                    encode_utf8_decode_utf8(content@);
                }
                Framer::Done { outcome: Ok(request.with_content(content)) }
            },
            Framer::Done { outcome } => Framer::Done { outcome },
        }
    }

    /// The outcome, once it is settled.
    pub fn finish(self) -> (outcome: Option<Result<HttpStruct, FramingError>>)
        ensures
            match outcome {
                Some(o) => self@ == (FramerModel::Done { outcome: outcome_view(o) }),
                None => !(self@ is Done),
            },
    {
        match self {
            Framer::Done { outcome } => Some(outcome),
            _ => None,
        }
    }
}

/// Files `chunk` at the end of `capture`.
pub fn append(capture: &mut Vec<u8>, chunk: &[u8])
    ensures
        final(capture)@ == old(capture)@ + chunk@,
{
    capture.extend_from_slice(chunk);
    assert(capture@ =~= old(capture)@ + chunk@);
}

} // verus!
