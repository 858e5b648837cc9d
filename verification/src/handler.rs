//! What a connection handler decides: how a connection is answered once
//! framing has ended, which record is kept of it, and under which
//! sequence number.

use crate::error::FramingError;
use crate::framer::append;
use crate::http::{frame, outcome_view, parse_http, HttpModel, HttpStruct};
use vstd::prelude::*;
use vstd::slice::*;
use vstd::string::*;

verus! {

/// The two kinds of record.
#[derive(Clone, Copy, Debug, PartialEq, Eq, Structural)]
pub enum RecordKind {
    /// Framing succeeded: the record holds a request.
    Http,
    /// Framing failed: the record holds bytes only.
    Raw,
}

/// What is left to do on a connection once framing has ended.
#[derive(Clone, Copy, Debug, PartialEq, Eq, Structural)]
pub enum Completion {
    /// Send the acknowledgment.
    Acknowledge,
    /// Send nothing, and read on until the peer closes.
    Drain,
}

/// The record of one connection.
pub struct CaptureRecord {
    /// The place of the record among all records of the process.
    pub sequence: u32,
    /// The address of the peer, as text.
    pub peer_address: String,
    /// Whether a request was framed.
    pub kind: RecordKind,
    /// Every byte that was read from the connection, in the order read.
    pub raw_bytes: Vec<u8>,
    /// The request, for a record of kind `Http`.
    pub parsed: Option<HttpStruct>,
}

/// The counter that hands out sequence numbers. It has to be shared by
/// all handlers of a process, each call of `next` under mutual exclusion.
pub struct SequenceCounter {
    issued: u32,
}

impl View for SequenceCounter {
    type V = nat;

    /// How many sequence numbers were handed out.
    closed spec fn view(&self) -> nat {
        self.issued as nat
    }
}

/// The number of sequence numbers that a counter can hand out.
pub open spec fn sequence_limit() -> nat {
    u32::MAX as nat
}

/// What a call of `next` does to a counter that has handed out `issued`
/// numbers: how many it has handed out afterwards, and the number that
/// the call hands out.
pub open spec fn next_of(issued: nat) -> (nat, Option<u32>) {
    if issued < sequence_limit() {
        (issued + 1, Some((issued + 1) as u32))
    } else {
        (issued, None)
    }
}

/// How many numbers a new counter has handed out after `calls` calls.
pub open spec fn issued_after(calls: nat) -> nat
    decreases calls,
{
    if calls == 0 {
        0
    } else {
        next_of(issued_after((calls - 1) as nat)).0
    }
}

/// What call number `call`, counted from one, hands out on a new counter.
pub open spec fn handed_out(call: nat) -> Option<u32> {
    next_of(issued_after((call - 1) as nat)).1
}

/// The sequence numbers count up from one: on a new counter the first
/// call hands out 1 and each further call the number after the one
/// before, so that the numbers grow strictly and none is left out or
/// handed out twice.
pub proof fn lemma_sequence_numbers_count_up(call: nat)
    requires
        1 <= call <= sequence_limit(),
    ensures
        issued_after(call) == call,
        handed_out(call) == Some(call as u32),
    decreases call,
{
    if call > 1 {
        lemma_sequence_numbers_count_up((call - 1) as nat);
    }
}

impl SequenceCounter {
    /// A counter that has handed out nothing.
    pub fn new() -> (counter: SequenceCounter)
        ensures
            counter@ == 0,
    {
        SequenceCounter { issued: 0 }
    }

    /// Hands out the next sequence number: one more than the numbers
    /// handed out so far. A counter that has reached its limit hands out
    /// nothing and stays as it is.
    pub fn next(&mut self) -> (sequence: Option<u32>)
        ensures
            (final(self)@, sequence) == next_of(old(self)@),
    {
        if self.issued == u32::MAX {
            None
        } else {
            self.issued = self.issued + 1;
            Some(self.issued)
        }
    }
}

/// The kind of record that an outcome of framing leads to.
pub open spec fn kind_of(outcome: Result<HttpModel, FramingError>) -> RecordKind {
    match outcome {
        Ok(_) => RecordKind::Http,
        Err(_) => RecordKind::Raw,
    }
}

/// What is left to do on the connection after an outcome of framing.
pub open spec fn completion_of(outcome: Result<HttpModel, FramingError>) -> Completion {
    match outcome {
        Ok(_) => Completion::Acknowledge,
        Err(_) => Completion::Drain,
    }
}

/// The request of a record, as mathematical values.
pub open spec fn parsed_view(parsed: Option<HttpStruct>) -> Option<HttpModel> {
    match parsed {
        Some(request) => Some(request@),
        None => None,
    }
}

/// The text of the acknowledgment: a status line that announces no
/// content, and a blank line.
pub open spec fn acknowledgment_text() -> Seq<char> {
    "HTTP/1.1 204 No Content\r\n\r\n"@
}

/// The bytes of a text of ASCII characters.
pub open spec fn ascii_bytes(text: Seq<char>) -> Seq<u8> {
    Seq::new(text.len(), |i: int| text[i] as u8)
}

/// The tag of a kind of record.
pub open spec fn tag_of(kind: RecordKind) -> Seq<char> {
    match kind {
        RecordKind::Http => seq!['h', 't', 't', 'p'],
        RecordKind::Raw => seq!['r', 'a', 'w'],
    }
}

impl RecordKind {
    /// The tag of the kind: `http` or `raw`.
    pub fn tag(&self) -> (tag: &'static str)
        ensures
            tag@ == tag_of(*self),
    {
        proof {
            reveal_strlit("http");
            reveal_strlit("raw");
        }
        match self {
            RecordKind::Http => {
                assert("http"@ =~= tag_of(RecordKind::Http));
                "http"
            },
            RecordKind::Raw => {
                assert("raw"@ =~= tag_of(RecordKind::Raw));
                "raw"
            },
        }
    }
}

/// Tells what is left to do on a connection whose framing came to
/// `outcome`.
pub fn completion_for(outcome: &Result<HttpStruct, FramingError>) -> (completion: Completion)
    ensures
        completion == completion_of(outcome_view(*outcome)),
{
    match outcome {
        Ok(_) => Completion::Acknowledge,
        Err(_) => Completion::Drain,
    }
}

/// The acknowledgment that a framed request is answered with.
pub fn acknowledgment() -> (reply: Vec<u8>)
    ensures
        reply@ == ascii_bytes(acknowledgment_text()),
{
    let text = "HTTP/1.1 204 No Content\r\n\r\n";
    proof {
        reveal_strlit("HTTP/1.1 204 No Content\r\n\r\n");
        assert(is_ascii(text));
        is_ascii_spec_bytes(text);
    }
    text.as_bytes_vec()
}

/// Makes the record of a connection and gives it the next sequence
/// number: `capture` holds all that was read from the connection,
/// `outcome` is what framing came to. No record is made where the counter
/// has reached its limit.
pub fn finalize(
    counter: &mut SequenceCounter,
    peer_address: String,
    outcome: Result<HttpStruct, FramingError>,
    capture: Vec<u8>,
) -> (record: Option<CaptureRecord>)
    ensures
        final(counter)@ == next_of(old(counter)@).0,
        record is Some <==> old(counter)@ < sequence_limit(),
        record matches Some(r) ==> {
            &&& Some(r.sequence) == next_of(old(counter)@).1
            &&& r.peer_address@ == peer_address@
            &&& r.kind == kind_of(outcome_view(outcome))
            &&& r.raw_bytes@ == capture@
            &&& parsed_view(r.parsed) == match outcome_view(outcome) {
                Ok(request) => Some(request),
                Err(_) => None,
            }
        },
{
    let sequence = match counter.next() {
        Some(sequence) => sequence,
        None => {
            return None;
        },
    };
    let record = match outcome {
        Ok(request) => CaptureRecord {
            sequence,
            peer_address,
            kind: RecordKind::Http,
            raw_bytes: capture,
            parsed: Some(request),
        },
        Err(_) => CaptureRecord {
            sequence,
            peer_address,
            kind: RecordKind::Raw,
            raw_bytes: capture,
            parsed: None,
        },
    };
    Some(record)
}

/// What became of a connection: the record, and what was sent to the
/// peer, if anything.
pub struct Handled {
    pub record: CaptureRecord,
    pub reply: Option<Vec<u8>>,
}

/// What is read from a connection that sends `input` and then closes: for
/// a framed request the bytes of the request, else everything.
pub open spec fn bytes_read(input: Seq<u8>) -> Seq<u8> {
    match frame(input).outcome {
        Ok(_) => input.take(frame(input).consumed as int),
        Err(_) => input,
    }
}

/// What is sent on a connection whose framing came to `outcome`: the
/// acknowledgment for a framed request, else nothing.
pub open spec fn reply_of(outcome: Result<HttpModel, FramingError>) -> Option<Seq<u8>> {
    match outcome {
        Ok(_) => Some(ascii_bytes(acknowledgment_text())),
        Err(_) => None,
    }
}

/// The reply as mathematical values.
pub open spec fn reply_view(reply: Option<Vec<u8>>) -> Option<Seq<u8>> {
    match reply {
        Some(bytes) => Some(bytes@),
        None => None,
    }
}

/// Handles a connection whose peer sends `input` and then closes: frames
/// a request, answers it or reads on to the end, and makes the record.
/// Nothing is made where the counter has reached its limit.
pub fn handle_connection(
    input: &[u8],
    peer_address: String,
    counter: &mut SequenceCounter,
) -> (handled: Option<Handled>)
    ensures
        final(counter)@ == next_of(old(counter)@).0,
        handled is Some <==> old(counter)@ < sequence_limit(),
        handled matches Some(h) ==> {
            &&& Some(h.record.sequence) == next_of(old(counter)@).1
            &&& h.record.peer_address@ == peer_address@
            &&& h.record.kind == kind_of(frame(input@).outcome)
            &&& h.record.raw_bytes@ == bytes_read(input@)
            &&& parsed_view(h.record.parsed) == match frame(input@).outcome {
                Ok(request) => Some(request),
                Err(_) => None,
            }
            &&& reply_view(h.reply) == reply_of(frame(input@).outcome)
        },
{
    let mut capture: Vec<u8> = Vec::new();
    let outcome = parse_http(input, &mut capture);
    let ghost read = frame(input@).consumed as int;
    assert(capture@ =~= input@.take(read));
    let reply = match completion_for(&outcome) {
        Completion::Acknowledge => Some(acknowledgment()),
        Completion::Drain => {
            let rest = slice_subrange(input, capture.len(), input.len());
            append(&mut capture, rest);
            assert(capture@ =~= input@);
            None
        },
    };
    match finalize(counter, peer_address, outcome, capture) {
        Some(record) => Some(Handled { record, reply }),
        None => None,
    }
}

} // verus!
