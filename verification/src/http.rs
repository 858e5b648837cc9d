//! The request, and the framing of one request out of a byte stream.

use crate::error::FramingError;
use crate::framer::{demand_of, step, Demand, Framer, FramerModel};
use crate::headers::Headers;
use crate::line::{body_length, header_line, protocol_name, request_line, HeaderLineModel};
use crate::number::float_literal;
use crate::text::{leading_space, split, trailing_space, trim, trim_start};
use vstd::prelude::*;
use vstd::slice::*;
use vstd::utf8::*;

verus! {

/// A framed request.
pub struct HttpStruct {
    /// The first field of the request line, as it was sent.
    pub method: String,
    /// The second field of the request line, as it was sent.
    pub path: String,
    /// The number after `HTTP/`, as it was sent. It reads as a decimal
    /// floating-point literal.
    pub version: String,
    /// The header fields, by lower-case name.
    pub headers: Headers,
    /// The body as text, for a request that bears one.
    pub content: Option<String>,
}

/// What a request holds, as mathematical values.
pub struct HttpModel {
    pub method: Seq<char>,
    pub path: Seq<char>,
    pub version: Seq<char>,
    pub headers: Map<Seq<char>, Seq<char>>,
    pub content: Option<Seq<char>>,
}

impl View for HttpStruct {
    type V = HttpModel;

    open spec fn view(&self) -> HttpModel {
        HttpModel {
            method: self.method@,
            path: self.path@,
            version: self.version@,
            headers: self.headers@,
            content: match self.content {
                Some(text) => Some(text@),
                None => None,
            },
        }
    }
}

/// `request` with one more header field, which replaces a field of the
/// same name.
pub open spec fn with_field(request: HttpModel, name: Seq<char>, value: Seq<char>) -> HttpModel {
    HttpModel { headers: request.headers.insert(name, value), ..request }
}

/// `request` with `content` for its content.
pub open spec fn with_content(request: HttpModel, content: Seq<char>) -> HttpModel {
    HttpModel { content: Some(content), ..request }
}

impl HttpStruct {
    /// The request with one more header field, which replaces a field of
    /// the same name.
    pub fn with_field(self, name: String, value: String) -> (request: HttpStruct)
        ensures
            request@ == with_field(self@, name@, value@),
    {
        let mut request = self;
        request.headers.insert(name, value);
        request
    }

    /// The request with `content` for its content.
    pub fn with_content(self, content: String) -> (request: HttpStruct)
        ensures
            request@ == with_content(self@, content@),
    {
        let mut request = self;
        request.content = Some(content);
        request
    }
}

/// The outcome of framing, as mathematical values.
pub open spec fn outcome_view(outcome: Result<HttpStruct, FramingError>) -> Result<
    HttpModel,
    FramingError,
> {
    match outcome {
        Ok(request) => Ok(request@),
        Err(e) => Err(e),
    }
}

/// The line feed, which ends a line.
pub const LINE_FEED: u8 = 10;

/// The length of the first line of `input`: the bytes up to and including
/// the first line feed, or all of `input` where it holds no line feed.
pub open spec fn line_length(input: Seq<u8>) -> nat
    decreases input.len(),
{
    if input.len() == 0 {
        0
    } else if input[0] == LINE_FEED {
        1
    } else {
        1 + line_length(input.drop_first())
    }
}

/// How many bytes a framer in `state` is given when `input` is what the
/// stream still holds: a line, or as much of the announced body as there
/// is.
pub open spec fn chunk_length(state: FramerModel, input: Seq<u8>) -> nat {
    match demand_of(state) {
        Demand::Line => line_length(input),
        Demand::Body(length) => if length <= input.len() {
            length as nat
        } else {
            input.len()
        },
        Demand::Nothing => 0,
    }
}

/// How far a framer in `state` is from a settled outcome when the stream
/// is at its end.
pub open spec fn rank(state: FramerModel) -> nat {
    match state {
        FramerModel::RequestLine => 3,
        FramerModel::Headers { .. } => 2,
        FramerModel::Body { .. } => 1,
        FramerModel::Done { .. } => 0,
    }
}

/// What framing comes to: the outcome, and how many bytes of the stream
/// were read for it.
pub struct Framed {
    pub outcome: Result<HttpModel, FramingError>,
    pub consumed: nat,
}

/// What a framer in `state` comes to when it is fed from `input` until its
/// outcome is settled.
pub open spec fn run(state: FramerModel, input: Seq<u8>) -> Framed
    decreases input.len(), rank(state),
    via run_terminates
{
    match state {
        FramerModel::Done { outcome } => Framed { outcome, consumed: 0 },
        _ => {
            let n = chunk_length(state, input) as int;
            let rest = run(step(state, input.take(n)), input.skip(n));
            Framed { outcome: rest.outcome, consumed: (n + rest.consumed) as nat }
        },
    }
}

#[via_fn]
proof fn run_terminates(state: FramerModel, input: Seq<u8>) {
    if !(state is Done) {
        lemma_line_length(input);
        let n = chunk_length(state, input) as int;
        if n == 0 {
            lemma_step_at_end(state);
            assert(input.take(0) =~= Seq::<u8>::empty());
        }
    }
}

/// What framing the stream `input` comes to.
pub open spec fn frame(input: Seq<u8>) -> Framed {
    run(FramerModel::RequestLine, input)
}

/// The first line lies within the input, ends with the first line feed
/// if there is one, and holds no other.
pub proof fn lemma_line_length(input: Seq<u8>)
    ensures
        line_length(input) <= input.len(),
        line_length(input) == 0 <==> input.len() == 0,
        forall|j: int| 0 <= j < line_length(input) - 1 ==> input[j] != LINE_FEED,
        line_length(input) < input.len() ==> input[line_length(input) - 1] == LINE_FEED,
    decreases input.len(),
{
    if input.len() > 0 && input[0] != LINE_FEED {
        let t = input.drop_first();
        lemma_line_length(t);
        assert forall|j: int| 0 <= j < line_length(input) - 1 implies input[j] != LINE_FEED by {
            if j > 0 {
                assert(input[j] == t[j - 1]);
            }
        }
        if line_length(input) < input.len() {
            assert(input[line_length(input) - 1] == t[line_length(t) - 1]);
        }
    }
}

/// A length that ends with the first line feed, or reaches the end of an
/// input without line feeds, is that of the first line.
pub proof fn lemma_line_length_is(input: Seq<u8>, n: int)
    requires
        0 <= n <= input.len(),
        forall|j: int| 0 <= j < n - 1 ==> input[j] != LINE_FEED,
        n > 0 && input[n - 1] == LINE_FEED || n == input.len() && (n > 0 ==> input[n - 1]
            != LINE_FEED),
    ensures
        line_length(input) == n,
    decreases input.len(),
{
    if input.len() > 0 && input[0] != LINE_FEED {
        let t = input.drop_first();
        assert forall|j: int| 0 <= j < n - 2 implies t[j] != LINE_FEED by {
            assert(t[j] == input[j + 1]);
        }
        if n >= 2 {
            assert(t[n - 2] == input[n - 1]);
        }
        lemma_line_length_is(t, n - 1);
    }
}

/// No bytes at all are a line of white space only: they end the header
/// section.
pub proof fn lemma_empty_line_ends_headers()
    ensures
        header_line(Seq::<u8>::empty()) == Ok::<HeaderLineModel, FramingError>(
            HeaderLineModel::End,
        ),
{
    let none = Seq::<u8>::empty();
    assert(valid_utf8(none));
    assert(decode_utf8(none) =~= Seq::<char>::empty());
    let text = Seq::<char>::empty();
    assert(leading_space(text) == 0);
    assert(trim_start(text) =~= text);
    assert(trailing_space(text) == 0);
    assert(trim(text) =~= text);
}

/// At the end of the stream every read brings a framer closer to its
/// outcome.
pub proof fn lemma_step_at_end(state: FramerModel)
    requires
        !(state is Done),
    ensures
        rank(step(state, Seq::<u8>::empty())) < rank(state),
{
    lemma_empty_line_ends_headers();
}

/// The first line of `input`.
pub open spec fn first_line(input: Seq<u8>) -> Seq<u8> {
    input.take(line_length(input) as int)
}

/// A prefix that holds the first line has the same first line.
pub proof fn lemma_line_length_of_prefix(input: Seq<u8>, n: int)
    requires
        line_length(input) <= n <= input.len(),
    ensures
        line_length(input.take(n)) == line_length(input),
{
    lemma_line_length(input);
    let k = line_length(input) as int;
    let prefix = input.take(n);
    lemma_line_length_is(prefix, k);
}

/// Framing reads no more than there is.
pub proof fn lemma_run_consumed(state: FramerModel, input: Seq<u8>)
    ensures
        run(state, input).consumed <= input.len(),
    decreases input.len(), rank(state),
{
    if !(state is Done) {
        lemma_line_length(input);
        let n = chunk_length(state, input) as int;
        if n == 0 {
            lemma_step_at_end(state);
            assert(input.take(0) =~= Seq::<u8>::empty());
        }
        lemma_run_consumed(step(state, input.take(n)), input.skip(n));
    }
}

/// Framing depends on nothing but the bytes that it reads: fed with these
/// bytes alone, a framer comes to the same outcome and reads them all.
pub proof fn lemma_run_on_consumed(state: FramerModel, input: Seq<u8>)
    ensures
        run(state, input).consumed <= input.len(),
        run(state, input.take(run(state, input).consumed as int)) == run(state, input),
    decreases input.len(), rank(state),
{
    lemma_run_consumed(state, input);
    if !(state is Done) {
        lemma_line_length(input);
        let n = chunk_length(state, input) as int;
        let next = step(state, input.take(n));
        let rest = input.skip(n);
        if n == 0 {
            lemma_step_at_end(state);
            assert(input.take(0) =~= Seq::<u8>::empty());
        }
        lemma_run_on_consumed(next, rest);
        lemma_run_consumed(next, rest);
        let m = run(next, rest).consumed as int;
        let prefix = input.take(n + m);
        if demand_of(state) == Demand::Line {
            lemma_line_length_of_prefix(input, n + m);
        }
        assert(chunk_length(state, prefix) == n);
        assert(prefix.take(n) =~= input.take(n));
        assert(prefix.skip(n) =~= rest.take(m));
    }
}

/// Framing the captured bytes of a stream once more gives what framing
/// the stream gave, and reads all of them.
pub proof fn lemma_frame_of_capture(input: Seq<u8>)
    ensures
        frame(input).consumed <= input.len(),
        frame(input.take(frame(input).consumed as int)) == frame(input),
{
    lemma_run_on_consumed(FramerModel::RequestLine, input);
}

/// Where the first line opens no request, framing fails with the error
/// of that line and has read the first line and nothing more.
pub proof fn lemma_frame_fails_on_first_line(input: Seq<u8>)
    requires
        request_line(first_line(input)) is Err,
    ensures
        frame(input).outcome == Err::<HttpModel, FramingError>(
            request_line(first_line(input))->Err_0,
        ),
        frame(input).consumed == line_length(input),
{
    let n = line_length(input) as int;
    let next = step(FramerModel::RequestLine, input.take(n));
    assert(next is Done);
    assert(run(next, input.skip(n)).consumed == 0);
}

/// A first line of text that does not split into exactly three fields at
/// its spaces makes framing fail, with the first line read and nothing
/// more.
pub proof fn lemma_frame_rejects_field_count(input: Seq<u8>)
    requires
        valid_utf8(first_line(input)),
        split(decode_utf8(first_line(input)), ' ').len() != 3,
    ensures
        frame(input).outcome == Err::<HttpModel, FramingError>(
            FramingError::MalformedRequestLine,
        ),
        frame(input).consumed == line_length(input),
{
    lemma_frame_fails_on_first_line(input);
}

/// A first line of three fields whose third, trimmed, is not `HTTP`, a
/// slash and a floating-point literal makes framing fail, with the first
/// line read and nothing more.
pub proof fn lemma_frame_rejects_version(input: Seq<u8>)
    requires
        valid_utf8(first_line(input)),
        split(decode_utf8(first_line(input)), ' ').len() == 3,
        ({
            let token = split(trim(split(decode_utf8(first_line(input)), ' ')[2]), '/');
            !(token.len() == 2 && token[0] == protocol_name() && float_literal(token[1]))
        }),
    ensures
        frame(input).outcome == Err::<HttpModel, FramingError>(FramingError::MalformedVersion),
        frame(input).consumed == line_length(input),
{
    lemma_frame_fails_on_first_line(input);
}

/// `request` continues what the request line `opened`: the method, the
/// path and the version are those of the request line, and the version
/// reads as a floating-point literal.
pub open spec fn continues(request: HttpModel, opened: HttpModel) -> bool {
    &&& request.method == opened.method
    &&& request.path == opened.path
    &&& request.version == opened.version
    &&& float_literal(request.version)
}

/// `request` has content exactly where it announces a body.
pub open spec fn content_as_announced(request: HttpModel) -> bool {
    request.content is Some <==> body_length(request) matches Ok(Some(_))
}

/// What holds of a framer that has read the request line `opened`: its
/// request continues the request line, has no content before the body
/// was read, and awaits the body that it announces.
pub open spec fn follows(state: FramerModel, opened: HttpModel) -> bool {
    match state {
        FramerModel::RequestLine => false,
        FramerModel::Headers { request } => continues(request, opened) && request.content is None,
        FramerModel::Body { request, length } => continues(request, opened)
            && request.content is None && body_length(request) == Ok::<
            Option<usize>,
            FramingError,
        >(Some(length)),
        FramerModel::Done { outcome } => outcome matches Ok(request) ==> continues(request, opened)
            && content_as_announced(request),
    }
}

/// A request line opens a request whose version reads as a floating-point
/// literal, without header fields and without content.
pub proof fn lemma_request_line_opens(line: Seq<u8>)
    ensures
        request_line(line) matches Ok(opened) ==> float_literal(opened.version)
            && opened.content is None && opened.headers == Map::<Seq<char>, Seq<char>>::empty(),
{
}

/// A framer that has read a request line comes to an outcome in which the
/// request continues the request line and has content as announced.
proof fn lemma_run_follows(state: FramerModel, input: Seq<u8>, opened: HttpModel)
    requires
        follows(state, opened),
    ensures
        run(state, input).outcome matches Ok(request) ==> continues(request, opened)
            && content_as_announced(request),
    decreases input.len(), rank(state),
{
    if !(state is Done) {
        lemma_line_length(input);
        let n = chunk_length(state, input) as int;
        if n == 0 {
            lemma_step_at_end(state);
            assert(input.take(0) =~= Seq::<u8>::empty());
        }
        let next = step(state, input.take(n));
        assert(follows(next, opened));
        lemma_run_follows(next, input.skip(n), opened);
    }
}

/// A framed request has the method, the path and the version of the
/// first line, its version reads as a floating-point literal, and it has
/// content exactly where its method bears a body and its
/// `content-length` writes a length.
pub proof fn lemma_framed_request(input: Seq<u8>)
    ensures
        frame(input).outcome matches Ok(request) ==> {
            &&& request_line(first_line(input)) matches Ok(opened)
            &&& continues(request, opened)
            &&& content_as_announced(request)
        },
{
    let n = line_length(input) as int;
    let next = step(FramerModel::RequestLine, input.take(n));
    lemma_line_length(input);
    match request_line(first_line(input)) {
        Ok(opened) => {
            lemma_request_line_opens(first_line(input));
            assert(follows(next, opened));
            lemma_run_follows(next, input.skip(n), opened);
        },
        Err(_) => {
            lemma_frame_fails_on_first_line(input);
        },
    }
}

/// Where the line that starts at `from` ends.
fn line_end(input: &[u8], from: usize) -> (end: usize)
    requires
        from <= input.len(),
    ensures
        end == from + line_length(input@.skip(from as int)),
        from <= end <= input.len(),
{
    let mut end: usize = from;
    while end < input.len() && input[end] != LINE_FEED
        invariant
            from <= end <= input.len(),
            forall|j: int| from <= j < end ==> input@[j] != LINE_FEED,
        decreases input.len() - end,
    {
        end += 1;
    }
    if end < input.len() {
        end += 1;
    }
    proof {
        lemma_line_length_is(input@.skip(from as int), end - from);
    }
    end
}

/// Frames one request out of `input` and appends the bytes that were read
/// for it to `buf`.
///
/// The input stands for a stream at whose end every read returns nothing:
/// a line that the input cuts short is taken as it is, and so is a body.
pub fn parse_http(input: &[u8], buf: &mut Vec<u8>) -> (outcome: Result<HttpStruct, FramingError>)
    ensures
        outcome_view(outcome) == frame(input@).outcome,
        frame(input@).consumed <= input@.len(),
        final(buf)@ == old(buf)@ + input@.take(frame(input@).consumed as int),
{
    let mut framer = Framer::new();
    let mut at: usize = 0;
    assert(input@.skip(0) =~= input@);
    assert(input@.take(0) =~= Seq::<u8>::empty());
    assert(buf@ =~= old(buf)@ + input@.take(0));
    loop
        invariant
            at <= input.len(),
            buf@ == old(buf)@ + input@.take(at as int),
            run(framer@, input@.skip(at as int)).outcome == frame(input@).outcome,
            at + run(framer@, input@.skip(at as int)).consumed == frame(input@).consumed,
        ensures
            framer@ is Done,
            at <= input.len(),
            buf@ == old(buf)@ + input@.take(at as int),
            run(framer@, input@.skip(at as int)).outcome == frame(input@).outcome,
            at + run(framer@, input@.skip(at as int)).consumed == frame(input@).consumed,
        decreases input.len() - at, rank(framer@),
    {
        let end = match framer.demand() {
            Demand::Nothing => {
                break ;
            },
            Demand::Line => line_end(input, at),
            Demand::Body(length) => if length <= input.len() - at {
                at + length
            } else {
                input.len()
            },
        };
        let chunk = slice_subrange(input, at, end);
        proof {
            let rest = input@.skip(at as int);
            assert(end - at == chunk_length(framer@, rest));
            assert(chunk@ =~= rest.take(end - at));
            assert(rest.skip(end - at) =~= input@.skip(end as int));
            assert(input@.take(at as int) + chunk@ =~= input@.take(end as int));
            if end == at {
                assert(chunk@ =~= Seq::<u8>::empty());
                lemma_step_at_end(framer@);
            }
        }
        framer = framer.supply(chunk, buf);
        at = end;
    }
    match framer.finish() {
        Some(outcome) => outcome,
        None => unreached(),
    }
}

} // verus!
