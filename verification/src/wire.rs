//! Requests as they are written on the wire: how text becomes lines of
//! bytes, and what framing makes of a request that is put together from
//! its parts.

use crate::encoding::lowercase_of;
use crate::error::FramingError;
use crate::framer::{after_headers, step, with_body, FramerModel};
use crate::http::{
    chunk_length, frame, lemma_line_length_is, line_length, run, Framed, HttpModel, LINE_FEED,
};
use crate::line::{
    bears_body, body_length, header_line_of_text, length_field, protocol_name,
    request_line_of_text, HeaderLineModel,
};
use crate::number::length_value;
use crate::number::{float_literal, lemma_float_literal_chars, literal_char, literal_chars};
use crate::text::{
    first_index, lemma_first_index_is, lemma_split_more, lemma_split_one, lemma_trim_bounds,
    lemma_trim_is, lemma_trim_keeps, lemma_trim_skip, lemma_trim_take, split, trim, trim_from,
    trim_to, white_space,
};
use vstd::prelude::*;
use vstd::utf8::*;

verus! {

/// The end of a line on the wire: carriage return and line feed.
pub open spec fn line_break() -> Seq<char> {
    seq!['\r', '\n']
}

/// A text on a line of its own, as bytes.
pub open spec fn wire_line(text: Seq<char>) -> Seq<u8> {
    encode_utf8(text + line_break())
}

/// No character of `text` is a line feed.
pub open spec fn on_one_line(text: Seq<char>) -> bool {
    forall|i: int| 0 <= i < text.len() ==> text[i] != '\n'
}

/// No byte of `bytes` is a line feed.
pub open spec fn without_line_feed(bytes: Seq<u8>) -> bool {
    forall|j: int| 0 <= j < bytes.len() ==> bytes[j] != LINE_FEED
}

/// The encoding of a text is the encoding of its parts, one after the
/// other.
pub proof fn lemma_encode_parts(a: Seq<char>, b: Seq<char>)
    ensures
        encode_utf8(a + b) == encode_utf8(a) + encode_utf8(b),
    decreases a.len(),
{
    if a.len() == 0 {
        assert(a + b =~= b);
        assert(encode_utf8(a) + encode_utf8(b) =~= encode_utf8(b));
    } else {
        assert((a + b).drop_first() =~= a.drop_first() + b);
        lemma_encode_parts(a.drop_first(), b);
        assert(encode_utf8(a + b) =~= encode_utf8(a) + encode_utf8(b));
    }
}

/// The encoding of a character other than the line feed holds no line
/// feed.
pub proof fn lemma_scalar_without_line_feed(c: char)
    requires
        c != '\n',
    ensures
        without_line_feed(encode_scalar(c as u32)),
{
    let s = c as u32;
    assert(s != 10);
    assert(s <= 0x7F ==> (s & 0x7F) as u8 != 10u8) by (bit_vector)
        requires
            s != 10,
    ;
    assert((0xC0u8 | ((s >> 6) & 0x1F) as u8) != 10u8) by (bit_vector);
    assert((0xE0u8 | ((s >> 12) & 0x0F) as u8) != 10u8) by (bit_vector);
    assert((0xF0u8 | ((s >> 18) & 0x7) as u8) != 10u8) by (bit_vector);
    assert((0x80u8 | (s & 0x3F) as u8) != 10u8) by (bit_vector);
    assert((0x80u8 | ((s >> 6) & 0x3F) as u8) != 10u8) by (bit_vector);
    assert((0x80u8 | ((s >> 12) & 0x3F) as u8) != 10u8) by (bit_vector);
}

/// The encoding of a text without line feeds holds no line feed.
pub proof fn lemma_encoding_without_line_feed(text: Seq<char>)
    requires
        on_one_line(text),
    ensures
        without_line_feed(encode_utf8(text)),
    decreases text.len(),
{
    if text.len() > 0 {
        let rest = text.drop_first();
        assert forall|i: int| 0 <= i < rest.len() implies rest[i] != '\n' by {
            assert(rest[i] == text[i + 1]);
        }
        lemma_encoding_without_line_feed(rest);
        lemma_scalar_without_line_feed(text[0]);
    }
}

/// The bytes of a line break.
pub proof fn lemma_line_break_bytes()
    ensures
        encode_utf8(line_break()) == seq![13u8, LINE_FEED],
{
    assert(is_ascii_chars(line_break()));
    is_ascii_chars_encode_utf8(line_break());
    assert(encode_utf8(line_break()) =~= seq![13u8, LINE_FEED]);
}

/// A text without line feeds that is written on a line of its own is the
/// first line of whatever it stands before.
pub proof fn lemma_wire_line_is_first(text: Seq<char>, rest: Seq<u8>)
    requires
        on_one_line(text),
    ensures
        line_length(wire_line(text) + rest) == wire_line(text).len(),
        (wire_line(text) + rest).take(wire_line(text).len() as int) == wire_line(text),
        (wire_line(text) + rest).skip(wire_line(text).len() as int) == rest,
        valid_utf8(wire_line(text)),
        decode_utf8(wire_line(text)) == text + line_break(),
{
    lemma_encode_parts(text, line_break());
    lemma_line_break_bytes();
    lemma_encoding_without_line_feed(text);
    let line = wire_line(text);
    let all = line + rest;
    let head = encode_utf8(text);
    assert(line == head + seq![13u8, LINE_FEED]);
    assert forall|j: int| 0 <= j < line.len() - 1 implies all[j] != LINE_FEED by {
        if j < head.len() {
            assert(all[j] == head[j]);
        } else {
            assert(all[j] == 13u8);
        }
    }
    assert(all[line.len() - 1] == LINE_FEED);
    lemma_line_length_is(all, line.len() as int);
    assert(all.take(line.len() as int) =~= line);
    assert(all.skip(line.len() as int) =~= rest);
    encode_utf8_valid_utf8(text + line_break());
    encode_utf8_decode_utf8(text + line_break());
}

/// A field of a request line: text without spaces and line feeds.
pub open spec fn spaceless(text: Seq<char>) -> bool {
    forall|i: int| 0 <= i < text.len() ==> text[i] != ' ' && text[i] != '\n'
}

/// The name of a header field as it is written: text without colons and
/// line feeds.
pub open spec fn colonless(text: Seq<char>) -> bool {
    forall|i: int| 0 <= i < text.len() ==> text[i] != ':' && text[i] != '\n'
}

/// The version token of a request line: `HTTP`, a slash and the number.
pub open spec fn version_token(version: Seq<char>) -> Seq<char> {
    protocol_name() + seq!['/'] + version
}

/// The text of a request line, without its line break.
pub open spec fn request_line_text(
    method: Seq<char>,
    path: Seq<char>,
    version: Seq<char>,
) -> Seq<char> {
    method + seq![' '] + path + seq![' '] + version_token(version)
}

/// The text of a header field, without its line break.
pub open spec fn field_text(name: Seq<char>, value: Seq<char>) -> Seq<char> {
    name + seq![':'] + value
}

/// The request that a request line opens: no header fields yet, and no
/// content.
pub open spec fn opened(method: Seq<char>, path: Seq<char>, version: Seq<char>) -> HttpModel {
    HttpModel { method, path, version, headers: Map::empty(), content: None }
}

/// The last field of a request line and its line break hold no space.
proof fn lemma_token_without_space(version: Seq<char>)
    requires
        literal_chars(version),
    ensures
        first_index(version_token(version) + line_break(), ' ') == (version_token(version)
            + line_break()).len(),
{
    let token = version_token(version);
    let last = token + line_break();
    assert forall|j: int| 0 <= j < last.len() implies last[j] != ' ' by {
        if 5 <= j < token.len() {
            assert(last[j] == version[j - 5]);
            assert(literal_char(version[j - 5]));
        }
    }
    lemma_first_index_is(last, ' ', last.len() as int);
}

/// A request line that is written from a method and a path without
/// spaces splits into the method, the path and what follows them.
proof fn lemma_request_line_fields(method: Seq<char>, path: Seq<char>, last: Seq<char>)
    requires
        spaceless(method),
        spaceless(path),
        first_index(last, ' ') == last.len(),
    ensures
        split(method + seq![' '] + path + seq![' '] + last, ' ') == seq![method, path, last],
{
    let text = method + seq![' '] + path + seq![' '] + last;
    let after_method = path + seq![' '] + last;
    assert(text =~= method + seq![' '] + after_method);
    lemma_first_index_is(text, ' ', method.len() as int);
    lemma_split_more(text, ' ');
    assert(text.take(method.len() as int) =~= method);
    assert(text.skip(method.len() as int + 1) =~= after_method);
    lemma_first_index_is(after_method, ' ', path.len() as int);
    lemma_split_more(after_method, ' ');
    assert(after_method.take(path.len() as int) =~= path);
    assert(after_method.skip(path.len() as int + 1) =~= last);
    lemma_split_one(last, ' ');
    assert(split(after_method, ' ') =~= seq![path, last]);
    assert(split(text, ' ') =~= seq![method, path, last]);
}

/// A version token with its line break is trimmed to the token, and the
/// token splits at its slash into the name of the protocol and the
/// number.
proof fn lemma_version_token_parts(version: Seq<char>)
    requires
        version.len() > 0,
        literal_chars(version),
    ensures
        trim(version_token(version) + line_break()) == version_token(version),
        split(version_token(version), '/') == seq![protocol_name(), version],
{
    let token = version_token(version);
    let last = token + line_break();
    assert(last[token.len() - 1] == version[version.len() - 1]);
    assert(literal_char(version[version.len() - 1]));
    assert(last[0] == 'H');
    lemma_trim_is(last, 0, token.len() as int);
    assert(last.subrange(0, token.len() as int) =~= token);
    lemma_first_index_is(token, '/', 4);
    lemma_split_more(token, '/');
    assert(token.take(4) =~= protocol_name());
    assert(token.skip(5) =~= version);
    assert forall|j: int| 0 <= j < version.len() implies version[j] != '/' by {
        assert(literal_char(version[j]));
    }
    lemma_first_index_is(version, '/', version.len() as int);
    lemma_split_one(version, '/');
    assert(split(token, '/') =~= seq![protocol_name(), version]);
}

/// A request line that is written from a method and a path without
/// spaces and from a floating-point literal opens the request of that
/// method, that path and that version, each as it was written.
pub proof fn lemma_request_line_text(method: Seq<char>, path: Seq<char>, version: Seq<char>)
    requires
        spaceless(method),
        spaceless(path),
        float_literal(version),
    ensures
        request_line_of_text(request_line_text(method, path, version) + line_break()) == Ok::<
            HttpModel,
            FramingError,
        >(opened(method, path, version)),
{
    lemma_float_literal_chars(version);
    let token = version_token(version);
    let last = token + line_break();
    let text = request_line_text(method, path, version) + line_break();
    assert(text =~= method + seq![' '] + path + seq![' '] + last);
    lemma_token_without_space(version);
    lemma_request_line_fields(method, path, last);
    lemma_version_token_parts(version);
    let fields = split(text, ' ');
    assert(fields.len() == 3);
    assert(fields[0] == method && fields[1] == path && fields[2] == last);
    let parts = split(trim(fields[2]), '/');
    assert(parts.len() == 2);
    assert(parts[0] == protocol_name() && parts[1] == version);
}

/// A line that is written from a name without colons, a colon and a value
/// holds the field of that name, trimmed and in lower case, and of that
/// value, trimmed.
pub proof fn lemma_field_text(name: Seq<char>, value: Seq<char>)
    requires
        colonless(name),
    ensures
        header_line_of_text(field_text(name, value) + line_break()) == (HeaderLineModel::Field {
            name: lowercase_of(trim(name)),
            value: trim(value),
        }),
{
    let text = field_text(name, value) + line_break();
    let at = name.len() as int;
    assert(text[at] == ':');
    lemma_trim_keeps(text, at);
    lemma_trim_bounds(text);
    let from = trim_from(text);
    let to = trim_to(text);
    let t = trim(text);
    assert(t == text.subrange(from, to));
    // the colon
    assert forall|j: int| 0 <= j < at - from implies t[j] != ':' by {
        assert(t[j] == name[j + from]);
    }
    assert(t[at - from] == ':');
    lemma_first_index_is(t, ':', at - from);
    // the name
    assert(t.take(at - from) =~= name.skip(from));
    assert forall|j: int| 0 <= j < from implies white_space(name[j]) by {
        assert(name[j] == text[j]);
    }
    lemma_trim_skip(name, from);
    // the value
    let tail = value + line_break();
    assert(t.skip(at - from + 1) =~= tail.take(to - at - 1));
    assert forall|j: int| to - at - 1 <= j < tail.len() implies white_space(tail[j]) by {
        assert(tail[j] == text[j + at + 1]);
    }
    lemma_trim_take(tail, to - at - 1);
    assert(tail.take(value.len() as int) =~= value);
    lemma_trim_take(tail, value.len() as int);
}

/// A line without a colon that is not white space only is passed over.
pub proof fn lemma_colonless_text(text: Seq<char>, i: int)
    requires
        colonless(text),
        0 <= i < text.len(),
        !white_space(text[i]),
    ensures
        header_line_of_text(text + line_break()) == HeaderLineModel::Ignored,
{
    let line = text + line_break();
    assert(line[i] == text[i]);
    lemma_trim_keeps(line, i);
    lemma_trim_bounds(line);
    let t = trim(line);
    assert forall|j: int| 0 <= j < t.len() implies t[j] != ':' by {
        let k = j + trim_from(line);
        assert(t[j] == line[k]);
        if k < text.len() {
            assert(line[k] == text[k]);
        }
    }
    lemma_first_index_is(t, ':', t.len() as int);
}

/// A line of white space only ends the header section.
pub proof fn lemma_blank_text(text: Seq<char>)
    requires
        forall|i: int| 0 <= i < text.len() ==> white_space(text[i]),
    ensures
        header_line_of_text(text + line_break()) == HeaderLineModel::End,
{
    let line = text + line_break();
    assert forall|j: int| 0 <= j < line.len() implies white_space(line[j]) by {
        if j < text.len() {
            assert(line[j] == text[j]);
        }
    }
    lemma_trim_is(line, 0, 0);
    assert(line.subrange(0, 0).len() == 0);
}

/// A line of the header section as it is written.
pub enum Written {
    /// A name, a colon and a value.
    Field { name: Seq<char>, value: Seq<char> },
    /// Text without a colon.
    Other { text: Seq<char> },
}

/// The text of a written line, without its line break.
pub open spec fn written_text(line: Written) -> Seq<char> {
    match line {
        Written::Field { name, value } => field_text(name, value),
        Written::Other { text } => text,
    }
}

/// Text with a character that is no white space.
pub open spec fn inked(text: Seq<char>) -> bool {
    exists|i: int| 0 <= i < text.len() && !white_space(#[trigger] text[i])
}

/// A written line is sound where it stays on one line, the name of a
/// field holds no colon, and text without a colon is not blank.
pub open spec fn sound(line: Written) -> bool {
    match line {
        Written::Field { name, value } => colonless(name) && on_one_line(value),
        Written::Other { text } => colonless(text) && inked(text),
    }
}

/// Every line is sound.
pub open spec fn all_sound(lines: Seq<Written>) -> bool {
    forall|i: int| 0 <= i < lines.len() ==> sound(#[trigger] lines[i])
}

/// The bytes of written lines, each with its line break.
pub open spec fn written_bytes(lines: Seq<Written>) -> Seq<u8>
    decreases lines.len(),
{
    if lines.len() == 0 {
        Seq::empty()
    } else {
        written_bytes(lines.drop_last()) + wire_line(written_text(lines.last()))
    }
}

/// The header fields after written lines were read in their order: each
/// field is entered under its name, trimmed and in lower case, with its
/// value, trimmed; text without a colon changes nothing.
pub open spec fn noted(headers: Map<Seq<char>, Seq<char>>, lines: Seq<Written>) -> Map<
    Seq<char>,
    Seq<char>,
>
    decreases lines.len(),
{
    if lines.len() == 0 {
        headers
    } else {
        let before = noted(headers, lines.drop_last());
        match lines.last() {
            Written::Field { name, value } => before.insert(lowercase_of(trim(name)), trim(value)),
            Written::Other { .. } => before,
        }
    }
}

/// The name under which a written line enters a field, if it is one.
pub open spec fn noted_name(line: Written) -> Option<Seq<char>> {
    match line {
        Written::Field { name, .. } => Some(lowercase_of(trim(name))),
        Written::Other { .. } => None,
    }
}

/// `request` with `headers` for its header fields.
pub open spec fn with_headers(request: HttpModel, headers: Map<Seq<char>, Seq<char>>) -> HttpModel {
    HttpModel { headers, ..request }
}

/// The bytes of a request up to its body: the request line, the lines of
/// the header section and a blank line.
pub open spec fn written_head(
    method: Seq<char>,
    path: Seq<char>,
    version: Seq<char>,
    lines: Seq<Written>,
) -> Seq<u8> {
    wire_line(request_line_text(method, path, version)) + written_bytes(lines) + wire_line(
        Seq::empty(),
    )
}

/// The request that a written head describes.
pub open spec fn written_request(
    method: Seq<char>,
    path: Seq<char>,
    version: Seq<char>,
    lines: Seq<Written>,
) -> HttpModel {
    with_headers(opened(method, path, version), noted(Map::empty(), lines))
}

/// The text of a sound line stays on one line.
proof fn lemma_sound_on_one_line(line: Written)
    requires
        sound(line),
    ensures
        on_one_line(written_text(line)),
{
    let text = written_text(line);
    match line {
        Written::Field { name, value } => {
            assert forall|i: int| 0 <= i < text.len() implies text[i] != '\n' by {
                if i < name.len() {
                    assert(text[i] == name[i]);
                } else if i > name.len() {
                    assert(text[i] == value[i - name.len() - 1]);
                }
            }
        },
        Written::Other { text } => {},
    }
}

/// A framer in the header section that is given a sound line notes it and
/// stays in the header section.
pub proof fn lemma_step_on_written(request: HttpModel, line: Written)
    requires
        sound(line),
    ensures
        step(FramerModel::Headers { request }, wire_line(written_text(line)))
            == (FramerModel::Headers {
            request: with_headers(request, noted(request.headers, seq![line])),
        }),
{
    let text = written_text(line);
    lemma_sound_on_one_line(line);
    lemma_wire_line_is_first(text, Seq::empty());
    let lines = seq![line];
    assert(lines.drop_last() =~= Seq::<Written>::empty());
    assert(noted(request.headers, lines.drop_last()) == request.headers);
    match line {
        Written::Field { name, value } => {
            lemma_field_text(name, value);
        },
        Written::Other { text } => {
            let i = choose|i: int| 0 <= i < text.len() && !white_space(#[trigger] text[i]);
            lemma_colonless_text(text, i);
        },
    }
}

/// Noting lines, and then one more, is noting them all.
proof fn lemma_noted_push(headers: Map<Seq<char>, Seq<char>>, lines: Seq<Written>)
    requires
        lines.len() > 0,
    ensures
        noted(headers, lines) == noted(noted(headers, lines.drop_last()), seq![lines.last()]),
{
    let before = noted(headers, lines.drop_last());
    let one = seq![lines.last()];
    assert(one.drop_last() =~= Seq::<Written>::empty());
    assert(noted(before, one.drop_last()) == before);
    assert(one.last() == lines.last());
}

/// A framer in the header section that is fed sound lines has noted them
/// all when it has read them, and goes on with what follows them.
pub proof fn lemma_run_on_written(request: HttpModel, lines: Seq<Written>, rest: Seq<u8>)
    requires
        all_sound(lines),
    ensures
        run(FramerModel::Headers { request }, written_bytes(lines) + rest).outcome == run(
            FramerModel::Headers { request: with_headers(request, noted(request.headers, lines)) },
            rest,
        ).outcome,
        run(FramerModel::Headers { request }, written_bytes(lines) + rest).consumed
            == written_bytes(lines).len() + run(
            FramerModel::Headers { request: with_headers(request, noted(request.headers, lines)) },
            rest,
        ).consumed,
    decreases lines.len(),
{
    if lines.len() == 0 {
        assert(written_bytes(lines) + rest =~= rest);
        assert(with_headers(request, request.headers) == request);
    } else {
        let before = lines.drop_last();
        let last = lines.last();
        let line = wire_line(written_text(last));
        let tail = line + rest;
        assert(all_sound(before)) by {
            assert forall|i: int| 0 <= i < before.len() implies sound(#[trigger] before[i]) by {
                assert(before[i] == lines[i]);
            }
        }
        assert(sound(lines[lines.len() - 1]));
        assert(written_bytes(lines) + rest =~= written_bytes(before) + tail);
        lemma_run_on_written(request, before, tail);
        let noted_before = with_headers(request, noted(request.headers, before));
        let state = FramerModel::Headers { request: noted_before };
        lemma_sound_on_one_line(last);
        lemma_wire_line_is_first(written_text(last), rest);
        assert(chunk_length(state, tail) == line.len());
        lemma_step_on_written(noted_before, last);
        lemma_noted_push(request.headers, lines);
        assert(with_headers(noted_before, noted(noted_before.headers, seq![last]))
            == with_headers(request, noted(request.headers, lines)));
    }
}

/// What a framer comes to once the header section has ended: the error
/// of a length that is no length; the request as it stands where no body
/// is announced; else the request with as much of the announced body as
/// the stream still holds, and that much read.
pub proof fn lemma_run_after_headers(request: HttpModel, rest: Seq<u8>)
    ensures
        match body_length(request) {
            Err(e) => run(after_headers(request), rest) == (Framed {
                outcome: Err(e),
                consumed: 0,
            }),
            Ok(None) => run(after_headers(request), rest) == (Framed {
                outcome: Ok(request),
                consumed: 0,
            }),
            Ok(Some(length)) => {
                let n = if length <= rest.len() {
                    length as nat
                } else {
                    rest.len()
                };
                run(after_headers(request), rest) == (Framed {
                    outcome: Ok(with_body(request, rest.take(n as int))),
                    consumed: n,
                })
            },
        },
{
    match body_length(request) {
        Ok(Some(length)) => {
            let state = after_headers(request);
            let n = chunk_length(state, rest) as int;
            let next = step(state, rest.take(n));
            assert(next is Done);
            assert(run(next, rest.skip(n)).consumed == 0);
        },
        _ => {},
    }
}

/// Framing a request that is written from its parts gives back the
/// parts: the method, the path and the version as they were written, and
/// the header fields that the lines note. It reads the head and as much
/// of an announced body as follows the head, and nothing more.
pub proof fn lemma_frame_written(
    method: Seq<char>,
    path: Seq<char>,
    version: Seq<char>,
    lines: Seq<Written>,
    rest: Seq<u8>,
)
    requires
        spaceless(method),
        spaceless(path),
        float_literal(version),
        all_sound(lines),
    ensures
        ({
            let head = written_head(method, path, version, lines);
            let request = written_request(method, path, version, lines);
            let framed = frame(head + rest);
            match body_length(request) {
                Err(e) => framed == (Framed { outcome: Err(e), consumed: head.len() }),
                Ok(None) => framed == (Framed { outcome: Ok(request), consumed: head.len() }),
                Ok(Some(length)) => {
                    let n = if length <= rest.len() {
                        length as nat
                    } else {
                        rest.len()
                    };
                    framed == (Framed {
                        outcome: Ok(with_body(request, rest.take(n as int))),
                        consumed: head.len() + n,
                    })
                },
            }
        }),
{
    let head = written_head(method, path, version, lines);
    let request = written_request(method, path, version, lines);
    let first_text = request_line_text(method, path, version);
    let first = wire_line(first_text);
    let blank = wire_line(Seq::empty());
    let input = head + rest;
    // the request line
    let after_first = written_bytes(lines) + (blank + rest);
    assert(input =~= first + after_first);
    assert(on_one_line(first_text)) by {
        lemma_float_literal_chars(version);
        assert forall|i: int| 0 <= i < first_text.len() implies first_text[i] != '\n' by {
            let token_at = method.len() + 1 + path.len() + 1;
            if i < method.len() {
                assert(first_text[i] == method[i]);
            } else if method.len() < i < method.len() + 1 + path.len() {
                assert(first_text[i] == path[i - method.len() - 1]);
            } else if i >= token_at + 5 {
                assert(first_text[i] == version[i - token_at - 5]);
                assert(literal_char(version[i - token_at - 5]));
            }
        }
    }
    lemma_wire_line_is_first(first_text, after_first);
    lemma_request_line_text(method, path, version);
    let start = FramerModel::RequestLine;
    assert(chunk_length(start, input) == first.len());
    let opened_state = FramerModel::Headers { request: opened(method, path, version) };
    assert(step(start, first) == opened_state);
    assert(frame(input).outcome == run(opened_state, after_first).outcome);
    assert(frame(input).consumed == first.len() + run(opened_state, after_first).consumed);
    // the header section
    lemma_run_on_written(opened(method, path, version), lines, blank + rest);
    let noted_state = FramerModel::Headers { request };
    // the blank line
    assert(on_one_line(Seq::<char>::empty()));
    lemma_wire_line_is_first(Seq::empty(), rest);
    lemma_blank_text(Seq::empty());
    assert(chunk_length(noted_state, blank + rest) == blank.len());
    assert(step(noted_state, blank) == after_headers(request));
    // the body
    lemma_run_after_headers(request, rest);
    assert(head.len() == first.len() + written_bytes(lines).len() + blank.len());
}

/// A line without a colon that is not blank is passed over: the framer
/// stays in the header section with the request as it was.
pub proof fn lemma_colonless_line_is_passed_over(request: HttpModel, text: Seq<char>)
    requires
        colonless(text),
        inked(text),
    ensures
        step(FramerModel::Headers { request }, wire_line(text)) == (FramerModel::Headers {
            request,
        }),
{
    let line = Written::Other { text };
    lemma_step_on_written(request, line);
    let lines = seq![line];
    assert(lines.drop_last() =~= Seq::<Written>::empty());
    assert(noted(request.headers, lines.drop_last()) == request.headers);
    assert(with_headers(request, request.headers) == request);
}

/// Of the fields that are written under one name the last one counts: a
/// field after which no line enters its name again has its value noted.
pub proof fn lemma_noted_last_wins(
    headers: Map<Seq<char>, Seq<char>>,
    lines: Seq<Written>,
    i: int,
)
    requires
        0 <= i < lines.len(),
        lines[i] is Field,
        forall|j: int| i < j < lines.len() ==> noted_name(#[trigger] lines[j]) != noted_name(lines[i]),
    ensures
        noted(headers, lines).contains_key(noted_name(lines[i])->Some_0),
        noted(headers, lines)[noted_name(lines[i])->Some_0] == trim(lines[i]->value),
    decreases lines.len(),
{
    if i < lines.len() - 1 {
        let before = lines.drop_last();
        assert(before[i] == lines[i]);
        assert forall|j: int| i < j < before.len() implies noted_name(#[trigger] before[j])
            != noted_name(before[i]) by {
            assert(before[j] == lines[j]);
        }
        lemma_noted_last_wins(headers, before, i);
        assert(noted_name(lines[lines.len() - 1]) != noted_name(lines[i]));
    }
}

/// A request that announces no body is framed without content, whatever
/// follows its head: one whose method bears no body, and one that writes
/// no `content-length`.
pub proof fn lemma_frame_without_body(
    method: Seq<char>,
    path: Seq<char>,
    version: Seq<char>,
    lines: Seq<Written>,
    rest: Seq<u8>,
)
    requires
        spaceless(method),
        spaceless(path),
        float_literal(version),
        all_sound(lines),
        !bears_body(method) || !noted(Map::empty(), lines).contains_key(length_field()),
    ensures
        frame(written_head(method, path, version, lines) + rest) == (Framed {
            outcome: Ok(written_request(method, path, version, lines)),
            consumed: written_head(method, path, version, lines).len(),
        }),
        written_request(method, path, version, lines).content is None,
{
    lemma_frame_written(method, path, version, lines, rest);
}

/// A request whose method bears a body and whose `content-length` writes
/// a length is framed with the bytes of that length that follow its head
/// for its content, and these bytes are read after the head and nothing
/// more.
pub proof fn lemma_frame_with_body(
    method: Seq<char>,
    path: Seq<char>,
    version: Seq<char>,
    lines: Seq<Written>,
    rest: Seq<u8>,
    length: nat,
)
    requires
        spaceless(method),
        spaceless(path),
        float_literal(version),
        all_sound(lines),
        bears_body(method),
        noted(Map::empty(), lines).contains_key(length_field()),
        length_value(noted(Map::empty(), lines)[length_field()]) == Some(length),
        length <= rest.len(),
    ensures
        frame(written_head(method, path, version, lines) + rest) == (Framed {
            outcome: Ok(
                with_body(
                    written_request(method, path, version, lines),
                    rest.take(length as int),
                ),
            ),
            consumed: written_head(method, path, version, lines).len() + length,
        }),
{
    lemma_frame_written(method, path, version, lines, rest);
}

} // verus!
