//! The grammar of single lines.
//!
//! A request arrives as lines of bytes. The first line names the method,
//! the path and the protocol version; each further line up to a blank one
//! may hold a header field. This module says what a line means and reads
//! it.

use crate::encoding::{lowercase, lowercase_of, text_of, utf8_text};
use crate::error::FramingError;
use crate::headers::Headers;
use crate::http::{outcome_view, HttpModel, HttpStruct};
use crate::number::{float_literal, is_float_literal, length_value, parse_length};
use crate::text::{
    chars_of, find, first_index, lemma_split_more, lemma_split_some, same_text, split, trim,
    trimmed,
};
use vstd::prelude::*;
use vstd::slice::*;
use vstd::utf8::*;

verus! {

/// What a line after the request line holds.
#[derive(Debug)]
pub enum HeaderLine {
    /// Nothing but white space: the header section ends here.
    End,
    /// No colon: the line is passed over.
    Ignored,
    /// A field, its name in lower case.
    Field { name: String, value: String },
}

/// What a line after the request line holds, as mathematical values.
pub enum HeaderLineModel {
    End,
    Ignored,
    Field { name: Seq<char>, value: Seq<char> },
}

impl View for HeaderLine {
    type V = HeaderLineModel;

    open spec fn view(&self) -> HeaderLineModel {
        match self {
            HeaderLine::End => HeaderLineModel::End,
            HeaderLine::Ignored => HeaderLineModel::Ignored,
            HeaderLine::Field { name, value } => HeaderLineModel::Field {
                name: name@,
                value: value@,
            },
        }
    }
}

/// The name that a version token starts with.
pub open spec fn protocol_name() -> Seq<char> {
    seq!['H', 'T', 'T', 'P']
}

/// The name of the header field that gives the length of the body.
pub open spec fn length_field() -> Seq<char> {
    seq!['c', 'o', 'n', 't', 'e', 'n', 't', '-', 'l', 'e', 'n', 'g', 't', 'h']
}

/// The request that the text of a request line opens: three fields
/// between single spaces, the third of them, trimmed, `HTTP`, a slash and
/// a floating-point literal.
pub open spec fn request_line_of_text(text: Seq<char>) -> Result<HttpModel, FramingError> {
    let fields = split(text, ' ');
    if fields.len() != 3 {
        Err(FramingError::MalformedRequestLine)
    } else {
        let token = split(trim(fields[2]), '/');
        if token.len() == 2 && token[0] == protocol_name() && float_literal(token[1]) {
            Ok(
                HttpModel {
                    method: fields[0],
                    path: fields[1],
                    version: token[1],
                    headers: Map::empty(),
                    content: None,
                },
            )
        } else {
            Err(FramingError::MalformedVersion)
        }
    }
}

/// The request that a request line opens. The line has to be UTF-8.
pub open spec fn request_line(line: Seq<u8>) -> Result<HttpModel, FramingError> {
    if valid_utf8(line) {
        request_line_of_text(decode_utf8(line))
    } else {
        Err(FramingError::Io)
    }
}

/// What the text of a line after the request line holds. A field is split
/// at its first colon; its name is trimmed and put in lower case, its
/// value is trimmed.
pub open spec fn header_line_of_text(text: Seq<char>) -> HeaderLineModel {
    let t = trim(text);
    let colon = first_index(t, ':') as int;
    if t.len() == 0 {
        HeaderLineModel::End
    } else if colon >= t.len() {
        HeaderLineModel::Ignored
    } else {
        HeaderLineModel::Field {
            name: lowercase_of(trim(t.take(colon))),
            value: trim(t.skip(colon + 1)),
        }
    }
}

/// What a line after the request line holds. The line has to be UTF-8.
pub open spec fn header_line(line: Seq<u8>) -> Result<HeaderLineModel, FramingError> {
    if valid_utf8(line) {
        Ok(header_line_of_text(decode_utf8(line)))
    } else {
        Err(FramingError::Io)
    }
}

/// The methods whose requests bear a body: `POST` and `PUT`.
pub open spec fn bears_body(method: Seq<char>) -> bool {
    method == seq!['P', 'O', 'S', 'T'] || method == seq!['P', 'U', 'T']
}

/// How many bytes of body a request announces: none unless its method
/// bears a body and it has a `content-length` field, whose value then has
/// to write a length.
pub open spec fn body_length(request: HttpModel) -> Result<Option<usize>, FramingError> {
    if bears_body(request.method) && request.headers.contains_key(length_field()) {
        match length_value(request.headers[length_field()]) {
            Some(n) => Ok(Some(n as usize)),
            None => Err(FramingError::MalformedContentLength),
        }
    } else {
        Ok(None)
    }
}

/// Reads a request line.
pub fn parse_request_line(line: &[u8]) -> (request: Result<HttpStruct, FramingError>)
    ensures
        outcome_view(request) == request_line(line@),
{
    let text = match utf8_text(line) {
        Some(text) => text,
        None => {
            return Err(FramingError::Io);
        },
    };
    proof {
        encode_utf8_decode_utf8(text@);
    }
    let chars = chars_of(text);
    let s = chars.as_slice();
    let first = find(s, ' ');
    if first == s.len() {
        return Err(FramingError::MalformedRequestLine);
    }
    let after_method = slice_subrange(s, first + 1, s.len());
    assert(after_method@ =~= s@.skip(first + 1));
    proof {
        lemma_split_more(s@, ' ');
        lemma_split_some(after_method@, ' ');
    }
    let second = find(after_method, ' ');
    if second == after_method.len() {
        return Err(FramingError::MalformedRequestLine);
    }
    let token = slice_subrange(after_method, second + 1, after_method.len());
    assert(token@ =~= after_method@.skip(second + 1));
    proof {
        lemma_split_more(after_method@, ' ');
        lemma_split_some(token@, ' ');
    }
    if find(token, ' ') < token.len() {
        proof {
            lemma_split_more(token@, ' ');
            lemma_split_some(token@.skip(first_index(token@, ' ') as int + 1), ' ');
        }
        return Err(FramingError::MalformedRequestLine);
    }
    let ghost fields = split(s@, ' ');
    assert(fields.len() == 3);
    assert(fields[0] == s@.take(first as int));
    assert(fields[1] == after_method@.take(second as int));
    assert(fields[2] == token@);
    let version_token = trimmed(token);
    let slash = find(version_token, '/');
    if slash == version_token.len() {
        return Err(FramingError::MalformedVersion);
    }
    let number = slice_subrange(version_token, slash + 1, version_token.len());
    assert(number@ =~= version_token@.skip(slash + 1));
    proof {
        lemma_split_more(version_token@, '/');
        lemma_split_some(number@, '/');
    }
    if find(number, '/') < number.len() {
        proof {
            lemma_split_more(number@, '/');
            lemma_split_some(number@.skip(first_index(number@, '/') as int + 1), '/');
        }
        return Err(FramingError::MalformedVersion);
    }
    let ghost parts = split(version_token@, '/');
    assert(parts.len() == 2);
    assert(parts[0] == version_token@.take(slash as int));
    assert(parts[1] == number@);
    let named = slash == 4 && version_token[0] == 'H' && version_token[1] == 'T'
        && version_token[2] == 'T' && version_token[3] == 'P';
    assert(named == (parts[0] == protocol_name())) by {
        if named {
            assert(parts[0] =~= protocol_name());
        }
        if parts[0] == protocol_name() {
            assert(parts[0].len() == 4);
            assert(parts[0][0] == 'H' && parts[0][1] == 'T' && parts[0][2] == 'T' && parts[0][3]
                == 'P');
        }
    }
    if !named || !is_float_literal(number) {
        return Err(FramingError::MalformedVersion);
    }
    let method = text_of(slice_subrange(s, 0, first));
    let path = text_of(slice_subrange(after_method, 0, second));
    let version = text_of(number);
    Ok(HttpStruct { method, path, version, headers: Headers::new(), content: None })
}

/// Reads a line after the request line.
pub fn parse_header_line(line: &[u8]) -> (held: Result<HeaderLine, FramingError>)
    ensures
        match held {
            Ok(h) => header_line(line@) == Ok::<HeaderLineModel, FramingError>(h@),
            Err(e) => header_line(line@) == Err::<HeaderLineModel, FramingError>(e),
        },
{
    let text = match utf8_text(line) {
        Some(text) => text,
        None => {
            return Err(FramingError::Io);
        },
    };
    proof {
        encode_utf8_decode_utf8(text@);
    }
    let chars = chars_of(text);
    let t = trimmed(chars.as_slice());
    if t.len() == 0 {
        return Ok(HeaderLine::End);
    }
    let colon = find(t, ':');
    if colon == t.len() {
        return Ok(HeaderLine::Ignored);
    }
    let before = slice_subrange(t, 0, colon);
    let after = slice_subrange(t, colon + 1, t.len());
    assert(before@ =~= t@.take(colon as int));
    assert(after@ =~= t@.skip(colon + 1));
    let trimmed_name = text_of(trimmed(before));
    let name = lowercase(trimmed_name.as_str());
    let value = text_of(trimmed(after));
    Ok(HeaderLine::Field { name, value })
}

/// Tells how many bytes of body `request` announces.
pub fn announced_length(request: &HttpStruct) -> (length: Result<Option<usize>, FramingError>)
    ensures
        length == body_length(request@),
{
    proof {
        reveal_strlit("POST");
        reveal_strlit("PUT");
        reveal_strlit("content-length");
    }
    let method = request.method.as_str();
    let bearing = same_text(method, "POST") || same_text(method, "PUT");
    assert("POST"@ =~= seq!['P', 'O', 'S', 'T']);
    assert("PUT"@ =~= seq!['P', 'U', 'T']);
    assert("content-length"@ =~= length_field());
    if !bearing {
        return Ok(None);
    }
    match request.headers.get("content-length") {
        None => Ok(None),
        Some(value) => {
            let digits = chars_of(value.as_str());
            match parse_length(digits.as_slice()) {
                Some(n) => Ok(Some(n)),
                None => Err(FramingError::MalformedContentLength),
            }
        },
    }
}

} // verus!
