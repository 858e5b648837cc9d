use http_collector::error::FramingError;
use http_collector::http::{parse_http, HttpStruct};
use std::collections::HashMap;

const VALID_HTTP_POST: &[u8] = b"POST / HTTP/1.1\r\nHost: 127.0.0.1:8000\r\nUser-Agent: curl/7.78.0\r\nAccept: */*\r\nContent-Length: 6\r\nContent-Type: application/x-www-form-urlencoded\r\n\r\ntest=1";

const INVALID_HTTP_POST: &[u8] = b"POST /\r\nHost: 127.0.0.1:8000\r\nUser-Agent: curl/7.78.0\r\nAccept: */*\r\nContent-Length: 6\r\nContent-Type: application/x-www-form-urlencoded\r\n\r\ntest=1";

fn header_map(http: &HttpStruct) -> HashMap<String, String> {
    let mut map = HashMap::new();
    let mut i = 0;
    while let Some((name, value)) = http.headers.entry(i) {
        map.insert(name.clone(), value.clone());
        i += 1;
    }
    assert_eq!(map.len(), http.headers.len());
    map
}

fn pairs(list: &[(&str, &str)]) -> HashMap<String, String> {
    list.iter()
        .map(|(k, v)| (k.to_string(), v.to_string()))
        .collect()
}

fn framed(input: &[u8]) -> (Result<HttpStruct, FramingError>, Vec<u8>) {
    let mut buf = Vec::new();
    let outcome = parse_http(input, &mut buf);
    (outcome, buf)
}

fn failure(input: &[u8]) -> (FramingError, Vec<u8>) {
    match framed(input) {
        (Ok(_), _) => panic!("framing should fail"),
        (Err(e), buf) => (e, buf),
    }
}

#[test]
fn parse_valid_http_post() {
    let mut buf = Vec::new();
    let http = parse_http(VALID_HTTP_POST, &mut buf).unwrap();

    assert_eq!(http.method, "POST".to_string());
    assert_eq!(http.path, "/".to_string());
    assert_eq!(http.version.parse::<f64>().unwrap(), 1.1);
    assert_eq!(http.content, Some("test=1".to_string()));
    assert_eq!(
        header_map(&http),
        pairs(&[
            ("host", "127.0.0.1:8000"),
            ("user-agent", "curl/7.78.0"),
            ("accept", "*/*"),
            ("content-length", "6"),
            ("content-type", "application/x-www-form-urlencoded"),
        ])
    );

    assert_eq!(buf, VALID_HTTP_POST.to_vec());
}

#[test]
fn parse_invalid_http_post() {
    let mut buf = Vec::new();
    let http = parse_http(INVALID_HTTP_POST, &mut buf);

    match http {
        Ok(_) => assert!(false, "parse_http should return invalid input"),
        Err(e) => assert_eq!(e, FramingError::MalformedRequestLine),
    };
}

#[test]
fn version_keeps_its_text() {
    let (outcome, _) = framed(b"GET /index.html HTTP/1.10\r\n\r\n");
    let http = outcome.unwrap();
    assert_eq!(http.version, "1.10");
    assert_eq!(http.method, "GET");
    assert_eq!(http.path, "/index.html");
    assert_eq!(http.content, None);
    assert_eq!(http.headers.len(), 0);
}

#[test]
fn capture_is_appended_to_what_the_buffer_holds() {
    let mut buf = b"before".to_vec();
    parse_http(b"GET / HTTP/1.1\r\n\r\n", &mut buf).unwrap();
    assert_eq!(buf, b"beforeGET / HTTP/1.1\r\n\r\n".to_vec());
}

#[test]
fn method_and_path_keep_their_case() {
    let (outcome, _) = framed(b"pOsT /A/b%20C?x=Y HTTP/1.1\r\n\r\n");
    let http = outcome.unwrap();
    assert_eq!(http.method, "pOsT");
    assert_eq!(http.path, "/A/b%20C?x=Y");
}

#[test]
fn an_empty_method_is_a_field() {
    let (outcome, _) = framed(b" / HTTP/1.1\r\n\r\n");
    let http = outcome.unwrap();
    assert_eq!(http.method, "");
    assert_eq!(http.path, "/");
}

#[test]
fn request_line_needs_three_fields() {
    for input in [
        &b"GET /\r\nHost: a\r\n\r\n"[..],
        b"GET\r\n\r\n",
        b"GET / HTTP/1.1 extra\r\n\r\n",
        b"GET  / HTTP/1.1\r\n\r\n",
        b"GET / HTTP/1.1 \r\n\r\n",
        b"\r\n",
        b"\n",
    ] {
        let (e, buf) = failure(input);
        assert_eq!(e, FramingError::MalformedRequestLine);
        let line_end = input.iter().position(|b| *b == b'\n').unwrap() + 1;
        assert_eq!(buf, input[..line_end].to_vec());
    }
}

#[test]
fn empty_input_is_no_request_line() {
    let (e, buf) = failure(b"");
    assert_eq!(e, FramingError::MalformedRequestLine);
    assert_eq!(buf, Vec::<u8>::new());
}

#[test]
fn a_first_line_without_line_feed_is_read_whole() {
    let (e, buf) = failure(b"hello world");
    assert_eq!(e, FramingError::MalformedRequestLine);
    assert_eq!(buf, b"hello world".to_vec());

    let (outcome, buf) = framed(b"GET / HTTP/1.1");
    assert!(outcome.is_ok());
    assert_eq!(buf, b"GET / HTTP/1.1".to_vec());
}

#[test]
fn version_needs_the_protocol_name_and_a_number() {
    for input in [
        &b"GET / HTTX/1.1\r\nHost: a\r\n\r\n"[..],
        b"GET / http/1.1\r\n\r\n",
        b"GET / HTTP/1/1\r\n\r\n",
        b"GET / HTTP1.1\r\n\r\n",
        b"GET / HTTP/\r\n\r\n",
        b"GET / HTTP/one\r\n\r\n",
        b"GET / HTTP/1.1.1\r\n\r\n",
        b"GET / /1.1\r\n\r\n",
        b"GET / \r\n\r\n",
        b"GET / HTTP/ 1.1\r\n\r\n",
    ] {
        let first_line_end = input.iter().position(|b| *b == b'\n').unwrap() + 1;
        let (outcome, buf) = framed(input);
        match outcome {
            Ok(_) => panic!("framing should fail"),
            Err(FramingError::MalformedVersion) => {}
            Err(FramingError::MalformedRequestLine) => {
                assert_eq!(input, &b"GET / HTTP/ 1.1\r\n\r\n"[..])
            }
            Err(e) => panic!("unexpected error {:?}", e),
        }
        assert_eq!(buf, input[..first_line_end].to_vec());
    }
}

#[test]
fn version_may_be_any_floating_point_literal() {
    for version in ["1.1", "2", "0.9", "1e3", "+1.", ".5", "inf", "-Infinity", "NaN", "1E-2"] {
        let input = format!("GET / HTTP/{}\r\n\r\n", version);
        let (outcome, buf) = framed(input.as_bytes());
        let http = outcome.unwrap();
        assert_eq!(http.version, version);
        assert!(http.version.parse::<f64>().is_ok());
        assert_eq!(buf, input.as_bytes().to_vec());
    }
}

#[test]
fn version_token_is_trimmed() {
    let (outcome, _) = framed(b"GET / \tHTTP/1.1\t\r\n\r\n");
    assert_eq!(outcome.unwrap().version, "1.1");
}

#[test]
fn header_names_are_trimmed_and_lower_cased_and_values_trimmed() {
    let (outcome, _) =
        framed(b"GET / HTTP/1.1\r\n  Content-TYPE \t:   text/plain; q=1  \r\nX-Empty:\r\n\r\n");
    let http = outcome.unwrap();
    assert_eq!(
        header_map(&http),
        pairs(&[("content-type", "text/plain; q=1"), ("x-empty", "")])
    );
}

#[test]
fn header_names_are_lower_cased_beyond_ascii() {
    let (outcome, _) = framed("GET / HTTP/1.1\r\n\u{c9}COLE: x\r\n\r\n".as_bytes());
    let http = outcome.unwrap();
    assert_eq!(header_map(&http), pairs(&[("\u{e9}cole", "x")]));
}

#[test]
fn a_header_value_keeps_its_colons() {
    let (outcome, _) = framed(b"GET / HTTP/1.1\r\nHost: example.org:8080\r\n\r\n");
    let http = outcome.unwrap();
    assert_eq!(
        http.headers.get("host"),
        Some(&"example.org:8080".to_string())
    );
}

#[test]
fn header_lines_without_colon_are_passed_over() {
    let input = b"GET / HTTP/1.1\r\nHost: a\r\nthis line has no colon\r\nAccept: b\r\n\r\n";
    let (outcome, buf) = framed(input);
    let http = outcome.unwrap();
    assert_eq!(header_map(&http), pairs(&[("host", "a"), ("accept", "b")]));
    assert_eq!(buf, input.to_vec());
}

#[test]
fn the_last_of_two_header_fields_wins() {
    let (outcome, _) = framed(b"GET / HTTP/1.1\r\nX-A: 1\r\nHost: h\r\nx-a: 2\r\nX-a : 3\r\n\r\n");
    let http = outcome.unwrap();
    assert_eq!(header_map(&http), pairs(&[("x-a", "3"), ("host", "h")]));
}

#[test]
fn a_blank_line_of_spaces_ends_the_header_section() {
    let input = b"GET / HTTP/1.1\r\nHost: a\r\n \t \r\nAccept: b\r\n\r\n";
    let (outcome, buf) = framed(input);
    let http = outcome.unwrap();
    assert_eq!(header_map(&http), pairs(&[("host", "a")]));
    assert_eq!(buf, b"GET / HTTP/1.1\r\nHost: a\r\n \t \r\n".to_vec());
}

#[test]
fn the_end_of_the_stream_ends_the_header_section() {
    let input = b"GET / HTTP/1.1\r\nHost: a\r\n";
    let (outcome, buf) = framed(input);
    assert_eq!(header_map(&outcome.unwrap()), pairs(&[("host", "a")]));
    assert_eq!(buf, input.to_vec());

    let input = b"GET / HTTP/1.1\r\nHost: a";
    let (outcome, buf) = framed(input);
    assert_eq!(header_map(&outcome.unwrap()), pairs(&[("host", "a")]));
    assert_eq!(buf, input.to_vec());
}

#[test]
fn bare_line_feeds_end_lines_too() {
    let input = b"PUT /x HTTP/1.0\nContent-Length: 2\n\nhi";
    let (outcome, buf) = framed(input);
    let http = outcome.unwrap();
    assert_eq!(http.method, "PUT");
    assert_eq!(http.version, "1.0");
    assert_eq!(http.content, Some("hi".to_string()));
    assert_eq!(buf, input.to_vec());
}

#[test]
fn post_without_content_length_has_no_body() {
    for method in ["POST", "PUT"] {
        let head = format!("{} / HTTP/1.1\r\nHost: a\r\n\r\n", method);
        let input = format!("{}test=1", head);
        let (outcome, buf) = framed(input.as_bytes());
        let http = outcome.unwrap();
        assert_eq!(http.content, None);
        assert_eq!(buf, head.as_bytes().to_vec());
    }
}

#[test]
fn post_with_content_length_reads_exactly_that_many_bytes() {
    for method in ["POST", "PUT"] {
        let head = format!("{} / HTTP/1.1\r\nContent-Length: 4\r\n\r\n", method);
        let input = format!("{}test=1 and more", head);
        let (outcome, buf) = framed(input.as_bytes());
        let http = outcome.unwrap();
        assert_eq!(http.content, Some("test".to_string()));
        assert_eq!(buf.len(), head.len() + 4);
        assert_eq!(buf, input.as_bytes()[..head.len() + 4].to_vec());
    }
}

#[test]
fn a_body_of_no_bytes_is_a_body() {
    let input = b"POST / HTTP/1.1\r\nContent-Length: 0\r\n\r\nrest";
    let (outcome, buf) = framed(input);
    assert_eq!(outcome.unwrap().content, Some(String::new()));
    assert_eq!(buf, b"POST / HTTP/1.1\r\nContent-Length: 0\r\n\r\n".to_vec());
}

#[test]
fn a_short_body_is_taken_as_it_is() {
    let input = b"POST / HTTP/1.1\r\nContent-Length: 10\r\n\r\ntest=1";
    let (outcome, buf) = framed(input);
    assert_eq!(outcome.unwrap().content, Some("test=1".to_string()));
    assert_eq!(buf, input.to_vec());
}

#[test]
fn a_huge_content_length_reads_what_there_is() {
    let input = format!(
        "POST / HTTP/1.1\r\nContent-Length: {}\r\n\r\nabc",
        usize::MAX
    );
    let (outcome, buf) = framed(input.as_bytes());
    assert_eq!(outcome.unwrap().content, Some("abc".to_string()));
    assert_eq!(buf, input.as_bytes().to_vec());
}

#[test]
fn other_methods_bear_no_body() {
    for method in ["GET", "post", "Put", "DELETE", "POSTS", "PU", ""] {
        let head = format!("{} / HTTP/1.1\r\nContent-Length: 6\r\n\r\n", method);
        let input = format!("{}test=1", head);
        let (outcome, buf) = framed(input.as_bytes());
        let http = outcome.unwrap();
        assert_eq!(http.content, None);
        assert_eq!(http.headers.get("content-length"), Some(&"6".to_string()));
        assert_eq!(buf, head.as_bytes().to_vec());
    }
}

#[test]
fn content_length_has_to_be_a_length() {
    for value in ["six", "-1", "", "1.5", "6 6", "0x10", "+", "99999999999999999999999999"] {
        let head = format!("POST / HTTP/1.1\r\nHost: a\r\nContent-Length: {}\r\n\r\n", value);
        let input = format!("{}test=1", head);
        let (e, buf) = failure(input.as_bytes());
        assert_eq!(e, FramingError::MalformedContentLength);
        assert_eq!(buf, head.as_bytes().to_vec());
    }
}

#[test]
fn content_length_may_have_a_plus_sign_and_zeros() {
    let input = b"POST / HTTP/1.1\r\nContent-Length: +006\r\n\r\ntest=1";
    let (outcome, buf) = framed(input);
    assert_eq!(outcome.unwrap().content, Some("test=1".to_string()));
    assert_eq!(buf, input.to_vec());
}

#[test]
fn the_last_content_length_counts() {
    let input = b"POST / HTTP/1.1\r\nContent-Length: x\r\nContent-Length: 2\r\n\r\ntest=1";
    let (outcome, _) = framed(input);
    assert_eq!(outcome.unwrap().content, Some("te".to_string()));
}

#[test]
fn a_body_that_is_not_utf8_is_decoded_leniently_and_captured_as_it_is() {
    let mut input = b"POST / HTTP/1.1\r\nContent-Length: 4\r\n\r\n".to_vec();
    input.extend_from_slice(&[b'a', 0xff, 0xfe, b'b']);
    let (outcome, buf) = framed(&input);
    assert_eq!(
        outcome.unwrap().content,
        Some("a\u{fffd}\u{fffd}b".to_string())
    );
    assert_eq!(buf, input);
}

#[test]
fn a_body_of_utf8_is_decoded() {
    let body = "gr\u{fc}\u{df}e \u{4e16}\u{754c}";
    let input = format!(
        "POST / HTTP/1.1\r\nContent-Length: {}\r\n\r\n{}",
        body.len(),
        body
    );
    let (outcome, buf) = framed(input.as_bytes());
    assert_eq!(outcome.unwrap().content, Some(body.to_string()));
    assert_eq!(buf, input.as_bytes().to_vec());
}

#[test]
fn a_request_line_that_is_not_utf8_fails_and_is_captured() {
    let input = [b"GET /\xff HTTP/1.1\r\n".as_slice(), b"Host: a\r\n\r\n"].concat();
    let (e, buf) = failure(&input);
    assert_eq!(e, FramingError::Io);
    assert_eq!(buf, b"GET /\xff HTTP/1.1\r\n".to_vec());
}

#[test]
fn a_header_line_that_is_not_utf8_fails_and_is_captured() {
    let input = b"GET / HTTP/1.1\r\nHost: a\r\nX: \xc3\x28\r\nAccept: b\r\n\r\n";
    let (e, buf) = failure(input);
    assert_eq!(e, FramingError::Io);
    assert_eq!(buf, b"GET / HTTP/1.1\r\nHost: a\r\nX: \xc3\x28\r\n".to_vec());
}

#[test]
fn text_beyond_ascii_is_carried_through() {
    let input = "GET /caf\u{e9}/\u{4e16}\u{754c} HTTP/1.1\r\nX-Name: J\u{fc}rgen\r\n\r\n";
    let (outcome, buf) = framed(input.as_bytes());
    let http = outcome.unwrap();
    assert_eq!(http.path, "/caf\u{e9}/\u{4e16}\u{754c}");
    assert_eq!(http.headers.get("x-name"), Some(&"J\u{fc}rgen".to_string()));
    assert_eq!(buf, input.as_bytes().to_vec());
}

#[test]
fn white_space_beyond_ascii_is_trimmed() {
    let input = "GET / HTTP/1.1\r\n\u{a0}Name\u{2003}:\u{3000}value\u{85}\r\n\r\n";
    let (outcome, _) = framed(input.as_bytes());
    assert_eq!(header_map(&outcome.unwrap()), pairs(&[("name", "value")]));
}

#[test]
fn framing_the_capture_again_gives_the_same_request() {
    for input in [
        VALID_HTTP_POST,
        &b"GET / HTTP/1.1\r\nHost: a\r\n\r\nignored"[..],
        b"POST / HTTP/1.1\r\nContent-Length: 3\r\n\r\ntest=1",
        b"POST / HTTP/1.1\r\nContent-Length: 30\r\n\r\ntest=1",
        b"PUT / HTTP/1.1\r\nA: 1\r\nno colon\r\na: 2\r\n",
    ] {
        let (first, capture) = framed(input);
        let first = first.unwrap();
        let (second, again) = framed(&capture);
        let second = second.unwrap();
        assert_eq!(first.method, second.method);
        assert_eq!(first.path, second.path);
        assert_eq!(first.version, second.version);
        assert_eq!(first.content, second.content);
        assert_eq!(header_map(&first), header_map(&second));
        assert_eq!(capture, again);
    }
}

#[test]
fn framing_the_capture_of_a_failure_fails_again() {
    for input in [
        INVALID_HTTP_POST,
        &b"GET / HTTP/x\r\nHost: a\r\n\r\n"[..],
        b"POST / HTTP/1.1\r\nContent-Length: x\r\n\r\ntest=1",
        b"GET / HTTP/1.1\r\n\xff\r\n\r\n",
    ] {
        let (first, capture) = failure(input);
        let (second, again) = failure(&capture);
        assert_eq!(first, second);
        assert_eq!(capture, again);
    }
}
