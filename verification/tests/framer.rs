use http_collector::error::FramingError;
use http_collector::framer::{append, Demand, Framer};
use http_collector::handler::{
    acknowledgment, completion_for, finalize, handle_connection, CaptureRecord, Completion,
    RecordKind, SequenceCounter,
};
use http_collector::http::parse_http;
use http_collector::line::{announced_length, parse_header_line, parse_request_line, HeaderLine};

#[test]
fn request_line_is_read_into_a_request() {
    let request = parse_request_line(b"DELETE /a/b HTTP/2\r\n").unwrap();
    assert_eq!(request.method, "DELETE");
    assert_eq!(request.path, "/a/b");
    assert_eq!(request.version, "2");
    assert_eq!(request.headers.len(), 0);
    assert_eq!(request.content, None);
}

#[test]
fn request_line_errors() {
    assert_eq!(
        parse_request_line(b"DELETE /a/b\r\n").err(),
        Some(FramingError::MalformedRequestLine)
    );
    assert_eq!(
        parse_request_line(b"DELETE /a/b FTP/2\r\n").err(),
        Some(FramingError::MalformedVersion)
    );
    assert_eq!(
        parse_request_line(b"DELETE /a/b HTTP/2/\r\n").err(),
        Some(FramingError::MalformedVersion)
    );
    assert_eq!(parse_request_line(b"\x80 / HTTP/2\r\n").err(), Some(FramingError::Io));
    assert_eq!(parse_request_line(b"\xed\xa0\x80 / HTTP/2\r\n").err(), Some(FramingError::Io));
    assert_eq!(parse_request_line(b"\xc0\xaf / HTTP/2\r\n").err(), Some(FramingError::Io));
}

#[test]
fn header_line_kinds() {
    match parse_header_line(b"\r\n").unwrap() {
        HeaderLine::End => {}
        other => panic!("unexpected {:?}", other),
    }
    match parse_header_line(b"").unwrap() {
        HeaderLine::End => {}
        other => panic!("unexpected {:?}", other),
    }
    match parse_header_line(b" \t \n").unwrap() {
        HeaderLine::End => {}
        other => panic!("unexpected {:?}", other),
    }
    match parse_header_line(b"no colon here\r\n").unwrap() {
        HeaderLine::Ignored => {}
        other => panic!("unexpected {:?}", other),
    }
    match parse_header_line(b" Accept-Language :  en:us \r\n").unwrap() {
        HeaderLine::Field { name, value } => {
            assert_eq!(name, "accept-language");
            assert_eq!(value, "en:us");
        }
        other => panic!("unexpected {:?}", other),
    }
    match parse_header_line(b":\r\n").unwrap() {
        HeaderLine::Field { name, value } => {
            assert_eq!(name, "");
            assert_eq!(value, "");
        }
        other => panic!("unexpected {:?}", other),
    }
    match parse_header_line("STRASSE\u{1e9e}\u{3a3}: x".as_bytes()).unwrap() {
        HeaderLine::Field { name, .. } => {
            assert_eq!(name, "STRASSE\u{1e9e}\u{3a3}".to_lowercase());
            assert_eq!(name, "strasse\u{df}\u{3c2}");
        }
        other => panic!("unexpected {:?}", other),
    }
    assert_eq!(parse_header_line(b"a: \xff\r\n").err(), Some(FramingError::Io));
}

#[test]
fn announced_length_of_requests() {
    let mut request = parse_request_line(b"POST / HTTP/1.1\r\n").unwrap();
    assert_eq!(announced_length(&request), Ok(None));
    request.headers.insert("content-length".to_string(), "12".to_string());
    assert_eq!(announced_length(&request), Ok(Some(12)));
    request.headers.insert("content-length".to_string(), "twelve".to_string());
    assert_eq!(announced_length(&request), Err(FramingError::MalformedContentLength));
    request.method = "GET".to_string();
    assert_eq!(announced_length(&request), Ok(None));
    request.method = "PUT".to_string();
    request.headers.insert("content-length".to_string(), "0".to_string());
    assert_eq!(announced_length(&request), Ok(Some(0)));
    let mut other = parse_request_line(b"PUT / HTTP/1.1\r\n").unwrap();
    other.headers.insert("Content-Length".to_string(), "3".to_string());
    assert_eq!(announced_length(&other), Ok(None));
}

#[test]
fn framer_asks_for_lines_then_for_the_body() {
    let mut capture = Vec::new();
    let framer = Framer::new();
    assert_eq!(framer.demand(), Demand::Line);
    let framer = framer.supply(b"POST /submit HTTP/1.1\r\n", &mut capture);
    assert_eq!(framer.demand(), Demand::Line);
    let framer = framer.supply(b"Content-Length: 6\r\n", &mut capture);
    assert_eq!(framer.demand(), Demand::Line);
    let framer = framer.supply(b"\r\n", &mut capture);
    assert_eq!(framer.demand(), Demand::Body(6));
    let framer = framer.supply(b"tes", &mut capture);
    assert_eq!(framer.demand(), Demand::Nothing);
    let request = framer.finish().unwrap().unwrap();
    assert_eq!(request.method, "POST");
    assert_eq!(request.path, "/submit");
    assert_eq!(request.content, Some("tes".to_string()));
    assert_eq!(
        capture,
        b"POST /submit HTTP/1.1\r\nContent-Length: 6\r\n\r\ntes".to_vec()
    );
}

#[test]
fn framer_is_not_finished_before_its_outcome() {
    let mut capture = Vec::new();
    assert!(Framer::new().finish().is_none());
    let framer = Framer::new().supply(b"GET / HTTP/1.1\r\n", &mut capture);
    assert!(framer.finish().is_none());
    let framer = Framer::new()
        .supply(b"PUT / HTTP/1.1\r\n", &mut capture)
        .supply(b"content-length:1\r\n", &mut capture)
        .supply(b"", &mut capture);
    assert_eq!(framer.demand(), Demand::Body(1));
    assert!(framer.finish().is_none());
}

#[test]
fn framer_stops_at_the_first_failure_and_keeps_capturing() {
    let mut capture = Vec::new();
    let framer = Framer::new().supply(b"nonsense\n", &mut capture);
    assert_eq!(framer.demand(), Demand::Nothing);
    let framer = framer.supply(b"more", &mut capture);
    assert_eq!(framer.demand(), Demand::Nothing);
    assert_eq!(
        framer.finish().unwrap().err(),
        Some(FramingError::MalformedRequestLine)
    );
    assert_eq!(capture, b"nonsense\nmore".to_vec());
}

#[test]
fn framer_without_body() {
    let mut capture = Vec::new();
    let framer = Framer::new()
        .supply(b"GET / HTTP/1.1\r\n", &mut capture)
        .supply(b"Content-Length: 6\r\n", &mut capture)
        .supply(b"\r\n", &mut capture);
    assert_eq!(framer.demand(), Demand::Nothing);
    let request = framer.finish().unwrap().unwrap();
    assert_eq!(request.content, None);
}

#[test]
fn append_adds_at_the_end() {
    let mut capture = vec![1u8, 2];
    append(&mut capture, &[3, 4, 5]);
    append(&mut capture, &[]);
    assert_eq!(capture, vec![1, 2, 3, 4, 5]);
}

#[test]
fn sequence_numbers_count_up_from_one() {
    let mut counter = SequenceCounter::new();
    for expected in 1..=1000u32 {
        assert_eq!(counter.next(), Some(expected));
    }
}

#[test]
fn acknowledgment_is_a_bare_status_line() {
    assert_eq!(acknowledgment(), b"HTTP/1.1 204 No Content\r\n\r\n".to_vec());
}

#[test]
fn completion_follows_the_outcome() {
    let mut capture = Vec::new();
    let ok = parse_http(b"GET / HTTP/1.1\r\n\r\n", &mut capture);
    assert_eq!(completion_for(&ok), Completion::Acknowledge);
    for input in [
        &b"GET /\r\n"[..],
        b"GET / HTTP/x\r\n",
        b"POST / HTTP/1.1\r\ncontent-length: x\r\n\r\n",
        b"\xff",
    ] {
        let failed = parse_http(input, &mut capture);
        assert_eq!(completion_for(&failed), Completion::Drain);
    }
}

#[test]
fn record_kinds_have_their_tags() {
    assert_eq!(RecordKind::Http.tag(), "http");
    assert_eq!(RecordKind::Raw.tag(), "raw");
}

#[test]
fn finalize_makes_the_record_and_counts() {
    let mut counter = SequenceCounter::new();
    let mut capture = Vec::new();
    let outcome = parse_http(b"GET /x HTTP/1.1\r\n\r\n", &mut capture);
    let record = finalize(&mut counter, "10.0.0.1".to_string(), outcome, capture).unwrap();
    assert_eq!(record.sequence, 1);
    assert_eq!(record.peer_address, "10.0.0.1");
    assert_eq!(record.kind, RecordKind::Http);
    assert_eq!(record.raw_bytes, b"GET /x HTTP/1.1\r\n\r\n".to_vec());
    assert_eq!(record.parsed.unwrap().path, "/x");

    let record = finalize(
        &mut counter,
        "10.0.0.2".to_string(),
        Err(FramingError::MalformedVersion),
        b"junk".to_vec(),
    )
    .unwrap();
    assert_eq!(record.sequence, 2);
    assert_eq!(record.kind, RecordKind::Raw);
    assert_eq!(record.raw_bytes, b"junk".to_vec());
    assert!(record.parsed.is_none());
    assert_eq!(counter.next(), Some(3));
}

#[test]
fn a_connection_that_fails_framing_is_recorded_raw_and_not_answered() {
    let mut counter = SequenceCounter::new();
    for (i, input) in [
        &b"\x16\x03\x01\x02\x00\x01\x00\x01\xfc\x03\x03 binary \n more \n and more"[..],
        b"GET /\r\nHost: a\r\n\r\nbody",
        b"GET / HTTP/one\r\nHost: a\r\n\r\n",
        b"POST / HTTP/1.1\r\nContent-Length: many\r\n\r\nbody and the rest",
        b"",
    ]
    .iter()
    .enumerate()
    {
        let handled = handle_connection(input, "192.0.2.7".to_string(), &mut counter).unwrap();
        assert_eq!(handled.record.kind, RecordKind::Raw);
        assert_eq!(handled.record.raw_bytes, input.to_vec());
        assert!(handled.record.parsed.is_none());
        assert_eq!(handled.reply, None);
        assert_eq!(handled.record.sequence, i as u32 + 1);
        assert_eq!(handled.record.peer_address, "192.0.2.7");
    }
}

#[test]
fn a_connection_with_a_request_is_recorded_and_acknowledged() {
    let mut counter = SequenceCounter::new();
    let input = b"POST /form HTTP/1.1\r\nContent-Length: 6\r\n\r\ntest=1GET / HTTP/1.1\r\n\r\n";
    let handled = handle_connection(input, "::1".to_string(), &mut counter).unwrap();
    assert_eq!(handled.record.kind, RecordKind::Http);
    assert_eq!(handled.record.sequence, 1);
    assert_eq!(
        handled.record.raw_bytes,
        b"POST /form HTTP/1.1\r\nContent-Length: 6\r\n\r\ntest=1".to_vec()
    );
    let request = handled.record.parsed.unwrap();
    assert_eq!(request.method, "POST");
    assert_eq!(request.content, Some("test=1".to_string()));
    assert_eq!(handled.reply, Some(b"HTTP/1.1 204 No Content\r\n\r\n".to_vec()));
    let next = handle_connection(b"x", "::1".to_string(), &mut counter).unwrap();
    assert_eq!(next.record.sequence, 2);
}

fn record(sequence: u32, peer: &str, kind: RecordKind) -> CaptureRecord {
    CaptureRecord {
        sequence,
        peer_address: peer.to_string(),
        kind,
        raw_bytes: Vec::new(),
        parsed: None,
    }
}

#[test]
fn file_names_pad_the_sequence_number_to_five_digits() {
    assert_eq!(record(1, "127.0.0.1", RecordKind::Http).file_name(), "00001-127.0.0.1-http");
    assert_eq!(record(0, "127.0.0.1", RecordKind::Raw).file_name(), "00000-127.0.0.1-raw");
    assert_eq!(record(42, "::1", RecordKind::Raw).file_name(), "00042-::1-raw");
    assert_eq!(record(99999, "a", RecordKind::Http).file_name(), "99999-a-http");
    assert_eq!(record(100000, "a", RecordKind::Http).file_name(), "100000-a-http");
    assert_eq!(
        record(u32::MAX, "10.1.2.3", RecordKind::Raw).file_name(),
        "4294967295-10.1.2.3-raw"
    );
    for sequence in [7u32, 10, 12345, 123456, 4000000000] {
        assert_eq!(
            record(sequence, "h", RecordKind::Raw).file_name(),
            format!("{:05}-{}-{}", sequence, "h", "raw")
        );
    }
}

#[test]
fn file_names_sort_by_sequence_number() {
    let names: Vec<String> = (1..=200u32)
        .map(|n| record(n, "198.51.100.1", RecordKind::Raw).file_name())
        .collect();
    let mut sorted = names.clone();
    sorted.sort();
    assert_eq!(names, sorted);
    sorted.dedup();
    assert_eq!(sorted.len(), 200);
}
