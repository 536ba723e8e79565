use hyper::chunked::{encode_chunk, encode_last_chunk, ChunkDecoder};
use hyper::conn::{stream, Action, CloseReason, Conn, ConsumerStatus, StreamRx, StreamState};
use hyper::framing::{
    resolve_request, resolve_response, should_have_response_body, BodyFraming, FramingError,
    HeaderField,
};
use hyper::parse::{parse_request, Malformed, ParseStatus, Request};
use hyper::reader::BodyReader;
use hyper::writer::{transfer, BodyWriter, Response, WriteError};

fn hf(name: &str, value: &str) -> HeaderField {
    HeaderField { name: name.as_bytes().to_vec(), value: value.as_bytes().to_vec() }
}

/// Feeds `input` to a fresh connection in one call.
fn run(input: &[u8]) -> (Conn, Vec<Action>) {
    let mut c = Conn::new();
    let acts = c.on_data(input, ConsumerStatus::Claimed);
    (c, acts)
}

fn body_of(acts: &[Action]) -> Vec<u8> {
    let mut b = Vec::new();
    for a in acts {
        if let Action::Body(d) = a {
            b.extend_from_slice(d);
        }
    }
    b
}

fn read_to_string(input: &[u8]) -> String {
    let (_, acts) = run(input);
    assert!(matches!(acts[0], Action::Incoming(_, _)));
    assert!(acts.iter().any(|a| matches!(a, Action::BodyComplete)));
    String::from_utf8(body_of(&acts)).unwrap()
}

#[test]
fn test_get_empty_body() {
    let input = b"GET / HTTP/1.1\r\nHost: example.domain\r\n\r\nI'm a bad request.\r\n";
    assert_eq!(read_to_string(input), "".to_owned());
}

#[test]
fn test_head_empty_body() {
    let input = b"HEAD / HTTP/1.1\r\nHost: example.domain\r\n\r\nI'm a bad request.\r\n";
    assert_eq!(read_to_string(input), "".to_owned());
}

#[test]
fn test_post_empty_body() {
    let input = b"POST / HTTP/1.1\r\nHost: example.domain\r\n\r\nI'm a bad request.\r\n";
    assert_eq!(read_to_string(input), "".to_owned());
}

#[test]
fn get_resolves_to_empty_body() {
    let mut c = Conn::new();
    let acts = c.on_data(b"GET / HTTP/1.1\r\nHost: x\r\n\r\n", ConsumerStatus::Unclaimed);
    assert_eq!(acts.len(), 2);
    match &acts[0] {
        Action::Incoming(h, f) => {
            assert_eq!(h.method, b"GET".to_vec());
            assert_eq!(h.target, b"/".to_vec());
            assert_eq!(h.minor_version, 1);
            assert_eq!(h.headers.len(), 1);
            assert_eq!(h.headers[0].name, b"Host".to_vec());
            assert_eq!(h.headers[0].value, b"x".to_vec());
            assert_eq!(*f, BodyFraming::Empty);
        }
        _ => panic!("expected a parsed head"),
    }
    assert!(matches!(acts[1], Action::BodyComplete));
}

#[test]
fn post_sized_body() {
    let (_, acts) = run(b"POST /e HTTP/1.1\r\nContent-Length: 5\r\n\r\nhello");
    assert!(matches!(acts[0], Action::Incoming(_, BodyFraming::Sized(5))));
    assert_eq!(body_of(&acts), b"hello".to_vec());
    assert!(matches!(acts.last().unwrap(), Action::BodyComplete));
}

#[test]
fn chunked_body_decodes() {
    let (_, acts) = run(b"POST / HTTP/1.1\r\nTransfer-Encoding: chunked\r\n\r\n4\r\nWiki\r\n5\r\npedia\r\n0\r\n\r\n");
    assert!(matches!(acts[0], Action::Incoming(_, BodyFraming::Chunked)));
    assert_eq!(body_of(&acts), b"Wikipedia".to_vec());
    assert!(matches!(acts.last().unwrap(), Action::BodyComplete));
}

#[test]
fn h2_preface_closes() {
    let mut c = Conn::new();
    let acts = c.on_data(b"PRI * HTTP/2.0\r\n\r\nSM\r\n\r\n", ConsumerStatus::Claimed);
    assert_eq!(acts.len(), 1);
    assert!(matches!(acts[0], Action::Close(CloseReason::Malformed(Malformed::Http2Preface))));
    assert!(c.is_closed());
    assert!(c.on_data(b"GET / HTTP/1.1\r\n\r\n", ConsumerStatus::Claimed).is_empty());
}

#[test]
fn response_without_length_reads_until_close() {
    let h = vec![hf("Server", "x")];
    assert_eq!(resolve_response(b"GET", 200, &h), Ok(BodyFraming::ReadUntilClose));
    let mut r = BodyReader::new(BodyFraming::ReadUntilClose);
    let mut out = Vec::new();
    assert_eq!(r.read_available(b"abc", &mut out), Ok(3));
    assert!(!r.is_complete());
    assert!(r.on_eof());
    assert!(r.is_complete());
    assert_eq!(out, b"abc".to_vec());
}

#[test]
fn until_close_body_completes_at_eof() {
    let mut r = BodyReader::UntilClose;
    let mut out = Vec::new();
    assert_eq!(r.read_available(b"xyz", &mut out), Ok(3));
    assert!(!r.is_complete());
    let mut sized = BodyReader::Sized(4);
    assert!(!sized.on_eof());
}

#[test]
fn dropped_consumer_restarts_parsing() {
    let mut c = Conn::new();
    let acts = c.on_data(b"POST /a HTTP/1.1\r\nContent-Length: 10\r\n\r\nhel", ConsumerStatus::Claimed);
    assert_eq!(acts.len(), 2);
    assert_eq!(body_of(&acts), b"hel".to_vec());
    let acts = c.on_data(b"lo", ConsumerStatus::Claimed);
    assert_eq!(body_of(&acts), b"lo".to_vec());
    let acts = c.on_data(b"GET /b HTTP/1.1\r\n\r\n", ConsumerStatus::Gone);
    match &acts[0] {
        Action::Incoming(h, f) => {
            assert_eq!(h.target, b"/b".to_vec());
            assert_eq!(*f, BodyFraming::Empty);
        }
        _ => panic!("expected a new message"),
    }
    assert!(body_of(&acts).is_empty());
}

#[test]
fn fragmented_delivery_matches_whole() {
    let msg: &[u8] = b"POST /e HTTP/1.1\r\nContent-Length: 5\r\n\r\nhello";
    let (_, whole) = run(msg);
    for split in 1..msg.len() {
        let mut c = Conn::new();
        let mut acts = c.on_data(&msg[..split], ConsumerStatus::Claimed);
        acts.extend(c.on_data(&msg[split..], ConsumerStatus::Claimed));
        assert_eq!(body_of(&acts), body_of(&whole));
        assert!(matches!(acts.last().unwrap(), Action::BodyComplete));
        assert!(matches!(acts[0], Action::Incoming(_, BodyFraming::Sized(5))));
    }
}

#[test]
fn byte_by_byte_delivery() {
    let msg: &[u8] = b"POST / HTTP/1.1\r\nTransfer-Encoding: chunked\r\n\r\n4\r\nWiki\r\n5\r\npedia\r\n0\r\n\r\n";
    let mut c = Conn::new();
    let mut acts = Vec::new();
    for b in msg {
        acts.extend(c.on_data(&[*b], ConsumerStatus::Claimed));
    }
    assert_eq!(body_of(&acts), b"Wikipedia".to_vec());
    assert!(matches!(acts.last().unwrap(), Action::BodyComplete));
}

#[test]
fn chunked_round_trip() {
    let payloads: Vec<&[u8]> = vec![b"Wiki", b"", b"pedia", &[0u8; 300]];
    let mut enc = Vec::new();
    for p in &payloads {
        encode_chunk(p, &mut enc);
    }
    encode_last_chunk(&mut enc);
    let mut d = ChunkDecoder::new();
    let mut out = Vec::new();
    assert_eq!(d.feed(&enc, &mut out), Ok(enc.len()));
    assert!(d.is_done());
    assert_eq!(out, payloads.concat());
}

#[test]
fn chunk_frame_bytes() {
    let mut enc = Vec::new();
    encode_chunk(&[7u8; 26], &mut enc);
    let mut want = b"1a\r\n".to_vec();
    want.extend_from_slice(&[7u8; 26]);
    want.extend_from_slice(b"\r\n");
    assert_eq!(enc, want);
    let mut empty = Vec::new();
    encode_chunk(b"", &mut empty);
    assert!(empty.is_empty());
    encode_last_chunk(&mut empty);
    assert_eq!(empty, b"0\r\n\r\n".to_vec());
}

#[test]
fn chunk_extension_and_trailers() {
    let mut d = ChunkDecoder::new();
    let mut out = Vec::new();
    let input = b"1;this is an extension with a digit 1\r\n1\r\n0\r\nX-Trailer: y\r\n\r\nNEXT";
    assert_eq!(d.feed(input, &mut out), Ok(input.len() - 4));
    assert!(d.is_done());
    assert_eq!(out, b"1".to_vec());
}

#[test]
fn chunk_size_not_hex() {
    let mut d = ChunkDecoder::new();
    let mut out = Vec::new();
    assert!(d.feed(b"X\r\n1\r\n0\r\n\r\n", &mut out).is_err());
}

#[test]
fn chunk_size_invalid_extension() {
    let mut d = ChunkDecoder::new();
    let mut out = Vec::new();
    assert!(d.feed(b"1 this is an invalid extension\r\n1\r\n0\r\n\r\n", &mut out).is_err());
}

#[test]
fn chunk_missing_crlf() {
    let mut d = ChunkDecoder::new();
    let mut out = Vec::new();
    assert!(d.feed(b"2\r\nabX\r\n", &mut out).is_err());
}

#[test]
fn chunk_size_overflow() {
    let mut d = ChunkDecoder::new();
    let mut out = Vec::new();
    assert!(d.feed(b"10000000000000000\r\n", &mut out).is_err());
}

#[test]
fn bad_chunk_closes_connection() {
    let mut c = Conn::new();
    let acts = c.on_data(b"POST / HTTP/1.1\r\nTransfer-Encoding: chunked\r\n\r\nZZ\r\n", ConsumerStatus::Claimed);
    assert_eq!(acts.len(), 2);
    assert!(matches!(acts[1], Action::Close(CloseReason::BadChunk)));
    assert!(c.is_closed());
}

#[test]
fn framing_is_deterministic() {
    let h = vec![hf("Content-Length", "12"), hf("Host", "a")];
    assert_eq!(resolve_request(b"PUT", &h), resolve_request(b"PUT", &h.clone()));
    assert_eq!(resolve_request(b"PUT", &h), Ok(BodyFraming::Sized(12)));
}

#[test]
fn framing_rules() {
    let te = vec![hf("transfer-ENCODING", "gzip, Chunked "), hf("Content-Length", "3")];
    assert_eq!(resolve_request(b"POST", &te), Ok(BodyFraming::Chunked));
    assert_eq!(resolve_request(b"GET", &te), Ok(BodyFraming::Empty));
    let not_last = vec![hf("Transfer-Encoding", "chunked, gzip")];
    assert_eq!(resolve_request(b"POST", &not_last), Ok(BodyFraming::Empty));
    assert_eq!(resolve_response(b"GET", 200, &not_last), Ok(BodyFraming::ReadUntilClose));
    let joined = vec![hf("Transfer-Encoding", "xchunked")];
    assert_eq!(resolve_request(b"POST", &joined), Ok(BodyFraming::Empty));
    assert_eq!(resolve_response(b"HEAD", 200, &te), Ok(BodyFraming::Empty));
    assert_eq!(resolve_response(b"GET", 204, &te), Ok(BodyFraming::Empty));
    assert_eq!(resolve_response(b"GET", 304, &te), Ok(BodyFraming::Empty));
    assert_eq!(resolve_response(b"GET", 101, &te), Ok(BodyFraming::Empty));
    assert_eq!(resolve_response(b"CONNECT", 200, &te), Ok(BodyFraming::Empty));
    assert_eq!(resolve_response(b"CONNECT", 404, &te), Ok(BodyFraming::Chunked));
    assert!(should_have_response_body(b"POST", 200));
    assert!(!should_have_response_body(b"HEAD", 500));
}

#[test]
fn content_length_errors() {
    let dup = vec![hf("Content-Length", "3"), hf("content-length", "3")];
    assert_eq!(resolve_request(b"POST", &dup), Err(FramingError::InvalidContentLength));
    let bad = vec![hf("Content-Length", "3x")];
    assert_eq!(resolve_response(b"GET", 200, &bad), Err(FramingError::InvalidContentLength));
    let huge = vec![hf("Content-Length", "18446744073709551616")];
    assert_eq!(resolve_request(b"POST", &huge), Err(FramingError::InvalidContentLength));
    let max = vec![hf("Content-Length", "18446744073709551615")];
    assert_eq!(resolve_request(b"POST", &max), Ok(BodyFraming::Sized(u64::MAX)));
    let mut c = Conn::new();
    let acts = c.on_data(b"POST / HTTP/1.1\r\nContent-Length: 1\r\nContent-Length: 2\r\n\r\n", ConsumerStatus::Claimed);
    assert!(matches!(acts[0], Action::Close(CloseReason::Framing(FramingError::InvalidContentLength))));
}

#[test]
fn sized_writer_enforces_length() {
    let mut w = BodyWriter::new(BodyFraming::Sized(5));
    let mut out = Vec::new();
    assert_eq!(w.write(b"hello!", &mut out), Err(WriteError::TooLong));
    assert!(out.is_empty());
    assert_eq!(w.write(b"hel", &mut out), Ok(()));
    assert_eq!(w.finish(&mut out), Err(WriteError::TooShort));
    assert_eq!(w.write(b"lo", &mut out), Ok(()));
    assert_eq!(w.finish(&mut out), Ok(()));
    assert_eq!(out, b"hello".to_vec());
}

#[test]
fn chunked_writer_finishes_once() {
    let mut w = BodyWriter::new(BodyFraming::Chunked);
    let mut out = Vec::new();
    assert_eq!(w.write(b"Wiki", &mut out), Ok(()));
    assert_eq!(w.finish(&mut out), Ok(()));
    assert_eq!(w.finish(&mut out), Ok(()));
    assert_eq!(w.write(b"x", &mut out), Err(WriteError::Finished));
    assert_eq!(out, b"4\r\nWiki\r\n0\r\n\r\n".to_vec());
}

#[test]
fn buffer_bound() {
    let max = hyper::conn::MAX_BUFFER_SIZE;
    assert_eq!(max, 417792);
    let mut head = b"GET / HTTP/1.1\r\nX: ".to_vec();
    head.resize(max - 1, b'a');
    let mut c = Conn::new();
    let acts = c.on_data(&head, ConsumerStatus::Claimed);
    assert!(acts.is_empty());
    assert!(!c.is_closed());
    let acts = c.on_data(b"a", ConsumerStatus::Claimed);
    assert_eq!(acts.len(), 1);
    assert!(matches!(acts[0], Action::Close(CloseReason::TooLarge)));
    assert!(c.is_closed());
}

#[test]
fn malformed_head_closes() {
    let mut c = Conn::new();
    let acts = c.on_data(b"GET / HTTP/1.1\r\nBad Header\r\n\r\n", ConsumerStatus::Claimed);
    assert!(matches!(acts[0], Action::Close(CloseReason::Malformed(Malformed::Syntax))));
}

#[test]
fn parse_reports_offset() {
    let buf = b"GET /x?q=1 HTTP/1.0\r\nA: b\r\n\r\nrest";
    match parse_request(buf) {
        ParseStatus::Parsed(h, n) => {
            assert_eq!(n, buf.len() - 4);
            assert_eq!(h.target, b"/x?q=1".to_vec());
            assert_eq!(h.minor_version, 0);
            let r = Request::new(h);
            assert_eq!(r.uri, b"/x?q=1".to_vec());
            assert_eq!(r.method, b"GET".to_vec());
        }
        _ => panic!("expected a parsed head"),
    }
    assert!(matches!(parse_request(b"GET / HT"), ParseStatus::NeedMoreData));
}

#[test]
fn pipelined_message_after_body() {
    let (mut c, mut acts) = run(b"POST / HTTP/1.1\r\nContent-Length: 2\r\n\r\nokGET /n HTTP/1.1\r\n\r\n");
    acts.extend(c.on_data(b"", ConsumerStatus::Claimed));
    let heads: Vec<&Action> = acts.iter().filter(|a| matches!(a, Action::Incoming(_, _))).collect();
    assert_eq!(heads.len(), 2);
    assert_eq!(body_of(&acts), b"ok".to_vec());
    assert!(!c.is_closed());
}

#[test]
fn unclaimed_body_waits() {
    let mut c = Conn::new();
    let acts = c.on_data(b"POST / HTTP/1.1\r\nContent-Length: 4\r\n\r\nab", ConsumerStatus::Unclaimed);
    assert_eq!(body_of(&acts), b"ab".to_vec());
    assert!(c.on_data(b"c", ConsumerStatus::Unclaimed).is_empty());
    let acts = c.on_data(b"d", ConsumerStatus::Claimed);
    assert_eq!(body_of(&acts), b"cd".to_vec());
    assert!(matches!(acts.last().unwrap(), Action::BodyComplete));
}

#[test]
fn eof_behaviour() {
    let mut c = Conn::new();
    assert!(c.on_eof(ConsumerStatus::Claimed).is_empty());
    let mut c = Conn::new();
    c.on_data(b"GET / HT", ConsumerStatus::Claimed);
    assert!(matches!(c.on_eof(ConsumerStatus::Claimed)[0], Action::UnexpectedEnd));
    let mut c = Conn::new();
    c.on_data(b"POST / HTTP/1.1\r\nContent-Length: 9\r\n\r\nab", ConsumerStatus::Claimed);
    assert!(matches!(c.on_eof(ConsumerStatus::Claimed)[0], Action::UnexpectedEnd));
    assert!(c.is_closed());
}

#[test]
fn rendezvous_latest_wins() {
    let mut rx = StreamRx::new();
    assert_eq!(rx.poll(&vec![], false), ConsumerStatus::Unclaimed);
    assert_eq!(rx.poll(&vec![StreamState::Paused, StreamState::Reading], false), ConsumerStatus::Claimed);
    assert_eq!(rx.poll(&vec![], false), ConsumerStatus::Claimed);
    assert_eq!(rx.poll(&vec![StreamState::Paused], true), ConsumerStatus::Gone);
}

#[test]
fn stream_of_request() {
    let buf = b"POST / HTTP/1.1\r\nContent-Length: 3\r\n\r\n";
    if let ParseStatus::Parsed(h, _) = parse_request(buf) {
        let s = stream(&h).unwrap();
        assert!(matches!(s.body, BodyReader::Sized(3)));
    } else {
        panic!("expected a parsed head");
    }
}

#[test]
fn response_head_with_date_and_chunked() {
    let t = transfer::<Response>();
    let mut h = vec![hf("Server", "s")];
    let mut t = t.start_at(1, 200, b"OK", &mut h, b"Thu, 22 Mar 2012 14:53:18 GMT").unwrap();
    assert_eq!(t.body, Some(BodyWriter::Chunked { finished: false }));
    assert_eq!(t.write(b"hi"), Ok(()));
    assert_eq!(t.finish(), Ok(()));
    let out = t.take_output();
    let want = b"HTTP/1.1 200 OK\r\nServer: s\r\nDate: Thu, 22 Mar 2012 14:53:18 GMT\r\nTransfer-Encoding: chunked\r\n\r\n2\r\nhi\r\n0\r\n\r\n";
    assert_eq!(String::from_utf8(out).unwrap(), String::from_utf8(want.to_vec()).unwrap());
}

#[test]
fn response_head_keeps_transfer_encoding() {
    let mut h = vec![hf("Date", "d"), hf("Transfer-Encoding", "gzip")];
    let t = transfer::<Response>().start_at(1, 404, b"Not Found", &mut h, b"unused").unwrap();
    assert_eq!(h.len(), 3);
    assert_eq!(h[1].value, b"gzip".to_vec());
    assert_eq!(h[2].value, b"chunked".to_vec());
    assert!(String::from_utf8(t.out).unwrap().starts_with("HTTP/1.1 404 Not Found\r\nDate: d\r\n"));
}

#[test]
fn response_start_adds_current_date() {
    let mut h = vec![hf("Content-Length", "2")];
    let mut t = transfer::<Response>().start(1, 200, b"OK", &mut h).unwrap();
    assert_eq!(h.len(), 2);
    assert_eq!(h[1].name, b"Date".to_vec());
    assert!(h[1].value.ends_with(b"GMT"));
    assert_eq!(t.write(b"abc"), Err(WriteError::TooLong));
    assert_eq!(t.write(b"ab"), Ok(()));
    assert_eq!(t.finish(), Ok(()));
}

#[test]
fn request_head() {
    let mut h = vec![hf("Host", "a")];
    let t = transfer::<hyper::writer::Request>().start(b"GET", b"/p?q", &mut h).unwrap();
    assert_eq!(t.body, Some(BodyWriter::Sized { remaining: 0 }));
    assert_eq!(t.out, b"GET /p?q HTTP/1.1\r\nHost: a\r\n\r\n".to_vec());
    let mut h2 = vec![hf("Host", "a")];
    let t2 = transfer::<hyper::writer::Request>().start(b"POST", b"/", &mut h2).unwrap();
    assert_eq!(t2.body, Some(BodyWriter::Chunked { finished: false }));
    assert_eq!(h2.len(), 2);
    let mut bad = vec![hf("Content-Length", "z")];
    assert!(transfer::<hyper::writer::Request>().start(b"PUT", b"/", &mut bad).is_err());
}

#[test]
fn chunk_size_whitespace_then_extension() {
    let mut d = ChunkDecoder::new();
    let mut out = Vec::new();
    let input = b"3 \t;name=v\r\nabc\r\n0\r\n\r\n";
    assert_eq!(d.feed(input, &mut out), Ok(input.len()));
    assert_eq!(out, b"abc".to_vec());
}

#[test]
fn sized_body_in_one_call() {
    let mut c = Conn::new();
    let acts = c.on_data(b"POST /e HTTP/1.1\r\nContent-Length: 5\r\n\r\nhello", ConsumerStatus::Unclaimed);
    assert_eq!(acts.len(), 3);
    assert!(matches!(acts[0], Action::Incoming(_, BodyFraming::Sized(5))));
    assert!(matches!(&acts[1], Action::Body(b) if b.as_slice() == b"hello"));
    assert!(matches!(acts[2], Action::BodyComplete));
    assert!(!c.is_closed());
}

#[test]
fn chunked_body_in_one_call() {
    let mut c = Conn::new();
    let acts = c.on_data(b"POST / HTTP/1.1\r\nTransfer-Encoding: chunked\r\n\r\n4\r\nWiki\r\n5\r\npedia\r\n0\r\n\r\n", ConsumerStatus::Unclaimed);
    assert_eq!(acts.len(), 3);
    assert!(matches!(&acts[1], Action::Body(b) if b.as_slice() == b"Wikipedia"));
    assert!(matches!(acts[2], Action::BodyComplete));
}

#[test]
fn eof_reads_pending_body() {
    let mut c = Conn::new();
    c.on_data(b"POST / HTTP/1.1\r\nContent-Length: 3\r\n\r\n", ConsumerStatus::Unclaimed);
    assert!(c.on_data(b"abc", ConsumerStatus::Unclaimed).is_empty());
    let acts = c.on_eof(ConsumerStatus::Claimed);
    assert_eq!(acts.len(), 2);
    assert_eq!(body_of(&acts), b"abc".to_vec());
    assert!(matches!(acts[1], Action::BodyComplete));
    let mut c = Conn::new();
    c.on_data(b"POST / HTTP/1.1\r\nContent-Length: 3\r\n\r\n", ConsumerStatus::Unclaimed);
    c.on_data(b"ab", ConsumerStatus::Unclaimed);
    let acts = c.on_eof(ConsumerStatus::Claimed);
    assert_eq!(body_of(&acts), b"ab".to_vec());
    assert!(matches!(acts[1], Action::UnexpectedEnd));
}

#[test]
fn bodiless_status_has_empty_body() {
    for status in [101u16, 204, 304] {
        let mut h = vec![hf("Date", "d")];
        let mut t = transfer::<Response>().start_at(1, status, b"X", &mut h, b"unused").unwrap();
        assert_eq!(t.body, Some(BodyWriter::Sized { remaining: 0 }));
        assert_eq!(h.len(), 1);
        assert_eq!(t.write(b"x"), Err(WriteError::TooLong));
        assert_eq!(t.finish(), Ok(()));
    }
}

#[test]
fn response_start_error_keeps_date() {
    let mut h = vec![hf("Content-Length", "nope")];
    let r = transfer::<Response>().start_at(1, 200, b"OK", &mut h, b"today");
    assert_eq!(r.err(), Some(FramingError::InvalidContentLength));
    assert_eq!(h.len(), 2);
    assert_eq!(h[1].value, b"today".to_vec());
}
