use httpcore::body::{BodyFraming, BodyReader};
use httpcore::connection::{ConnFsm, ConnState, RequestBody};
use httpcore::request::{write_header, write_headers_end, write_request_line, Method};
use httpcore::response::ResponseDecoder;
use httpcore::text::parse_decimal;
use httpcore::Error;

#[test]
fn full_exchange_scenario() {
    // Encode the request.
    let mut buf = vec![0u8; 128];
    let mut fsm = ConnFsm::new();
    fsm.start_request(RequestBody::ContentLength(0)).unwrap();
    let p = write_request_line(&mut buf, 0, Method::Get, b"/status").unwrap();
    let p = write_header(&mut buf, p, b"Host", b"example").unwrap();
    let p = write_headers_end(&mut buf, p).unwrap();
    assert_eq!(&buf[..p], &b"GET /status HTTP/1.1\r\nHost: example\r\n\r\n"[..]);
    fsm.finish_send().unwrap();
    fsm.start_reading();

    // Decode the response head.
    let resp = b"HTTP/1.1 200 OK\r\nContent-Length: 2\r\n\r\nOK";
    let mut dec = ResponseDecoder::new(256, 16);
    let consumed = dec.push(resp).unwrap();
    assert!(dec.is_done());
    assert_eq!(dec.status_code(), 200);
    assert_eq!(dec.reason(), &b"OK"[..]);
    assert_eq!(dec.header_count(), 1);
    assert_eq!(dec.find_header(b"content-length"), Some(&b"2"[..]));
    fsm.headers_received();

    // Decode the body.
    let framing = dec.framing().unwrap();
    assert_eq!(framing, BodyFraming::ContentLength(2));
    let mut body = BodyReader::new(framing);
    let rest = &resp[consumed..];
    let s = body.feed(rest).unwrap();
    assert_eq!(&rest[s.data_start..s.data_start + s.data_len], b"OK");
    assert!(s.finished);
    fsm.body_complete();
    fsm.finish_cycle(true);
    assert_eq!(fsm.state, ConnState::Idle);
}

#[test]
fn encoded_request_parses_back() {
    // A concrete round trip: the encoded head, cut back into its lines,
    // carries exactly the method, path and headers that were written.
    let mut buf = vec![0u8; 256];
    let p = write_request_line(&mut buf, 0, Method::Post, b"/submit?q=1").unwrap();
    let p = write_header(&mut buf, p, b"Host", b"example.org").unwrap();
    let p = write_header(&mut buf, p, b"Content-Type", b"text/plain; charset=utf-8").unwrap();
    let p = write_headers_end(&mut buf, p).unwrap();
    let head = &buf[..p];
    let text = std::str::from_utf8(head).unwrap();
    let mut lines = text.split("\r\n");
    assert_eq!(lines.next(), Some("POST /submit?q=1 HTTP/1.1"));
    assert_eq!(lines.next(), Some("Host: example.org"));
    assert_eq!(lines.next(), Some("Content-Type: text/plain; charset=utf-8"));
    assert_eq!(lines.next(), Some(""));
    assert_eq!(lines.next(), Some(""));
    assert_eq!(lines.next(), None);
}

#[test]
fn parse_decimal_accepts_plain_numbers() {
    assert_eq!(parse_decimal(b"0"), Ok(0));
    assert_eq!(parse_decimal(b"42"), Ok(42));
    assert_eq!(parse_decimal(b"007"), Ok(7));
}

#[test]
fn parse_decimal_rejects_bad_input() {
    assert_eq!(parse_decimal(b""), Err(Error::Codec));
    assert_eq!(parse_decimal(b"1 2"), Err(Error::Codec));
    assert_eq!(parse_decimal(b"-1"), Err(Error::Codec));
    assert_eq!(parse_decimal(b"99999999999999999999999999"), Err(Error::Codec));
}
