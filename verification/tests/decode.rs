use httpcore::body::BodyFraming;
use httpcore::response::ResponseDecoder;
use httpcore::Error;

#[test]
fn simple_response_head() {
    let mut dec = ResponseDecoder::new(256, 16);
    let resp = b"HTTP/1.1 200 OK\r\nContent-Length: 2\r\n\r\nOK";
    let consumed = dec.push(resp).unwrap();
    assert!(dec.is_done());
    assert_eq!(&resp[consumed..], &b"OK"[..]);
    assert_eq!(dec.status_code(), 200);
    assert_eq!(dec.reason(), &b"OK"[..]);
    assert_eq!(dec.header_count(), 1);
    assert_eq!(dec.header_name(0), &b"Content-Length"[..]);
    assert_eq!(dec.header_value(0), &b"2"[..]);
    assert_eq!(dec.framing(), Ok(BodyFraming::ContentLength(2)));
}

#[test]
fn split_delivery_matches_single_delivery() {
    let resp = b"HTTP/1.1 404 Not Found\r\nContent-Type: text/plain\r\nContent-Length: 9\r\n\r\nnot found";
    let mut whole = ResponseDecoder::new(256, 16);
    let c = whole.push(resp).unwrap();
    for split in 0..=resp.len() {
        let mut dec = ResponseDecoder::new(256, 16);
        let a = &resp[..split];
        let b = &resp[split..];
        let ca = dec.push(a).unwrap();
        let mut cb = 0;
        if !dec.is_done() {
            cb = dec.push(b).unwrap();
            assert_eq!(ca, a.len());
        }
        assert!(dec.is_done());
        assert_eq!(ca + cb, c);
        assert_eq!(dec.status_code(), whole.status_code());
        assert_eq!(dec.reason(), whole.reason());
        assert_eq!(dec.header_count(), whole.header_count());
        for i in 0..dec.header_count() {
            assert_eq!(dec.header_name(i), whole.header_name(i));
            assert_eq!(dec.header_value(i), whole.header_value(i));
        }
    }
}

#[test]
fn reason_may_be_empty() {
    let mut dec = ResponseDecoder::new(256, 16);
    dec.push(b"HTTP/1.1 204\r\n\r\n").unwrap();
    assert!(dec.is_done());
    assert_eq!(dec.status_code(), 204);
    assert_eq!(dec.reason(), &b""[..]);
    assert_eq!(dec.framing(), Ok(BodyFraming::UntilClose));
}

#[test]
fn header_value_whitespace_is_trimmed() {
    let mut dec = ResponseDecoder::new(256, 16);
    dec.push(b"HTTP/1.1 200 OK\r\nX-Note:   a b\tc  \t\r\n\r\n").unwrap();
    assert!(dec.is_done());
    assert_eq!(dec.header_value(0), &b"a b\tc"[..]);
}

#[test]
fn header_lookup_is_case_insensitive_first_wins() {
    let mut dec = ResponseDecoder::new(256, 16);
    dec.push(b"HTTP/1.1 200 OK\r\nX-Tag: first\r\nx-tag: second\r\n\r\n")
        .unwrap();
    assert_eq!(dec.find_header(b"x-TAG"), Some(&b"first"[..]));
    assert_eq!(dec.find_header(b"missing"), None);
}

#[test]
fn chunked_framing_detected_case_insensitively() {
    let mut dec = ResponseDecoder::new(256, 16);
    dec.push(b"HTTP/1.1 200 OK\r\nTransfer-Encoding: CHUNKED\r\n\r\n")
        .unwrap();
    assert_eq!(dec.framing(), Ok(BodyFraming::Chunked));
}

#[test]
fn status_code_must_be_three_digits() {
    let mut dec = ResponseDecoder::new(256, 16);
    assert_eq!(dec.push(b"HTTP/1.1 20 OK\r\n\r\n"), Err(Error::Codec));
}

#[test]
fn status_line_needs_version() {
    let mut dec = ResponseDecoder::new(256, 16);
    assert_eq!(dec.push(b" 200 OK\r\n\r\n"), Err(Error::Codec));
}

#[test]
fn status_code_out_of_range_is_rejected() {
    let mut dec = ResponseDecoder::new(256, 16);
    assert_eq!(dec.push(b"HTTP/1.1 999 Strange\r\n\r\n"), Err(Error::Codec));
}

#[test]
fn header_line_needs_name() {
    let mut dec = ResponseDecoder::new(256, 16);
    assert_eq!(
        dec.push(b"HTTP/1.1 200 OK\r\n: nameless\r\n\r\n"),
        Err(Error::Codec)
    );
}

#[test]
fn malformed_content_length_is_codec_error() {
    let mut dec = ResponseDecoder::new(256, 16);
    dec.push(b"HTTP/1.1 200 OK\r\nContent-Length: 12x\r\n\r\n").unwrap();
    assert_eq!(dec.framing(), Err(Error::Codec));
}

#[test]
fn huge_content_length_is_codec_error() {
    let mut dec = ResponseDecoder::new(256, 16);
    dec.push(b"HTTP/1.1 200 OK\r\nContent-Length: 99999999999999999999999\r\n\r\n")
        .unwrap();
    assert_eq!(dec.framing(), Err(Error::Codec));
}

#[test]
fn head_larger_than_buffer_fails() {
    let mut dec = ResponseDecoder::new(16, 16);
    assert_eq!(
        dec.push(b"HTTP/1.1 200 OK\r\nContent-Length: 2\r\n\r\nOK"),
        Err(Error::BufferTooSmall)
    );
}

#[test]
fn more_headers_than_store_capacity_fails() {
    let mut dec = ResponseDecoder::new(256, 1);
    assert_eq!(
        dec.push(b"HTTP/1.1 200 OK\r\nA: 1\r\nB: 2\r\n\r\n"),
        Err(Error::BufferTooSmall)
    );
}

#[test]
fn need_more_data_reports_all_consumed() {
    let mut dec = ResponseDecoder::new(256, 16);
    let part = b"HTTP/1.1 200 OK\r\nContent-Le";
    let consumed = dec.push(part).unwrap();
    assert_eq!(consumed, part.len());
    assert!(!dec.is_done());
}
