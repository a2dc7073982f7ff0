use httpcore::request::{
    hex_token, write_body_chunk, write_header, write_headers_end, write_request_line, Method,
};
use httpcore::Error;

#[test]
fn request_line_get() {
    let mut buf = vec![0u8; 64];
    let p = write_request_line(&mut buf, 0, Method::Get, b"/status").unwrap();
    assert_eq!(&buf[..p], &b"GET /status HTTP/1.1\r\n"[..]);
}

#[test]
fn request_line_all_methods() {
    let cases: Vec<(Method, &[u8])> = vec![
        (Method::Get, &b"GET"[..]),
        (Method::Post, &b"POST"[..]),
        (Method::Put, &b"PUT"[..]),
        (Method::Delete, &b"DELETE"[..]),
        (Method::Head, &b"HEAD"[..]),
        (Method::Options, &b"OPTIONS"[..]),
        (Method::Patch, &b"PATCH"[..]),
        (Method::Connect, &b"CONNECT"[..]),
        (Method::Trace, &b"TRACE"[..]),
    ];
    for (m, tok) in cases {
        let mut buf = vec![0u8; 64];
        let p = write_request_line(&mut buf, 0, m, b"/").unwrap();
        let mut want = tok.to_vec();
        want.extend_from_slice(b" / HTTP/1.1\r\n");
        assert_eq!(&buf[..p], &want[..]);
    }
}

#[test]
fn header_line() {
    let mut buf = vec![0u8; 64];
    let p = write_header(&mut buf, 0, b"Host", b"example").unwrap();
    assert_eq!(&buf[..p], &b"Host: example\r\n"[..]);
}

#[test]
fn headers_end() {
    let mut buf = vec![0u8; 8];
    let p = write_headers_end(&mut buf, 0).unwrap();
    assert_eq!(&buf[..p], &b"\r\n"[..]);
}

#[test]
fn request_line_too_small_leaves_buffer_unchanged() {
    let mut buf = vec![7u8; 10];
    let r = write_request_line(&mut buf, 0, Method::Get, b"/status");
    assert_eq!(r, Err(Error::BufferTooSmall));
    assert_eq!(buf, vec![7u8; 10]);
}

#[test]
fn header_too_small_leaves_buffer_unchanged() {
    let mut buf = vec![9u8; 6];
    let r = write_header(&mut buf, 0, b"Host", b"example");
    assert_eq!(r, Err(Error::BufferTooSmall));
    assert_eq!(buf, vec![9u8; 6]);
}

#[test]
fn writes_append_at_offset() {
    let mut buf = vec![0u8; 128];
    let p = write_request_line(&mut buf, 0, Method::Post, b"/submit").unwrap();
    let p = write_header(&mut buf, p, b"Host", b"example").unwrap();
    let p = write_header(&mut buf, p, b"Accept", b"*/*").unwrap();
    let p = write_headers_end(&mut buf, p).unwrap();
    assert_eq!(
        &buf[..p],
        &b"POST /submit HTTP/1.1\r\nHost: example\r\nAccept: */*\r\n\r\n"[..]
    );
}

#[test]
fn hex_tokens() {
    assert_eq!(hex_token(0), b"0".to_vec());
    assert_eq!(hex_token(5), b"5".to_vec());
    assert_eq!(hex_token(10), b"a".to_vec());
    assert_eq!(hex_token(26), b"1a".to_vec());
    assert_eq!(hex_token(255), b"ff".to_vec());
    assert_eq!(hex_token(4096), b"1000".to_vec());
}

#[test]
fn body_chunk_encoding() {
    let mut buf = vec![0u8; 64];
    let p = write_body_chunk(&mut buf, 0, b"ABCDE").unwrap();
    assert_eq!(&buf[..p], &b"5\r\nABCDE\r\n"[..]);
}

#[test]
fn terminating_chunk_encoding() {
    let mut buf = vec![0u8; 16];
    let p = write_body_chunk(&mut buf, 0, b"").unwrap();
    assert_eq!(&buf[..p], &b"0\r\n\r\n"[..]);
}

#[test]
fn body_chunk_too_small() {
    let mut buf = vec![0u8; 8];
    let r = write_body_chunk(&mut buf, 0, b"ABCDE");
    assert_eq!(r, Err(Error::BufferTooSmall));
    assert_eq!(buf, vec![0u8; 8]);
}
