use httpcore::body::{BodyFraming, BodyReader};
use httpcore::Error;

fn drain(reader: &mut BodyReader, mut input: &[u8]) -> (Vec<u8>, bool) {
    let mut out = Vec::new();
    let mut finished = reader.is_finished();
    while !input.is_empty() && !finished {
        let s = reader.feed(input).unwrap();
        out.extend_from_slice(&input[s.data_start..s.data_start + s.data_len]);
        finished = s.finished;
        input = &input[s.consumed..];
        if s.consumed == 0 && s.data_len == 0 && !finished {
            break;
        }
    }
    (out, finished)
}

#[test]
fn chunked_single_chunk_then_terminator() {
    let mut r = BodyReader::new(BodyFraming::Chunked);
    let (out, finished) = drain(&mut r, b"5\r\nABCDE\r\n0\r\n\r\n");
    assert_eq!(out, b"ABCDE".to_vec());
    assert!(finished);
    assert_eq!(r.eos_status(), Ok(()));
}

#[test]
fn chunked_multiple_chunks() {
    let mut r = BodyReader::new(BodyFraming::Chunked);
    let (out, finished) = drain(&mut r, b"3\r\nabc\r\na\r\n0123456789\r\n0\r\n\r\n");
    assert_eq!(out, b"abc0123456789".to_vec());
    assert!(finished);
}

#[test]
fn chunked_split_delivery() {
    let stream = b"5\r\nABCDE\r\n0\r\n\r\n";
    for split in 0..=stream.len() {
        let mut r = BodyReader::new(BodyFraming::Chunked);
        let (mut out, mut finished) = drain(&mut r, &stream[..split]);
        if !finished {
            let (more, fin2) = drain(&mut r, &stream[split..]);
            out.extend_from_slice(&more);
            finished = fin2;
        }
        assert_eq!(out, b"ABCDE".to_vec());
        assert!(finished);
    }
}

#[test]
fn chunk_extension_is_ignored() {
    let mut r = BodyReader::new(BodyFraming::Chunked);
    let (out, finished) = drain(&mut r, b"5;ext=1\r\nABCDE\r\n0\r\n\r\n");
    assert_eq!(out, b"ABCDE".to_vec());
    assert!(finished);
}

#[test]
fn chunked_trailers_are_consumed() {
    let mut r = BodyReader::new(BodyFraming::Chunked);
    let (out, finished) = drain(&mut r, b"5\r\nABCDE\r\n0\r\nTrail: v\r\nOther: w\r\n\r\n");
    assert_eq!(out, b"ABCDE".to_vec());
    assert!(finished);
}

#[test]
fn chunked_hex_sizes_both_cases() {
    let mut r = BodyReader::new(BodyFraming::Chunked);
    let (out, finished) = drain(&mut r, b"A\r\n0123456789\r\n0\r\n\r\n");
    assert_eq!(out, b"0123456789".to_vec());
    assert!(finished);
}

#[test]
fn chunked_bad_size_line_is_codec_error() {
    let mut r = BodyReader::new(BodyFraming::Chunked);
    assert_eq!(r.feed(b"zz\r\n"), Err(Error::Codec));
}

#[test]
fn chunked_missing_crlf_after_data_is_codec_error() {
    let mut r = BodyReader::new(BodyFraming::Chunked);
    let s = r.feed(b"3\r\nabc").unwrap();
    assert_eq!(&b"3\r\nabc"[s.data_start..s.data_start + s.data_len], b"abc");
    assert_eq!(r.feed(b"xx"), Err(Error::Codec));
}

#[test]
fn content_length_exact() {
    let mut r = BodyReader::new(BodyFraming::ContentLength(2));
    let input = b"OKextra";
    let s = r.feed(input).unwrap();
    assert_eq!(&input[s.data_start..s.data_start + s.data_len], b"OK");
    assert_eq!(s.consumed, 2);
    assert!(s.finished);
    assert_eq!(r.eos_status(), Ok(()));
}

#[test]
fn content_length_zero_is_immediately_finished() {
    let r = BodyReader::new(BodyFraming::ContentLength(0));
    assert!(r.is_finished());
    assert_eq!(r.eos_status(), Ok(()));
}

#[test]
fn short_content_length_body_is_connection_closed() {
    let mut r = BodyReader::new(BodyFraming::ContentLength(10));
    let (out, finished) = drain(&mut r, b"partial");
    assert_eq!(out, b"partial".to_vec());
    assert!(!finished);
    assert_eq!(r.eos_status(), Err(Error::ConnectionClosed));
}

#[test]
fn unfinished_chunked_body_is_connection_closed() {
    let mut r = BodyReader::new(BodyFraming::Chunked);
    let _ = r.feed(b"5\r\nAB").unwrap();
    let _ = r.feed(b"").unwrap();
    assert_eq!(r.eos_status(), Err(Error::ConnectionClosed));
}

#[test]
fn unframed_body_runs_until_close() {
    let mut r = BodyReader::new(BodyFraming::UntilClose);
    let (out, finished) = drain(&mut r, b"anything at all");
    assert_eq!(out, b"anything at all".to_vec());
    assert!(!finished);
    assert_eq!(r.eos_status(), Ok(()));
}
