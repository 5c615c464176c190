use h1core::decode::decode;
use h1core::message::{BodyReader, DecodeError, Method};
use h1core::stream::ByteStream;

fn stream(bytes: &[u8]) -> ByteStream {
    ByteStream::new(bytes.to_vec())
}

#[test]
fn decodes_simple_get() {
    let (req, cont) = decode(stream(b"GET / HTTP/1.1\r\nHost: a\r\n\r\n"))
        .unwrap()
        .unwrap();
    assert_eq!(req.method, Method::Get);
    assert_eq!(req.target, b"/".to_vec());
    assert_eq!(req.minor, 1);
    assert_eq!(req.headers.len(), 1);
    assert_eq!(req.headers[0].name, b"Host".to_vec());
    assert_eq!(req.headers[0].value, b"a".to_vec());
    assert!(matches!(req.body, BodyReader::Empty));
    assert!(cont.is_some());
}

#[test]
fn no_content_length_gives_empty_body_and_continuation() {
    let input = b"GET /a HTTP/1.1\r\n\r\nGET /b HTTP/1.1\r\n\r\n";
    let (req, cont) = decode(stream(input)).unwrap().unwrap();
    assert!(matches!(req.body, BodyReader::Empty));
    let cont = cont.expect("a continuation must be returned");
    let (req2, cont2) = decode(cont).unwrap().unwrap();
    assert_eq!(req2.target, b"/b".to_vec());
    assert!(cont2.is_some());
    assert!(matches!(req.method, Method::Get));
}

#[test]
fn content_length_binds_body_and_no_continuation() {
    let input = b"POST /x HTTP/1.1\r\nContent-Length: 5\r\n\r\nhello";
    let (req, cont) = decode(stream(input)).unwrap().unwrap();
    assert_eq!(req.method, Method::Post);
    assert!(cont.is_none());
    match req.body {
        BodyReader::Fixed { len, read, .. } => {
            assert_eq!(len, 5);
            assert_eq!(read, 0);
        },
        _ => panic!("expected a fixed-length body"),
    }
}

#[test]
fn content_length_name_is_case_insensitive() {
    let input = b"POST / HTTP/1.1\r\ncontent-LENGTH: 3\r\n\r\nabc";
    let (req, cont) = decode(stream(input)).unwrap().unwrap();
    assert!(cont.is_none());
    assert!(matches!(req.body, BodyReader::Fixed { len: 3, .. }));
}

#[test]
fn decode_at_eof_returns_none_every_time() {
    for _ in 0..3 {
        assert!(matches!(decode(stream(b"")), Ok(None)));
    }
}

#[test]
fn partial_head_then_eof_is_clean_close() {
    assert!(matches!(decode(stream(b"GET / HT")), Ok(None)));
    assert!(matches!(decode(stream(b"GET / HTTP/1.1\r\nHost: a\r\n")), Ok(None)));
}

#[test]
fn missing_target_is_rejected() {
    assert!(matches!(
        decode(stream(b"GET  HTTP/1.1\r\n\r\n")),
        Err(DecodeError::MissingTarget)
    ));
    assert!(matches!(
        decode(stream(b"GET\r\n\r\n")),
        Err(DecodeError::MissingTarget)
    ));
}

#[test]
fn missing_method_is_rejected() {
    assert!(matches!(decode(stream(b"\r\n\r\n")), Err(DecodeError::MissingMethod)));
    assert!(matches!(
        decode(stream(b" / HTTP/1.1\r\n\r\n")),
        Err(DecodeError::MissingMethod)
    ));
}

#[test]
fn missing_version_is_rejected() {
    assert!(matches!(
        decode(stream(b"GET /\r\n\r\n")),
        Err(DecodeError::MissingVersion)
    ));
}

#[test]
fn unsupported_version_is_rejected() {
    assert!(matches!(
        decode(stream(b"GET / HTTP/2.0\r\n\r\n")),
        Err(DecodeError::UnsupportedVersion)
    ));
}

#[test]
fn http_one_dot_zero_is_accepted() {
    let (req, _) = decode(stream(b"GET / HTTP/1.0\r\n\r\n")).unwrap().unwrap();
    assert_eq!(req.minor, 0);
}

#[test]
fn unknown_method_is_rejected() {
    assert!(matches!(
        decode(stream(b"FROB / HTTP/1.1\r\n\r\n")),
        Err(DecodeError::MalformedHead)
    ));
}

#[test]
fn invalid_target_byte_is_rejected() {
    assert!(matches!(
        decode(stream(b"GET /\x7f HTTP/1.1\r\n\r\n")),
        Err(DecodeError::InvalidUri)
    ));
}

#[test]
fn header_without_colon_is_rejected() {
    assert!(matches!(
        decode(stream(b"GET / HTTP/1.1\r\nnocolon\r\n\r\n")),
        Err(DecodeError::MalformedHead)
    ));
}

#[test]
fn control_byte_in_header_value_is_rejected() {
    assert!(matches!(
        decode(stream(b"GET / HTTP/1.1\r\nX: a\x01b\r\n\r\n")),
        Err(DecodeError::InvalidHeaderEncoding)
    ));
}

#[test]
fn non_numeric_content_length_is_rejected() {
    assert!(matches!(
        decode(stream(b"POST / HTTP/1.1\r\nContent-Length: five\r\n\r\n")),
        Err(DecodeError::InvalidContentLength)
    ));
}

#[test]
fn oversized_content_length_is_rejected() {
    let input = b"POST / HTTP/1.1\r\nContent-Length: 99999999999999999999999999\r\n\r\n";
    assert!(matches!(
        decode(stream(input)),
        Err(DecodeError::InvalidContentLength)
    ));
}

#[test]
fn header_value_leading_whitespace_is_trimmed() {
    let (req, _) = decode(stream(b"GET / HTTP/1.1\r\nHost:   spaced\r\n\r\n"))
        .unwrap()
        .unwrap();
    assert_eq!(req.headers[0].value, b"spaced".to_vec());
}

#[test]
fn read_body_yields_declared_bytes_then_nothing() {
    let input = b"POST / HTTP/1.1\r\nContent-Length: 5\r\n\r\nhelloEXTRA";
    let (mut req, _) = decode(stream(input)).unwrap().unwrap();
    assert_eq!(req.read_body(3), b"hel".to_vec());
    assert_eq!(req.read_body(10), b"lo".to_vec());
    assert_eq!(req.read_body(10), Vec::<u8>::new());
}

#[test]
fn read_body_stops_at_stream_end_when_body_is_short() {
    let input = b"POST / HTTP/1.1\r\nContent-Length: 9\r\n\r\nhi";
    let (mut req, _) = decode(stream(input)).unwrap().unwrap();
    assert_eq!(req.read_body(9), b"hi".to_vec());
    assert_eq!(req.read_body(9), Vec::<u8>::new());
}
