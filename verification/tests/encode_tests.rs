use h1core::encode::encode;
use h1core::message::{EncodeError, Header, Response, ResponseBody};

#[test]
fn encodes_head_and_body_exactly() {
    let res = Response {
        status: 200,
        headers: vec![],
        body: ResponseBody::Fixed(b"ok".to_vec()),
    };
    let mut enc = encode(res).unwrap();
    let mut out: Vec<u8> = Vec::new();
    enc.copy_into(&mut out);
    assert_eq!(out, b"HTTP/1.1 200 OK\r\nContent-Length: 2\r\n\r\nok".to_vec());
}

#[test]
fn content_length_equals_exact_body_size() {
    let res = Response {
        status: 404,
        headers: vec![Header { name: b"X-K".to_vec(), value: b"v".to_vec() }],
        body: ResponseBody::Fixed(b"hello world".to_vec()),
    };
    let mut enc = encode(res).unwrap();
    let mut out: Vec<u8> = Vec::new();
    enc.copy_into(&mut out);
    assert_eq!(
        out,
        b"HTTP/1.1 404 Not Found\r\nContent-Length: 11\r\nX-K: v\r\n\r\nhello world".to_vec()
    );
}

#[test]
fn unbounded_body_is_refused() {
    let res = Response { status: 200, headers: vec![], body: ResponseBody::Unbounded };
    assert!(matches!(encode(res), Err(EncodeError::ChunkedEncodingUnsupported)));
}

#[test]
fn read_interleaves_tail_of_head_with_start_of_body() {
    let res = Response {
        status: 200,
        headers: vec![],
        body: ResponseBody::Fixed(b"abcdef".to_vec()),
    };
    let mut enc = encode(res).unwrap();
    let mut gathered: Vec<u8> = Vec::new();
    loop {
        let chunk = enc.read(7);
        if chunk.is_empty() {
            break;
        }
        gathered.extend_from_slice(&chunk);
    }
    assert_eq!(gathered, b"HTTP/1.1 200 OK\r\nContent-Length: 6\r\n\r\nabcdef".to_vec());
    // end-of-stream keeps being reported once exhausted
    assert!(enc.read(7).is_empty());
    assert!(enc.read(7).is_empty());
}

#[test]
fn head_section_ends_with_a_single_blank_line() {
    let body: &[u8] = b"0123456789";
    let res = Response {
        status: 200,
        headers: vec![Header { name: b"A".to_vec(), value: b"b".to_vec() }],
        body: ResponseBody::Fixed(body.to_vec()),
    };
    let mut enc = encode(res).unwrap();
    let mut out: Vec<u8> = Vec::new();
    enc.copy_into(&mut out);
    // the first head terminator is where the body begins, and exactly the
    // declared number of body bytes follow it
    let pos = out
        .windows(4)
        .position(|w| w == b"\r\n\r\n")
        .expect("head terminator present");
    assert_eq!(&out[pos + 4..], body);
}

#[test]
fn unknown_status_gets_placeholder_reason() {
    let res = Response { status: 299, headers: vec![], body: ResponseBody::Fixed(Vec::new()) };
    let mut enc = encode(res).unwrap();
    let mut out: Vec<u8> = Vec::new();
    enc.copy_into(&mut out);
    assert_eq!(out, b"HTTP/1.1 299 Unknown\r\nContent-Length: 0\r\n\r\n".to_vec());
}
