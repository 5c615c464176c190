use h1core::message::{HandlerError, Request, Response, ResponseBody};
use h1core::server::{connect, Handler, ServeError, MAX_REQUESTS};
use h1core::stream::ByteStream;

struct CountingHandler {
    count: usize,
}

impl Handler for CountingHandler {
    fn handle(&mut self, _req: &mut Request) -> Result<Response, HandlerError> {
        self.count += 1;
        Ok(Response {
            status: 200,
            headers: vec![],
            body: ResponseBody::Fixed(b"ok".to_vec()),
        })
    }
}

struct FailingHandler;

impl Handler for FailingHandler {
    fn handle(&mut self, _req: &mut Request) -> Result<Response, HandlerError> {
        Err(HandlerError {})
    }
}

struct StreamingHandler;

impl Handler for StreamingHandler {
    fn handle(&mut self, _req: &mut Request) -> Result<Response, HandlerError> {
        Ok(Response { status: 200, headers: vec![], body: ResponseBody::Unbounded })
    }
}

#[test]
fn serves_one_request_with_exact_output() {
    let mut writer: Vec<u8> = Vec::new();
    let mut h = CountingHandler { count: 0 };
    let input = ByteStream::new(b"GET / HTTP/1.1\r\nHost: a\r\n\r\n".to_vec());
    let r = connect(input, &mut writer, &mut h);
    assert!(r.is_ok());
    assert_eq!(h.count, 1);
    assert_eq!(writer, b"HTTP/1.1 200 OK\r\nContent-Length: 2\r\n\r\nok".to_vec());
}

#[test]
fn immediate_eof_serves_nothing() {
    let mut writer: Vec<u8> = Vec::new();
    let mut h = CountingHandler { count: 0 };
    let r = connect(ByteStream::new(Vec::new()), &mut writer, &mut h);
    assert!(r.is_ok());
    assert_eq!(h.count, 0);
    assert!(writer.is_empty());
}

#[test]
fn request_ceiling_caps_at_two_hundred() {
    let mut input: Vec<u8> = Vec::new();
    for _ in 0..(MAX_REQUESTS + 1) {
        input.extend_from_slice(b"GET / HTTP/1.1\r\n\r\n");
    }
    let mut writer: Vec<u8> = Vec::new();
    let mut h = CountingHandler { count: 0 };
    let r = connect(ByteStream::new(input), &mut writer, &mut h);
    assert!(r.is_ok());
    assert_eq!(h.count, MAX_REQUESTS);
}

#[test]
fn closes_gracefully_when_no_more_bytes_arrive() {
    // one request, its response, then the peer goes silent: a clean close,
    // not an error
    let mut writer: Vec<u8> = Vec::new();
    let mut h = CountingHandler { count: 0 };
    let input = ByteStream::new(b"GET /only HTTP/1.1\r\n\r\n".to_vec());
    let r = connect(input, &mut writer, &mut h);
    assert!(r.is_ok());
    assert_eq!(h.count, 1);
}

#[test]
fn pipelined_requests_are_served_in_order() {
    let input = b"GET /a HTTP/1.1\r\n\r\nGET /b HTTP/1.1\r\n\r\n".to_vec();
    let mut writer: Vec<u8> = Vec::new();
    let mut h = CountingHandler { count: 0 };
    let r = connect(ByteStream::new(input), &mut writer, &mut h);
    assert!(r.is_ok());
    assert_eq!(h.count, 2);
    let expected = b"HTTP/1.1 200 OK\r\nContent-Length: 2\r\n\r\nokHTTP/1.1 200 OK\r\nContent-Length: 2\r\n\r\nok".to_vec();
    assert_eq!(writer, expected);
}

#[test]
fn unread_body_is_skipped_before_next_request() {
    // the handler never reads the 5-byte body; the driver must still find
    // the second request right after it
    let input = b"POST /u HTTP/1.1\r\nContent-Length: 5\r\n\r\nhelloGET /v HTTP/1.1\r\n\r\n"
        .to_vec();
    let mut writer: Vec<u8> = Vec::new();
    let mut h = CountingHandler { count: 0 };
    let r = connect(ByteStream::new(input), &mut writer, &mut h);
    assert!(r.is_ok());
    assert_eq!(h.count, 2);
}

#[test]
fn malformed_second_request_is_fatal_after_first_is_served() {
    let input = b"GET /a HTTP/1.1\r\n\r\nGET  HTTP/1.1\r\n\r\n".to_vec();
    let mut writer: Vec<u8> = Vec::new();
    let mut h = CountingHandler { count: 0 };
    let r = connect(ByteStream::new(input), &mut writer, &mut h);
    assert!(matches!(
        r,
        Err(ServeError::Decode(h1core::message::DecodeError::MissingTarget))
    ));
    assert_eq!(h.count, 1);
    // the first response was already on the wire and is not retracted
    assert_eq!(writer, b"HTTP/1.1 200 OK\r\nContent-Length: 2\r\n\r\nok".to_vec());
}

#[test]
fn malformed_first_request_serves_nothing() {
    let input = b"FROB / HTTP/1.1\r\n\r\n".to_vec();
    let mut writer: Vec<u8> = Vec::new();
    let mut h = CountingHandler { count: 0 };
    let r = connect(ByteStream::new(input), &mut writer, &mut h);
    assert!(matches!(
        r,
        Err(ServeError::Decode(h1core::message::DecodeError::MalformedHead))
    ));
    assert_eq!(h.count, 0);
    assert!(writer.is_empty());
}

#[test]
fn handler_failure_tears_down_the_connection() {
    let input = b"GET / HTTP/1.1\r\n\r\n".to_vec();
    let mut writer: Vec<u8> = Vec::new();
    let mut h = FailingHandler;
    let r = connect(ByteStream::new(input), &mut writer, &mut h);
    assert!(matches!(r, Err(ServeError::Handler)));
    assert!(writer.is_empty());
}

#[test]
fn open_ended_response_body_is_a_connection_error() {
    let input = b"GET / HTTP/1.1\r\n\r\n".to_vec();
    let mut writer: Vec<u8> = Vec::new();
    let mut h = StreamingHandler;
    let r = connect(ByteStream::new(input), &mut writer, &mut h);
    assert!(matches!(
        r,
        Err(ServeError::Encode(h1core::message::EncodeError::ChunkedEncodingUnsupported))
    ));
    assert!(writer.is_empty());
}

struct BodyPeekingHandler {
    seen: Vec<Vec<u8>>,
}

impl Handler for BodyPeekingHandler {
    fn handle(&mut self, req: &mut Request) -> Result<Response, HandlerError> {
        // drain only part of the body; the driver must skip the rest
        self.seen.push(req.read_body(2));
        Ok(Response {
            status: 200,
            headers: vec![],
            body: ResponseBody::Fixed(b"ok".to_vec()),
        })
    }
}

#[test]
fn partially_read_body_still_frames_next_request() {
    let input = b"POST /p HTTP/1.1\r\nContent-Length: 5\r\n\r\nhelloGET /q HTTP/1.1\r\n\r\n"
        .to_vec();
    let mut writer: Vec<u8> = Vec::new();
    let mut h = BodyPeekingHandler { seen: Vec::new() };
    let r = connect(ByteStream::new(input), &mut writer, &mut h);
    assert!(r.is_ok());
    assert_eq!(h.seen.len(), 2);
    assert_eq!(h.seen[0], b"he".to_vec());
    assert_eq!(h.seen[1], Vec::<u8>::new());
}
