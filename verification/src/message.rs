use vstd::prelude::*;
use crate::stream::ByteStream;

verus! {

/// The request method token, restricted to the standard set.
#[derive(Clone, Copy, Debug, PartialEq, Eq, Structural)]
pub enum Method {
    Get,
    Head,
    Post,
    Put,
    Delete,
    Connect,
    Options,
    Trace,
    Patch,
}

/// One header field: a name and a value, both raw bytes.
#[derive(Debug, PartialEq, Eq)]
pub struct Header {
    pub name: Vec<u8>,
    pub value: Vec<u8>,
}

/// Spec-level header field.
pub struct HeaderV {
    pub name: Seq<u8>,
    pub value: Seq<u8>,
}

impl View for Header {
    type V = HeaderV;

    open spec fn view(&self) -> HeaderV {
        HeaderV { name: self.name@, value: self.value@ }
    }
}

/// The views of a list of header fields.
pub open spec fn hviews(hs: Seq<Header>) -> Seq<HeaderV> {
    hs.map_values(|h: Header| h@)
}

/// Why a request head was rejected.
#[derive(Clone, Copy, Debug, PartialEq, Eq, Structural)]
pub enum DecodeError {
    MalformedHead,
    MissingMethod,
    MissingTarget,
    InvalidUri,
    MissingVersion,
    UnsupportedVersion,
    InvalidHeaderEncoding,
    InvalidContentLength,
}

/// Why a response could not be serialized.
#[derive(Clone, Copy, Debug, PartialEq, Eq, Structural)]
pub enum EncodeError {
    ChunkedEncodingUnsupported,
}

/// The handler's own failure; it tears down the connection.
#[derive(Clone, Copy, Debug, PartialEq, Eq, Structural)]
pub struct HandlerError {}

/// How a request's body is framed on the stream.
pub enum BodyReader {
    /// No `Content-Length` header: the request has no body.
    Empty,
    /// A fixed-length body bound to the underlying stream: `len` declared
    /// bytes, of which `read` have been consumed so far.
    Fixed { stream: ByteStream, len: usize, read: usize },
}

impl BodyReader {
    pub open spec fn wf(self) -> bool {
        match self {
            BodyReader::Empty => true,
            BodyReader::Fixed { stream, len, read } => read <= len,
        }
    }

    /// The stream bytes that lie beyond this request's body: where the next
    /// message on the connection begins.
    pub open spec fn continuation(self) -> Seq<u8> {
        match self {
            BodyReader::Empty => Seq::empty(),
            BodyReader::Fixed { stream, len, read } => {
                let unread = if read <= len {
                    len - read
                } else {
                    0
                };
                let k = if unread <= stream@.len() {
                    unread as int
                } else {
                    stream@.len() as int
                };
                stream@.skip(k)
            },
        }
    }
}

/// A decoded request: request line, header fields, and body framing.
pub struct Request {
    pub method: Method,
    pub target: Vec<u8>,
    /// Minor protocol version: the `x` of `HTTP/1.x`.
    pub minor: u8,
    pub headers: Vec<Header>,
    pub body: BodyReader,
}

impl Request {
    /// Read up to `max` bytes of the request body, advancing the body
    /// cursor. Fewer bytes come back only when the declared length, or the
    /// delivered stream, runs out first. The request line and headers are
    /// untouched, and so is where the next message starts on the stream.
    pub fn read_body(&mut self, max: usize) -> (out: Vec<u8>)
        ensures
            final(self).method == old(self).method,
            final(self).target == old(self).target,
            final(self).minor == old(self).minor,
            final(self).headers == old(self).headers,
            final(self).body.continuation() == old(self).body.continuation(),
            match old(self).body {
                BodyReader::Empty => out@ == Seq::<u8>::empty() && final(self).body is Empty,
                BodyReader::Fixed { stream, len, read } => {
                    let unread = if read <= len {
                        (len - read) as int
                    } else {
                        0
                    };
                    let cap = if unread <= stream@.len() {
                        unread
                    } else {
                        stream@.len() as int
                    };
                    let n = if max as int <= cap {
                        max as int
                    } else {
                        cap
                    };
                    &&& out@ == stream@.take(n)
                    &&& match final(self).body {
                        BodyReader::Fixed { stream: s2, len: l2, read: r2 } => {
                            s2@ == stream@.skip(n) && l2 == len && r2 == read + n
                        },
                        _ => false,
                    }
                },
            },
    {
        match &mut self.body {
            BodyReader::Empty => Vec::new(),
            BodyReader::Fixed { stream, len, read } => {
                let unread = if *read <= *len {
                    *len - *read
                } else {
                    0
                };
                let rem = stream.remaining();
                let cap = if unread <= rem {
                    unread
                } else {
                    rem
                };
                let n = if max <= cap {
                    max
                } else {
                    cap
                };
                let out = stream.take(n);
                *read = *read + n;
                proof {
                    let pre = old(self).body->Fixed_stream;
                    assert(pre@.skip(n as int).skip(pre@.skip(n as int).len() as int) =~= pre@.skip(
                        pre@.len() as int,
                    ));
                }
                out
            },
        }
    }

    /// Give up the request and recover the underlying stream, positioned
    /// after this request's body: any unread body bytes are skipped first,
    /// so the next head scan starts at the right offset.
    pub fn into_body(self) -> (s: ByteStream)
        ensures
            s@ == self.body.continuation(),
    {
        match self.body {
            BodyReader::Empty => ByteStream::new(Vec::new()),
            BodyReader::Fixed { mut stream, len, read } => {
                let unread = if read <= len {
                    len - read
                } else {
                    0
                };
                stream.advance(unread);
                stream
            },
        }
    }
}

/// A response body: either fully materialized with a known length, or
/// open-ended. Open-ended bodies would need chunked framing, which this
/// core does not implement.
pub enum ResponseBody {
    Fixed(Vec<u8>),
    Unbounded,
}

/// A response produced by the handler: status code, header fields, body.
pub struct Response {
    pub status: u16,
    pub headers: Vec<Header>,
    pub body: ResponseBody,
}

/// Spec-level response with a known-length body.
pub struct RespV {
    pub status: int,
    pub headers: Seq<HeaderV>,
    pub body: Seq<u8>,
}

impl Response {
    pub open spec fn has_len(self) -> bool {
        self.body is Fixed
    }

    pub open spec fn rview(self) -> RespV {
        RespV {
            status: self.status as int,
            headers: hviews(self.headers@),
            body: match self.body {
                ResponseBody::Fixed(b) => b@,
                ResponseBody::Unbounded => Seq::empty(),
            },
        }
    }
}

} // verus!
