use vstd::prelude::*;
use crate::crlf;
use crate::decode::{cl_name, cl_name_vec};
use crate::message::{EncodeError, HeaderV, RespV, Response, ResponseBody, hviews};

verus! {

// ---------------------------------------------------------------------------
// Decimal rendering.
// ---------------------------------------------------------------------------

/// Decimal digits of `n`, most significant first.
pub open spec fn spec_dec(n: int) -> Seq<u8>
    decreases n,
{
    if n < 10 {
        seq![(48 + n) as u8]
    } else {
        spec_dec(n / 10).push((48 + n % 10) as u8)
    }
}

fn dec_u64(n: u64) -> (r: Vec<u8>)
    ensures
        r@ == spec_dec(n as int),
    decreases n,
{
    if n < 10 {
        let v: Vec<u8> = vec![48 + (n as u8)];
        proof {
            assert(v@ =~= spec_dec(n as int));
        }
        v
    } else {
        let mut v = dec_u64(n / 10);
        v.push(48 + ((n % 10) as u8));
        v
    }
}

// ---------------------------------------------------------------------------
// Reason phrases.
// ---------------------------------------------------------------------------

/// The reason phrase written after the status code.
pub open spec fn spec_reason(status: int) -> Seq<u8> {
    if status == 200 {
        seq![79u8, 75u8]
    } else if status == 201 {
        seq![67u8, 114u8, 101u8, 97u8, 116u8, 101u8, 100u8]
    } else if status == 204 {
        seq![78u8, 111u8, 32u8, 67u8, 111u8, 110u8, 116u8, 101u8, 110u8, 116u8]
    } else if status == 301 {
        seq![77u8, 111u8, 118u8, 101u8, 100u8, 32u8, 80u8, 101u8, 114u8, 109u8, 97u8, 110u8, 101u8, 110u8, 116u8, 108u8, 121u8]
    } else if status == 302 {
        seq![70u8, 111u8, 117u8, 110u8, 100u8]
    } else if status == 304 {
        seq![78u8, 111u8, 116u8, 32u8, 77u8, 111u8, 100u8, 105u8, 102u8, 105u8, 101u8, 100u8]
    } else if status == 400 {
        seq![66u8, 97u8, 100u8, 32u8, 82u8, 101u8, 113u8, 117u8, 101u8, 115u8, 116u8]
    } else if status == 403 {
        seq![70u8, 111u8, 114u8, 98u8, 105u8, 100u8, 100u8, 101u8, 110u8]
    } else if status == 404 {
        seq![78u8, 111u8, 116u8, 32u8, 70u8, 111u8, 117u8, 110u8, 100u8]
    } else if status == 405 {
        seq![77u8, 101u8, 116u8, 104u8, 111u8, 100u8, 32u8, 78u8, 111u8, 116u8, 32u8, 65u8, 108u8, 108u8, 111u8, 119u8, 101u8, 100u8]
    } else if status == 408 {
        seq![82u8, 101u8, 113u8, 117u8, 101u8, 115u8, 116u8, 32u8, 84u8, 105u8, 109u8, 101u8, 111u8, 117u8, 116u8]
    } else if status == 411 {
        seq![76u8, 101u8, 110u8, 103u8, 116u8, 104u8, 32u8, 82u8, 101u8, 113u8, 117u8, 105u8, 114u8, 101u8, 100u8]
    } else if status == 500 {
        seq![73u8, 110u8, 116u8, 101u8, 114u8, 110u8, 97u8, 108u8, 32u8, 83u8, 101u8, 114u8, 118u8, 101u8, 114u8, 32u8, 69u8, 114u8, 114u8, 111u8, 114u8]
    } else if status == 501 {
        seq![78u8, 111u8, 116u8, 32u8, 73u8, 109u8, 112u8, 108u8, 101u8, 109u8, 101u8, 110u8, 116u8, 101u8, 100u8]
    } else if status == 503 {
        seq![83u8, 101u8, 114u8, 118u8, 105u8, 99u8, 101u8, 32u8, 85u8, 110u8, 97u8, 118u8, 97u8, 105u8, 108u8, 97u8, 98u8, 108u8, 101u8]
    } else {
        seq![85u8, 110u8, 107u8, 110u8, 111u8, 119u8, 110u8]
    }
}

fn reason_bytes(status: u16) -> (r: Vec<u8>)
    ensures
        r@ == spec_reason(status as int),
{
    if status == 200 {
        let v: Vec<u8> = vec![79u8, 75u8];
        proof {
            assert(v@ =~= spec_reason(status as int));
        }
        v
    } else if status == 201 {
        let v: Vec<u8> = vec![67u8, 114u8, 101u8, 97u8, 116u8, 101u8, 100u8];
        proof {
            assert(v@ =~= spec_reason(status as int));
        }
        v
    } else if status == 204 {
        let v: Vec<u8> = vec![78u8, 111u8, 32u8, 67u8, 111u8, 110u8, 116u8, 101u8, 110u8, 116u8];
        proof {
            assert(v@ =~= spec_reason(status as int));
        }
        v
    } else if status == 301 {
        let v: Vec<u8> = vec![77u8, 111u8, 118u8, 101u8, 100u8, 32u8, 80u8, 101u8, 114u8, 109u8, 97u8, 110u8, 101u8, 110u8, 116u8, 108u8, 121u8];
        proof {
            assert(v@ =~= spec_reason(status as int));
        }
        v
    } else if status == 302 {
        let v: Vec<u8> = vec![70u8, 111u8, 117u8, 110u8, 100u8];
        proof {
            assert(v@ =~= spec_reason(status as int));
        }
        v
    } else if status == 304 {
        let v: Vec<u8> = vec![78u8, 111u8, 116u8, 32u8, 77u8, 111u8, 100u8, 105u8, 102u8, 105u8, 101u8, 100u8];
        proof {
            assert(v@ =~= spec_reason(status as int));
        }
        v
    } else if status == 400 {
        let v: Vec<u8> = vec![66u8, 97u8, 100u8, 32u8, 82u8, 101u8, 113u8, 117u8, 101u8, 115u8, 116u8];
        proof {
            assert(v@ =~= spec_reason(status as int));
        }
        v
    } else if status == 403 {
        let v: Vec<u8> = vec![70u8, 111u8, 114u8, 98u8, 105u8, 100u8, 100u8, 101u8, 110u8];
        proof {
            assert(v@ =~= spec_reason(status as int));
        }
        v
    } else if status == 404 {
        let v: Vec<u8> = vec![78u8, 111u8, 116u8, 32u8, 70u8, 111u8, 117u8, 110u8, 100u8];
        proof {
            assert(v@ =~= spec_reason(status as int));
        }
        v
    } else if status == 405 {
        let v: Vec<u8> = vec![77u8, 101u8, 116u8, 104u8, 111u8, 100u8, 32u8, 78u8, 111u8, 116u8, 32u8, 65u8, 108u8, 108u8, 111u8, 119u8, 101u8, 100u8];
        proof {
            assert(v@ =~= spec_reason(status as int));
        }
        v
    } else if status == 408 {
        let v: Vec<u8> = vec![82u8, 101u8, 113u8, 117u8, 101u8, 115u8, 116u8, 32u8, 84u8, 105u8, 109u8, 101u8, 111u8, 117u8, 116u8];
        proof {
            assert(v@ =~= spec_reason(status as int));
        }
        v
    } else if status == 411 {
        let v: Vec<u8> = vec![76u8, 101u8, 110u8, 103u8, 116u8, 104u8, 32u8, 82u8, 101u8, 113u8, 117u8, 105u8, 114u8, 101u8, 100u8];
        proof {
            assert(v@ =~= spec_reason(status as int));
        }
        v
    } else if status == 500 {
        let v: Vec<u8> = vec![73u8, 110u8, 116u8, 101u8, 114u8, 110u8, 97u8, 108u8, 32u8, 83u8, 101u8, 114u8, 118u8, 101u8, 114u8, 32u8, 69u8, 114u8, 114u8, 111u8, 114u8];
        proof {
            assert(v@ =~= spec_reason(status as int));
        }
        v
    } else if status == 501 {
        let v: Vec<u8> = vec![78u8, 111u8, 116u8, 32u8, 73u8, 109u8, 112u8, 108u8, 101u8, 109u8, 101u8, 110u8, 116u8, 101u8, 100u8];
        proof {
            assert(v@ =~= spec_reason(status as int));
        }
        v
    } else if status == 503 {
        let v: Vec<u8> = vec![83u8, 101u8, 114u8, 118u8, 105u8, 99u8, 101u8, 32u8, 85u8, 110u8, 97u8, 118u8, 97u8, 105u8, 108u8, 97u8, 98u8, 108u8, 101u8];
        proof {
            assert(v@ =~= spec_reason(status as int));
        }
        v
    } else {
        let v: Vec<u8> = vec![85u8, 110u8, 107u8, 110u8, 111u8, 119u8, 110u8];
        proof {
            assert(v@ =~= spec_reason(status as int));
        }
        v
    }
}

// ---------------------------------------------------------------------------
// The serialized head, at the spec level.
// ---------------------------------------------------------------------------

/// The bytes `HTTP/1.1 ` that open every status line.
pub open spec fn http11_prefix() -> Seq<u8> {
    seq![72u8, 84u8, 84u8, 80u8, 47u8, 49u8, 46u8, 49u8, 32u8]
}

pub open spec fn spec_status_line(status: int) -> Seq<u8> {
    http11_prefix() + spec_dec(status) + seq![32u8] + spec_reason(status) + crlf()
}

pub open spec fn spec_cl_line(n: int) -> Seq<u8> {
    cl_name() + seq![58u8, 32u8] + spec_dec(n) + crlf()
}

pub open spec fn spec_header_line(h: HeaderV) -> Seq<u8> {
    h.name + seq![58u8, 32u8] + h.value + crlf()
}

pub open spec fn spec_header_lines(hs: Seq<HeaderV>) -> Seq<u8>
    decreases hs.len(),
{
    if hs.len() == 0 {
        Seq::empty()
    } else {
        spec_header_line(hs[0]) + spec_header_lines(hs.skip(1))
    }
}

/// The whole serialized head: status line, `Content-Length`, the response's
/// own header fields, and the closing blank line.
pub open spec fn spec_head(rv: RespV) -> Seq<u8> {
    spec_status_line(rv.status) + spec_cl_line(rv.body.len() as int) + spec_header_lines(rv.headers)
        + crlf()
}

/// Head followed by the body: everything the encoder puts on the wire.
pub open spec fn spec_encode_bytes(rv: RespV) -> Seq<u8> {
    spec_head(rv) + rv.body
}

pub proof fn lemma_header_lines_push(hs: Seq<HeaderV>, h: HeaderV)
    ensures
        spec_header_lines(hs.push(h)) == spec_header_lines(hs) + spec_header_line(h),
    decreases hs.len(),
{
    if hs.len() == 0 {
        assert(hs.push(h).skip(1) =~= Seq::<HeaderV>::empty());
        assert(spec_header_lines(Seq::<HeaderV>::empty()) =~= Seq::<u8>::empty());
        assert(hs =~= Seq::<HeaderV>::empty());
        assert(hs.push(h)[0] == h);
        assert(spec_header_line(h) + Seq::<u8>::empty() =~= spec_header_line(h));
        assert(Seq::<u8>::empty() + spec_header_line(h) =~= spec_header_line(h));
        assert(spec_header_lines(hs.push(h)) =~= spec_header_lines(hs) + spec_header_line(h));
    } else {
        assert(hs.push(h).skip(1) =~= hs.skip(1).push(h));
        lemma_header_lines_push(hs.skip(1), h);
        assert(hs.push(h)[0] == hs[0]);
        assert(spec_header_line(hs[0]) + (spec_header_lines(hs.skip(1)) + spec_header_line(h))
            =~= (spec_header_line(hs[0]) + spec_header_lines(hs.skip(1))) + spec_header_line(h));
        assert(spec_header_lines(hs.push(h)) =~= spec_header_lines(hs) + spec_header_line(h));
    }
}

// ---------------------------------------------------------------------------
// Building byte buffers.
// ---------------------------------------------------------------------------

fn push_bytes(buf: &mut Vec<u8>, src: &Vec<u8>)
    ensures
        final(buf)@ == old(buf)@ + src@,
{
    proof {
        assert(old(buf)@ + src@.subrange(0, 0) =~= old(buf)@);
    }
    let mut i: usize = 0;
    while i < src.len()
        invariant
            i <= src.len(),
            buf@ == old(buf)@ + src@.subrange(0, i as int),
        decreases src.len() - i,
    {
        buf.push(src[i]);
        proof {
            assert(buf@ =~= old(buf)@ + src@.subrange(0, i as int + 1));
        }
        i += 1;
    }
    proof {
        assert(old(buf)@ + src@.subrange(0, src@.len() as int) =~= old(buf)@ + src@);
    }
}

// ---------------------------------------------------------------------------
// The streaming encoder.
// ---------------------------------------------------------------------------

/// A pull source over a serialized response: first the head bytes, then the
/// body bytes, then end-of-stream.
#[derive(Debug)]
pub struct Encoder {
    /// Serialized head still to be sent.
    headers: Vec<u8>,
    /// How far into the head we have read.
    cursor: usize,
    /// Whether the head region is exhausted.
    headers_done: bool,
    /// The response body to be sent after the head.
    body: Vec<u8>,
    /// How many body bytes have been read.
    body_read: usize,
    /// Whether the body is exhausted.
    body_done: bool,
}

impl Encoder {
    pub closed spec fn wf(self) -> bool {
        &&& self.cursor <= self.headers@.len()
        &&& self.body_read <= self.body@.len()
        &&& (self.headers_done <==> self.cursor == self.headers@.len())
        &&& (!self.headers_done ==> self.body_read == 0)
        &&& (self.body_done ==> self.headers_done && self.body_read == self.body@.len())
    }

    /// Everything this encoder yields over its lifetime.
    pub closed spec fn stream(self) -> Seq<u8> {
        self.headers@ + self.body@
    }

    /// How many bytes have been read off so far.
    pub closed spec fn pos(self) -> int {
        self.cursor + self.body_read
    }

    pub(crate) fn new(headers: Vec<u8>, body: Vec<u8>) -> (e: Encoder)
        requires
            headers@.len() > 0,
        ensures
            e.wf(),
            e.stream() == headers@ + body@,
            e.pos() == 0,
    {
        Encoder { headers, cursor: 0, headers_done: false, body, body_read: 0, body_done: false }
    }

    /// Pull up to `max` bytes: head bytes while any remain, then body bytes;
    /// an empty result means end-of-stream.
    pub fn read(&mut self, max: usize) -> (out: Vec<u8>)
        requires
            old(self).wf(),
        ensures
            final(self).wf(),
            final(self).stream() == old(self).stream(),
            ({
                let rem = old(self).stream().len() - old(self).pos();
                let take_n = if max as int <= rem {
                    max as int
                } else {
                    rem
                };
                out@ == old(self).stream().subrange(old(self).pos(), old(self).pos() + take_n)
                    && final(self).pos() == old(self).pos() + take_n
            }),
    {
        let mut out: Vec<u8> = Vec::new();
        if !self.headers_done {
            let avail = self.headers.len() - self.cursor;
            let n1 = if avail < max {
                avail
            } else {
                max
            };
            let mut j: usize = 0;
            while j < n1
                invariant
                    j <= n1,
                    *self == *old(self),
                    self.wf(),
                    n1 <= self.headers@.len() - self.cursor,
                    out@ == self.headers@.subrange(
                        self.cursor as int,
                        self.cursor as int + j as int,
                    ),
                decreases n1 - j,
            {
                let hl = self.headers.len();
                proof {
                    assert(self.cursor + j < hl);
                }
                out.push(self.headers[self.cursor + j]);
                proof {
                    assert(out@ =~= self.headers@.subrange(
                        self.cursor as int,
                        self.cursor as int + j as int + 1,
                    ));
                }
                j += 1;
            }
            self.cursor = self.cursor + n1;
            if self.cursor == self.headers.len() {
                self.headers_done = true;
            }
        }
        if self.headers_done && !self.body_done {
            let space = max - out.len();
            let avail = self.body.len() - self.body_read;
            let n2 = if avail < space {
                avail
            } else {
                space
            };
            let ghost s1 = *self;
            let ghost out1 = out@;
            let mut j: usize = 0;
            while j < n2
                invariant
                    j <= n2,
                    *self == s1,
                    self.wf(),
                    n2 <= self.body@.len() - self.body_read,
                    out@ == out1 + self.body@.subrange(
                        self.body_read as int,
                        self.body_read as int + j as int,
                    ),
                decreases n2 - j,
            {
                let bl = self.body.len();
                proof {
                    assert(self.body_read + j < bl);
                }
                out.push(self.body[self.body_read + j]);
                proof {
                    assert(out@ =~= out1 + self.body@.subrange(
                        self.body_read as int,
                        self.body_read as int + j as int + 1,
                    ));
                }
                j += 1;
            }
            self.body_read = self.body_read + n2;
            if self.body_read == self.body.len() {
                self.body_done = true;
            }
        }
        proof {
            assert(out@ =~= old(self).stream().subrange(
                old(self).pos(),
                old(self).pos() + out@.len(),
            ));
        }
        out
    }

    /// Drain everything still unread into `writer`, in order.
    pub fn copy_into(&mut self, writer: &mut Vec<u8>)
        requires
            old(self).wf(),
        ensures
            final(self).wf(),
            final(self).stream() == old(self).stream(),
            final(self).pos() == old(self).stream().len(),
            final(writer)@ == old(writer)@ + old(self).stream().skip(old(self).pos()),
    {
        proof {
            assert(old(writer)@ + old(self).stream().subrange(
                old(self).pos(),
                old(self).pos(),
            ) =~= old(writer)@);
        }
        loop
            invariant
                self.wf(),
                self.stream() == old(self).stream(),
                old(self).pos() <= self.pos() <= self.stream().len(),
                writer@ == old(writer)@ + old(self).stream().subrange(
                    old(self).pos(),
                    self.pos(),
                ),
            decreases self.stream().len() - self.pos(),
        {
            let chunk = self.read(4096);
            if chunk.len() == 0 {
                proof {
                    assert(old(self).stream().subrange(old(self).pos(), self.pos())
                        =~= old(self).stream().skip(old(self).pos()));
                }
                return ;
            }
            push_bytes(writer, &chunk);
            proof {
                assert(writer@ =~= old(writer)@ + old(self).stream().subrange(
                    old(self).pos(),
                    self.pos(),
                ));
            }
        }
    }
}

// ---------------------------------------------------------------------------
// Serializing a response.
// ---------------------------------------------------------------------------

/// Serialize a response head and wrap it, with the body, as a pull source.
///
/// A body of known length gets a `Content-Length` field; an open-ended body
/// would need chunked framing, which is not implemented, so it is refused.
pub fn encode(res: Response) -> (r: Result<Encoder, EncodeError>)
    ensures
        match res.body {
            ResponseBody::Unbounded => r == Err::<Encoder, EncodeError>(
                EncodeError::ChunkedEncodingUnsupported,
            ),
            ResponseBody::Fixed(_) => match r {
                Ok(enc) => enc.wf() && enc.stream() == spec_encode_bytes(res.rview())
                    && enc.pos() == 0,
                _ => false,
            },
        },
{
    let Response { status, headers, body } = res;
    let body = match body {
        ResponseBody::Fixed(b) => b,
        ResponseBody::Unbounded => {
            return Err(EncodeError::ChunkedEncodingUnsupported);
        },
    };
    let mut buf: Vec<u8> = vec![72u8, 84u8, 84u8, 80u8, 47u8, 49u8, 46u8, 49u8, 32u8];
    proof {
        assert(buf@ =~= http11_prefix());
    }
    let code = dec_u64(status as u64);
    push_bytes(&mut buf, &code);
    buf.push(32u8);
    let reason = reason_bytes(status);
    push_bytes(&mut buf, &reason);
    buf.push(13u8);
    buf.push(10u8);
    proof {
        assert(buf@ =~= spec_status_line(status as int));
    }
    let clv = cl_name_vec();
    push_bytes(&mut buf, &clv);
    buf.push(58u8);
    buf.push(32u8);
    let lenv = dec_u64(body.len() as u64);
    push_bytes(&mut buf, &lenv);
    buf.push(13u8);
    buf.push(10u8);
    proof {
        assert(buf@ =~= spec_status_line(status as int) + spec_cl_line(body@.len() as int));
    }
    let mut i: usize = 0;
    while i < headers.len()
        invariant
            i <= headers.len(),
            buf@ == spec_status_line(status as int) + spec_cl_line(body@.len() as int)
                + spec_header_lines(hviews(headers@).take(i as int)),
        decreases headers.len() - i,
    {
        push_bytes(&mut buf, &headers[i].name);
        buf.push(58u8);
        buf.push(32u8);
        push_bytes(&mut buf, &headers[i].value);
        buf.push(13u8);
        buf.push(10u8);
        proof {
            assert(hviews(headers@).take(i as int + 1) =~= hviews(headers@).take(i as int).push(
                headers@[i as int]@,
            ));
            lemma_header_lines_push(hviews(headers@).take(i as int), headers@[i as int]@);
            assert(buf@ =~= spec_status_line(status as int) + spec_cl_line(body@.len() as int)
                + spec_header_lines(hviews(headers@).take(i as int + 1)));
        }
        i += 1;
    }
    proof {
        assert(hviews(headers@).take(headers@.len() as int) =~= hviews(headers@));
    }
    buf.push(13u8);
    buf.push(10u8);
    proof {
        assert(buf@ =~= spec_head(res.rview()));
        assert(buf@.len() > 0);
    }
    Ok(Encoder::new(buf, body))
}

} // verus!
