use vstd::prelude::*;
use crate::decode::{DecodeOutcome, decode, spec_decode};
use crate::encode::{encode, spec_encode_bytes};
use crate::message::{DecodeError, EncodeError, HandlerError, Request, RespV, Response};
use crate::stream::ByteStream;

verus! {

/// How many requests one connection serves at most before it is closed.
pub const MAX_REQUESTS: usize = 200;

/// The handler capability: invoked once per decoded request, it produces
/// the response to serialize, or fails and thereby ends the connection.
pub trait Handler {
    fn handle(&mut self, req: &mut Request) -> Result<Response, HandlerError>;
}

/// Why a connection ended with an error.
#[derive(Clone, Copy, Debug, PartialEq, Eq, Structural)]
pub enum ServeError {
    /// The peer sent an ill-formed head.
    Decode(DecodeError),
    /// A response could not be serialized.
    Encode(EncodeError),
    /// The handler itself failed.
    Handler,
}

/// The concatenated wire encodings of a run of responses.
pub open spec fn concat_encodings(rs: Seq<RespV>) -> Seq<u8>
    decreases rs.len(),
{
    if rs.len() == 0 {
        Seq::empty()
    } else {
        concat_encodings(rs.drop_last()) + spec_encode_bytes(rs.last())
    }
}

/// Drive one persistent connection: decode a request, run the handler,
/// serialize and write the response, then decode the next request from
/// whatever part of the stream follows the served request's body, until
/// the stream ends, the request ceiling is reached, or an error occurs.
///
/// The idle timeout that bounds the wait between requests belongs to the
/// caller that performs transport reads; on an in-memory stream, running
/// out of delivered bytes is what ends the connection gracefully.
pub fn connect<H: Handler>(reader: ByteStream, writer: &mut Vec<u8>, handler: &mut H) -> (r:
    Result<(), ServeError>)
    ensures
        exists|rs: Seq<RespV>|
            rs.len() <= MAX_REQUESTS && final(writer)@ == old(writer)@ + concat_encodings(rs),
        spec_decode(reader@) is Closed ==> r == Ok::<(), ServeError>(()) && final(writer)@ == old(
            writer,
        )@,
        (spec_decode(reader@) matches DecodeOutcome::Fail(e) ==> r == Err::<(), ServeError>(
            ServeError::Decode(e),
        ) && final(writer)@ == old(writer)@),
{
    proof {
        assert(concat_encodings(Seq::<RespV>::empty()) == Seq::<u8>::empty());
        assert(old(writer)@ + Seq::<u8>::empty() =~= old(writer)@);
    }
    let ghost mut served: Seq<RespV> = Seq::empty();
    let first = match decode(reader) {
        Err(e) => {
            proof {
                assert(writer@ == old(writer)@ + concat_encodings(served));
            }
            return Err(ServeError::Decode(e));
        },
        Ok(None) => {
            return Ok(());
        },
        Ok(Some(p)) => p,
    };
    let (mut req, mut stream) = first;
    let mut num_requests: usize = 0;
    loop
        invariant
            num_requests <= MAX_REQUESTS,
            served.len() == num_requests,
            writer@ == old(writer)@ + concat_encodings(served),
            !(spec_decode(reader@) is Closed),
            !(spec_decode(reader@) is Fail),
        decreases MAX_REQUESTS - num_requests,
    {
        num_requests += 1;
        if num_requests > MAX_REQUESTS {
            return Ok(());
        }
        let res = match handler.handle(&mut req) {
            Err(_) => {
                return Err(ServeError::Handler);
            },
            Ok(res) => res,
        };
        let ghost rv = res.rview();
        let mut enc = match encode(res) {
            Err(e) => {
                return Err(ServeError::Encode(e));
            },
            Ok(enc) => enc,
        };
        let to_decode = match stream {
            None => req.into_body(),
            Some(s) => s,
        };
        enc.copy_into(writer);
        proof {
            assert(served.push(rv).drop_last() =~= served);
            assert(enc.stream().skip(0) =~= enc.stream());
            served = served.push(rv);
            assert(writer@ =~= old(writer)@ + concat_encodings(served));
        }
        match decode(to_decode) {
            Err(e) => {
                return Err(ServeError::Decode(e));
            },
            Ok(None) => {
                return Ok(());
            },
            Ok(Some(p)) => {
                let (new_req, new_stream) = p;
                req = new_req;
                stream = new_stream;
            },
        }
    }
}

} // verus!
