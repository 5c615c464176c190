use vstd::prelude::*;

pub mod decode;
pub mod encode;
pub mod message;
pub mod roundtrip;
pub mod server;
pub mod stream;

verus! {

/// The line terminator of the wire format.
pub open spec fn crlf() -> Seq<u8> {
    seq![13u8, 10u8]
}

} // verus!
