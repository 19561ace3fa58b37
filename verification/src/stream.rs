//! The streaming boundary.
//!
//! A network layer delivers bytes incrementally: one read may hold less than
//! one value or more than one.  `decode_stream` attempts one value off the
//! front of the buffer and collapses the three retry-eligible failure kinds
//! into `NeedMoreData`; everything else is a protocol violation by the peer.

use vstd::prelude::*;

use crate::decode::{decode_one, decode_value, spec_decode_one, spec_decode_value};
use crate::encode::{encode, encode_simple_string, spec_encode};
use crate::error::{is_retry_eligible, spec_retry_eligible, DecodeError};
use crate::value::{SpecValue, Value, MAX_DEPTH};

verus! {

/// What one attempt at the front of a growing buffer yielded.
#[derive(Debug, PartialEq, Eq)]
pub enum Outcome {
    /// One whole value, and the count of bytes it occupied; the caller must
    /// retain everything after them, which may start the next message.
    Decoded(Value, usize),
    /// The buffer holds only a prefix of a value: buffer more bytes and
    /// retry.  Never terminates the connection.
    NeedMoreData,
    /// The peer sent malformed data; terminal for this message.
    Malformed(DecodeError),
}

/// Attempts to decode one value off the front of a stream buffer.
pub fn decode_stream(bytes: &[u8]) -> (r: Outcome)
    ensures
        match spec_decode_value(bytes@, MAX_DEPTH as nat) {
            Ok((sv, c)) => r matches Outcome::Decoded(v, n) && v@ == sv && n as int == c,
            Err(e) => if spec_retry_eligible(e) {
                r is NeedMoreData
            } else {
                r matches Outcome::Malformed(e2) && e2 == e
            },
        },
{
    match decode_value(bytes) {
        Ok((v, n)) => Outcome::Decoded(v, n),
        Err(e) => {
            if is_retry_eligible(&e) {
                Outcome::NeedMoreData
            } else {
                Outcome::Malformed(e)
            }
        },
    }
}

/// Computes the reply bytes for one request buffer: a decoded value is
/// echoed back in its exact wire form; a buffer that does not hold exactly
/// one value is answered with the simple string `NG`.
pub fn handle_request(request_buf: &[u8]) -> (r: Vec<u8>)
    ensures
        match spec_decode_one(request_buf@) {
            Ok(v) => r@ == spec_encode(v),
            Err(_) => r@ == spec_encode(SpecValue::SimpleString(seq![78u8, 71u8])),
        },
{
    match decode_one(request_buf) {
        Ok(v) => encode(&v),
        Err(_) => {
            let mut ng: Vec<u8> = Vec::new();
            ng.push(78);
            ng.push(71);
            let out = encode_simple_string(&ng);
            proof {
                assert(ng@ =~= seq![78u8, 71u8]);
            }
            out
        },
    }
}

} // verus!
