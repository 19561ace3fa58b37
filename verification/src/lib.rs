//! A verified codec for a RESP-style wire format.
//!
//! Byte buffers are decoded into structured protocol values and values are
//! encoded back into their exact wire bytes.  Decoding reports a typed error
//! for every failure, distinguishing inputs that are malformed from inputs
//! that are merely incomplete; encoding is total and is proved to be the
//! exact inverse of decoding.
//!
//! Two choices the wire format leaves open are fixed here, and both are what
//! the proved inverse laws require.  Numerals are accepted only in their
//! canonical spelling (no leading zeros, no plus sign, no minus zero), so
//! every accepted buffer re-encodes to exactly itself.  Null sentinels
//! (a negative length such as `-1` standing for an absent value) are not
//! part of the value model; a negative length or count header is rejected
//! as `InvalidLength`.

pub mod decode;
pub mod encode;
pub mod error;
pub mod laws;
pub mod num;
pub mod stream;
pub mod value;

pub use decode::consume_crlf;
pub use decode::decode_array;
pub use decode::decode_bulk_string;
pub use decode::decode_error;
pub use decode::decode_integer;
pub use decode::decode_one;
pub use decode::decode_simple_string;
pub use decode::decode_size;
pub use decode::decode_value;
pub use decode::split_with_crlf;
pub use encode::encode;
pub use encode::encode_simple_string;
pub use error::is_retry_eligible;
pub use error::DecodeError;
pub use stream::decode_stream;
pub use stream::handle_request;
pub use stream::Outcome;
pub use value::Value;
pub use value::MAX_DEPTH;
pub use value::MAX_LENGTH;
