//! The decoder.
//!
//! `spec_decode_value` is the mathematical decoder: a recursive-descent
//! reading of the wire grammar over a byte sequence, returning the decoded
//! value and the count of bytes it occupies, or the most specific failure
//! kind.  Every executable entry point is proved to return exactly what the
//! mathematical decoder returns; each one takes a byte slice and threads an
//! explicit consumed-byte count, so recursive array decoding and streaming
//! retries share one mechanism.

use vstd::prelude::*;

use crate::error::DecodeError;
use crate::num::{canonical_digits, digits_value, parse_canonical_u64, DIGIT_ZERO, MINUS};
use crate::value::{lemma_view_items_snoc, view_items, view_value, SpecValue, Value, CR, LF, MAX_DEPTH,
    MAX_LENGTH, TAG_ARRAY, TAG_BULK, TAG_ERROR, TAG_INTEGER, TAG_SIMPLE};

verus! {

/// Index of the first CR in `s`, if any.
pub open spec fn spec_find_cr(s: Seq<u8>) -> Option<int>
    decreases s.len(),
{
    if s.len() == 0 {
        None
    } else if s[0] == CR {
        Some(0)
    } else {
        match spec_find_cr(s.skip(1)) {
            Some(i) => Some(i + 1),
            None => None,
        }
    }
}

/// Splits off one CR-LF-terminated line: the content before the first CR,
/// and the count of bytes consumed including the terminator.  No CR in the
/// buffer, or a CR as its last byte, means the line is still incomplete
/// (`MissingTerminator`); a CR not followed by LF is malformed.
pub open spec fn spec_split_line(s: Seq<u8>) -> Result<(Seq<u8>, int), DecodeError> {
    match spec_find_cr(s) {
        None => Err(DecodeError::MissingTerminator),
        Some(i) => if i + 1 >= s.len() {
            Err(DecodeError::MissingTerminator)
        } else if s[i + 1] != LF {
            Err(DecodeError::MalformedTerminator)
        } else {
            Ok((s.take(i), i + 2))
        },
    }
}

/// Recognizes the two-byte CR LF terminator at the start of `s`.
pub open spec fn spec_consume_crlf(s: Seq<u8>) -> Result<(), DecodeError> {
    if s.len() == 0 {
        Err(DecodeError::MissingTerminator)
    } else if s[0] != CR {
        Err(DecodeError::MalformedTerminator)
    } else if s.len() == 1 {
        Err(DecodeError::MissingTerminator)
    } else if s[1] != LF {
        Err(DecodeError::MalformedTerminator)
    } else {
        Ok(())
    }
}

/// Reads a length or count header: one line holding a canonical non-negative
/// decimal no greater than `MAX_LENGTH`.
pub open spec fn spec_decode_size(s: Seq<u8>) -> Result<(int, int), DecodeError> {
    match spec_split_line(s) {
        Ok((line, c)) => if canonical_digits(line) && digits_value(line) <= MAX_LENGTH {
            Ok((digits_value(line), c))
        } else {
            Err(DecodeError::InvalidLength)
        },
        Err(e) => Err(e),
    }
}

/// Parses an integer payload: a canonical signed decimal within 64-bit
/// range.  `-0`, leading zeros, a lone `-`, and out-of-range values are all
/// rejected, so exactly the encoder's own renderings are accepted.
pub open spec fn spec_parse_i64(s: Seq<u8>) -> Option<int> {
    if s.len() >= 1 && s[0] == MINUS {
        let d = s.skip(1);
        if canonical_digits(d) && d[0] != DIGIT_ZERO && -digits_value(d) >= i64::MIN {
            Some(-digits_value(d))
        } else {
            None
        }
    } else {
        if canonical_digits(s) && digits_value(s) <= i64::MAX {
            Some(digits_value(s))
        } else {
            None
        }
    }
}

/// Decodes a simple string (input starts after the tag byte).
pub open spec fn spec_decode_simple_string(s: Seq<u8>) -> Result<(SpecValue, int), DecodeError> {
    match spec_split_line(s) {
        Ok((line, c)) => Ok((SpecValue::SimpleString(line), c)),
        Err(e) => Err(e),
    }
}

/// Decodes an error value (input starts after the tag byte).
pub open spec fn spec_decode_error(s: Seq<u8>) -> Result<(SpecValue, int), DecodeError> {
    match spec_split_line(s) {
        Ok((line, c)) => Ok((SpecValue::Error(line), c)),
        Err(e) => Err(e),
    }
}

/// Decodes an integer (input starts after the tag byte).
pub open spec fn spec_decode_integer(s: Seq<u8>) -> Result<(SpecValue, int), DecodeError> {
    match spec_split_line(s) {
        Ok((line, c)) => match spec_parse_i64(line) {
            Some(i) => Ok((SpecValue::Integer(i), c)),
            None => Err(DecodeError::InvalidInteger),
        },
        Err(e) => Err(e),
    }
}

/// Decodes a bulk string (input starts after the tag byte): a length header,
/// exactly that many payload bytes taken verbatim — CR LF inside the payload
/// does not terminate it — and a final CR LF.
pub open spec fn spec_decode_bulk_string(s: Seq<u8>) -> Result<(SpecValue, int), DecodeError> {
    match spec_decode_size(s) {
        Ok((len, c)) => {
            let body = s.skip(c);
            if body.len() < len {
                Err(DecodeError::TruncatedBody)
            } else {
                match spec_consume_crlf(body.skip(len)) {
                    Ok(()) => Ok((SpecValue::BulkString(body.take(len)), c + len + 2)),
                    Err(e) => Err(e),
                }
            }
        },
        Err(e) => Err(e),
    }
}

/// Decodes one value at a remaining nesting budget of `depth`: a tag byte
/// selects one of the five per-type decoders; the count it returns includes
/// the tag byte.
pub open spec fn spec_decode_value(s: Seq<u8>, depth: nat) -> Result<(SpecValue, int), DecodeError>
    decreases depth, 0nat, 0nat,
{
    if s.len() == 0 {
        Err(DecodeError::UnexpectedEndOfInput)
    } else {
        let rest = s.skip(1);
        let tagged = if s[0] == TAG_SIMPLE {
            spec_decode_simple_string(rest)
        } else if s[0] == TAG_ERROR {
            spec_decode_error(rest)
        } else if s[0] == TAG_INTEGER {
            spec_decode_integer(rest)
        } else if s[0] == TAG_BULK {
            spec_decode_bulk_string(rest)
        } else if s[0] == TAG_ARRAY {
            if depth == 0 {
                Err(DecodeError::RecursionLimitExceeded)
            } else {
                spec_decode_array(rest, (depth - 1) as nat)
            }
        } else {
            Err(DecodeError::UnknownTypeTag)
        };
        match tagged {
            Ok((v, c)) => Ok((v, 1 + c)),
            Err(e) => Err(e),
        }
    }
}

/// Decodes an array body (input starts after the tag byte): a count header,
/// then that many child values in strict left-to-right order, each child
/// decoded with nesting budget `depth`.
pub open spec fn spec_decode_array(s: Seq<u8>, depth: nat) -> Result<(SpecValue, int), DecodeError>
    decreases depth, 2nat, 0nat,
{
    match spec_decode_size(s) {
        Ok((count, c)) => match spec_decode_items(s.skip(c), count as nat, depth) {
            Ok((items, c2)) => Ok((SpecValue::Array(items), c + c2)),
            Err(e) => Err(e),
        },
        Err(e) => Err(e),
    }
}

/// Decodes exactly `n` consecutive values, propagating the first child
/// failure unchanged.
pub open spec fn spec_decode_items(s: Seq<u8>, n: nat, depth: nat) -> Result<
    (Seq<SpecValue>, int),
    DecodeError,
>
    decreases depth, 1nat, n,
{
    if n == 0 {
        Ok((Seq::empty(), 0))
    } else {
        match spec_decode_value(s, depth) {
            Ok((v, c)) => match spec_decode_items(s.skip(c), (n - 1) as nat, depth) {
                Ok((vs, c2)) => Ok((seq![v] + vs, c + c2)),
                Err(e) => Err(e),
            },
            Err(e) => Err(e),
        }
    }
}

/// Decodes exactly one top-level value and requires the input to be fully
/// consumed.
pub open spec fn spec_decode_one(s: Seq<u8>) -> Result<SpecValue, DecodeError> {
    match spec_decode_value(s, MAX_DEPTH as nat) {
        Ok((v, n)) => if n == s.len() {
            Ok(v)
        } else {
            Err(DecodeError::TrailingData)
        },
        Err(e) => Err(e),
    }
}

/// Where `spec_find_cr` answers, its answer is the first CR.
pub proof fn lemma_find_cr_spec(s: Seq<u8>)
    ensures
        match spec_find_cr(s) {
            Some(i) => {
                &&& 0 <= i < s.len()
                &&& s[i] == CR
                &&& forall|j: int| 0 <= j < i ==> s[j] != CR
            },
            None => forall|j: int| 0 <= j < s.len() ==> s[j] != CR,
        },
    decreases s.len(),
{
    if s.len() > 0 && s[0] != CR {
        let t = s.skip(1);
        lemma_find_cr_spec(t);
        assert(forall|j: int| 0 <= j < t.len() ==> t[j] == s[j + 1]);
        match spec_find_cr(t) {
            Some(i) => {
                assert(s[i + 1] == t[i]);
                assert forall|j: int| 0 <= j < i + 1 implies s[j] != CR by {
                    if j >= 1 {
                        assert(s[j] == t[j - 1]);
                    }
                }
            },
            None => {
                assert forall|j: int| 0 <= j < s.len() implies s[j] != CR by {
                    if j >= 1 {
                        assert(s[j] == t[j - 1]);
                    }
                }
            },
        }
    }
}

/// A position holding the first CR is what `spec_find_cr` answers.
pub proof fn lemma_find_cr_unique(s: Seq<u8>, i: int)
    requires
        0 <= i < s.len(),
        s[i] == CR,
        forall|j: int| 0 <= j < i ==> s[j] != CR,
    ensures
        spec_find_cr(s) == Some(i),
    decreases i,
{
    if i > 0 {
        assert(forall|j: int| 0 <= j < s.skip(1).len() ==> s.skip(1)[j] == s[j + 1]);
        lemma_find_cr_unique(s.skip(1), i - 1);
    }
}

/// What a successful line split says of the buffer: the line is the CR-free
/// content, and the consumed count covers it and the terminator.
pub proof fn lemma_split_line_exact(s: Seq<u8>)
    ensures
        spec_split_line(s) matches Ok((line, c)) ==> {
            &&& 2 <= c <= s.len()
            &&& line == s.take(c - 2)
            &&& line.len() == c - 2
            &&& !line.contains(CR)
            &&& s[c - 2] == CR
            &&& s[c - 1] == LF
            &&& s.take(c) == line + crate::value::crlf()
        },
{
    lemma_find_cr_spec(s);
    if spec_split_line(s) is Ok {
        let (line, c) = spec_split_line(s)->Ok_0;
        let i = c - 2;
        assert(line =~= s.take(i));
        assert(!line.contains(CR)) by {
            assert(forall|j: int| 0 <= j < i ==> line[j] == s[j]);
        }
        assert(s.take(c) =~= line + crate::value::crlf());
    }
}

/// Splitting a line off a buffer laid out as content, CR LF, remainder.
pub proof fn lemma_split_line_of(line: Seq<u8>, tail: Seq<u8>)
    requires
        !line.contains(CR),
    ensures
        spec_split_line(line + crate::value::crlf() + tail) == Ok::<_, DecodeError>(
            (line, line.len() as int + 2),
        ),
{
    let s = line + crate::value::crlf() + tail;
    let i = line.len() as int;
    assert(s[i] == CR);
    assert(s[i + 1] == LF);
    assert(forall|j: int| 0 <= j < i ==> s[j] == line[j]);
    assert(forall|j: int| 0 <= j < i ==> s[j] != CR) by {
        assert(forall|j: int| 0 <= j < i ==> line[j] != CR);
    }
    lemma_find_cr_unique(s, i);
    assert(s.take(i) =~= line);
}

/// Scans for the first CR and checks the byte after it, returning the index
/// of the CR (so the line is `bytes[..i]` and `i + 2` bytes are consumed).
fn split_line_at(bytes: &[u8]) -> (r: Result<usize, DecodeError>)
    ensures
        match r {
            Ok(i) => {
                &&& spec_split_line(bytes@) matches Ok((line, c))
                    && line == bytes@.take(i as int)
                    && c == i + 2
                &&& i + 2 <= bytes@.len()
            },
            Err(e) => spec_split_line(bytes@) matches Err(e2) && e2 == e,
        },
{
    let n = bytes.len();
    let mut i: usize = 0;
    while i < n
        invariant
            0 <= i <= n,
            n == bytes@.len(),
            forall|j: int| 0 <= j < i ==> bytes@[j] != CR,
        decreases n - i,
    {
        if *vstd::slice::slice_index_get(bytes, i) == CR {
            proof {
                lemma_find_cr_unique(bytes@, i as int);
            }
            if i + 1 >= n {
                return Err(DecodeError::MissingTerminator);
            }
            if *vstd::slice::slice_index_get(bytes, i + 1) != LF {
                return Err(DecodeError::MalformedTerminator);
            }
            return Ok(i);
        }
        i = i + 1;
    }
    proof {
        lemma_find_cr_spec(bytes@);
    }
    Err(DecodeError::MissingTerminator)
}

/// Splits one CR-LF-terminated line off the front of `bytes`, returning the
/// content before the CR and everything after the LF.
pub fn split_with_crlf(bytes: &[u8]) -> (r: Result<(&[u8], &[u8]), DecodeError>)
    ensures
        match r {
            Ok((head, rest)) => spec_split_line(bytes@) matches Ok((line, c)) && head@ == line
                && rest@ == bytes@.skip(c),
            Err(e) => spec_split_line(bytes@) matches Err(e2) && e2 == e,
        },
{
    let n = bytes.len();
    match split_line_at(bytes) {
        Ok(i) => {
            let head = vstd::slice::slice_subrange(bytes, 0, i);
            let rest = vstd::slice::slice_subrange(bytes, i + 2, n);
            proof {
                assert(head@ =~= bytes@.take(i as int));
                assert(rest@ =~= bytes@.skip(i + 2));
            }
            Ok((head, rest))
        },
        Err(e) => Err(e),
    }
}

/// Consumes the two-byte CR LF terminator at the start of `bytes` and
/// returns what follows it.
pub fn consume_crlf(bytes: &[u8]) -> (r: Result<&[u8], DecodeError>)
    ensures
        match r {
            Ok(rest) => spec_consume_crlf(bytes@) is Ok && rest@ == bytes@.skip(2),
            Err(e) => spec_consume_crlf(bytes@) matches Err(e2) && e2 == e,
        },
{
    if bytes.len() == 0 {
        return Err(DecodeError::MissingTerminator);
    }
    if *vstd::slice::slice_index_get(bytes, 0) != CR {
        return Err(DecodeError::MalformedTerminator);
    }
    if bytes.len() == 1 {
        return Err(DecodeError::MissingTerminator);
    }
    if *vstd::slice::slice_index_get(bytes, 1) != LF {
        return Err(DecodeError::MalformedTerminator);
    }
    let rest = vstd::slice::slice_subrange(bytes, 2, bytes.len());
    proof {
        assert(rest@ =~= bytes@.skip(2));
    }
    Ok(rest)
}

/// Parses an integer payload as `spec_parse_i64` reads it.
fn parse_i64_bytes(s: &[u8]) -> (r: Option<i64>)
    ensures
        match r {
            Some(v) => spec_parse_i64(s@) == Some(v as int),
            None => spec_parse_i64(s@) is None,
        },
{
    if s.len() >= 1 && *vstd::slice::slice_index_get(s, 0) == MINUS {
        let digits = vstd::slice::slice_subrange(s, 1, s.len());
        proof {
            assert(digits@ =~= s@.skip(1));
        }
        if digits.len() >= 1 && *vstd::slice::slice_index_get(digits, 0) == DIGIT_ZERO {
            return None;
        }
        match parse_canonical_u64(digits) {
            Some(v) => {
                if v <= 0x8000_0000_0000_0000u64 {
                    let out = if v == 0x8000_0000_0000_0000u64 {
                        i64::MIN
                    } else {
                        -(v as i64)
                    };
                    Some(out)
                } else {
                    None
                }
            },
            None => {
                proof {
                    if canonical_digits(digits@) {
                        crate::num::lemma_digits_value_nonneg(digits@);
                    }
                }
                None
            },
        }
    } else {
        match parse_canonical_u64(s) {
            Some(v) => {
                if v <= 0x7fff_ffff_ffff_ffffu64 {
                    Some(v as i64)
                } else {
                    None
                }
            },
            None => None,
        }
    }
}

/// Reads a length or count header off the front of `bytes`, returning the
/// size and the count of bytes consumed.
pub fn decode_size(bytes: &[u8]) -> (r: Result<(usize, usize), DecodeError>)
    ensures
        match r {
            Ok((size, n)) => spec_decode_size(bytes@) matches Ok((sz, c)) && sz == size as int
                && c == n as int && n <= bytes@.len(),
            Err(e) => spec_decode_size(bytes@) matches Err(e2) && e2 == e,
        },
{
    proof {
        assert(bytes@.len() == bytes.len());
    }
    match split_line_at(bytes) {
        Ok(i) => {
            let line = vstd::slice::slice_subrange(bytes, 0, i);
            proof {
                assert(line@ =~= bytes@.take(i as int));
            }
            match parse_canonical_u64(line) {
                Some(v) => {
                    if v <= MAX_LENGTH as u64 {
                        Ok(((v as usize), i + 2))
                    } else {
                        Err(DecodeError::InvalidLength)
                    }
                },
                None => {
                    proof {
                        if canonical_digits(line@) {
                            crate::num::lemma_digits_value_nonneg(line@);
                        }
                    }
                    Err(DecodeError::InvalidLength)
                },
            }
        },
        Err(e) => Err(e),
    }
}

/// Decodes a simple string (input starts after the tag byte).
pub fn decode_simple_string(bytes: &[u8]) -> (r: Result<(Value, usize), DecodeError>)
    ensures
        match r {
            Ok((v, n)) => spec_decode_simple_string(bytes@) matches Ok((sv, c)) && sv == v@ && c
                == n as int && n <= bytes@.len(),
            Err(e) => spec_decode_simple_string(bytes@) matches Err(e2) && e2 == e,
        },
{
    proof {
        assert(bytes@.len() == bytes.len());
    }
    match split_line_at(bytes) {
        Ok(i) => {
            let line = vstd::slice::slice_subrange(bytes, 0, i);
            proof {
                assert(line@ =~= bytes@.take(i as int));
            }
            Ok((Value::SimpleString(vstd::slice::slice_to_vec(line)), i + 2))
        },
        Err(e) => Err(e),
    }
}

/// Decodes an error value (input starts after the tag byte).
pub fn decode_error(bytes: &[u8]) -> (r: Result<(Value, usize), DecodeError>)
    ensures
        match r {
            Ok((v, n)) => spec_decode_error(bytes@) matches Ok((sv, c)) && sv == v@ && c
                == n as int && n <= bytes@.len(),
            Err(e) => spec_decode_error(bytes@) matches Err(e2) && e2 == e,
        },
{
    proof {
        assert(bytes@.len() == bytes.len());
    }
    match split_line_at(bytes) {
        Ok(i) => {
            let line = vstd::slice::slice_subrange(bytes, 0, i);
            proof {
                assert(line@ =~= bytes@.take(i as int));
            }
            Ok((Value::Error(vstd::slice::slice_to_vec(line)), i + 2))
        },
        Err(e) => Err(e),
    }
}

/// Decodes an integer (input starts after the tag byte).
pub fn decode_integer(bytes: &[u8]) -> (r: Result<(Value, usize), DecodeError>)
    ensures
        match r {
            Ok((v, n)) => spec_decode_integer(bytes@) matches Ok((sv, c)) && sv == v@ && c
                == n as int && n <= bytes@.len(),
            Err(e) => spec_decode_integer(bytes@) matches Err(e2) && e2 == e,
        },
{
    proof {
        assert(bytes@.len() == bytes.len());
    }
    match split_line_at(bytes) {
        Ok(i) => {
            let line = vstd::slice::slice_subrange(bytes, 0, i);
            proof {
                assert(line@ =~= bytes@.take(i as int));
            }
            match parse_i64_bytes(line) {
                Some(v) => Ok((Value::Integer(v), i + 2)),
                None => Err(DecodeError::InvalidInteger),
            }
        },
        Err(e) => Err(e),
    }
}

/// Decodes a bulk string (input starts after the tag byte): a binary-safe
/// payload of declared length, then CR LF.
pub fn decode_bulk_string(bytes: &[u8]) -> (r: Result<(Value, usize), DecodeError>)
    ensures
        match r {
            Ok((v, n)) => spec_decode_bulk_string(bytes@) matches Ok((sv, c)) && sv == v@ && c
                == n as int && n <= bytes@.len(),
            Err(e) => spec_decode_bulk_string(bytes@) matches Err(e2) && e2 == e,
        },
{
    match decode_size(bytes) {
        Ok((size, c)) => {
            let body = vstd::slice::slice_subrange(bytes, c, bytes.len());
            proof {
                assert(body@ =~= bytes@.skip(c as int));
            }
            if body.len() < size {
                return Err(DecodeError::TruncatedBody);
            }
            let payload = vstd::slice::slice_subrange(body, 0, size);
            let after = vstd::slice::slice_subrange(body, size, body.len());
            proof {
                assert(payload@ =~= body@.take(size as int));
                assert(after@ =~= body@.skip(size as int));
            }
            match consume_crlf(after) {
                Ok(_) => Ok((Value::BulkString(vstd::slice::slice_to_vec(payload)), c + size + 2)),
                Err(e) => Err(e),
            }
        },
        Err(e) => Err(e),
    }
}

/// Decodes one value with `depth` nesting levels still allowed.
fn decode_value_depth(bytes: &[u8], depth: u32) -> (r: Result<(Value, usize), DecodeError>)
    ensures
        match r {
            Ok((v, n)) => spec_decode_value(bytes@, depth as nat) matches Ok((sv, c)) && sv == v@
                && c == n as int && n <= bytes@.len(),
            Err(e) => spec_decode_value(bytes@, depth as nat) matches Err(e2) && e2 == e,
        },
    decreases depth, 1int,
{
    if bytes.len() == 0 {
        return Err(DecodeError::UnexpectedEndOfInput);
    }
    let tag = *vstd::slice::slice_index_get(bytes, 0);
    let rest = vstd::slice::slice_subrange(bytes, 1, bytes.len());
    proof {
        assert(rest@ =~= bytes@.skip(1));
    }
    let sub: Result<(Value, usize), DecodeError> = if tag == TAG_SIMPLE {
        decode_simple_string(rest)
    } else if tag == TAG_ERROR {
        decode_error(rest)
    } else if tag == TAG_INTEGER {
        decode_integer(rest)
    } else if tag == TAG_BULK {
        decode_bulk_string(rest)
    } else if tag == TAG_ARRAY {
        if depth == 0 {
            Err(DecodeError::RecursionLimitExceeded)
        } else {
            decode_array_depth(rest, depth - 1)
        }
    } else {
        Err(DecodeError::UnknownTypeTag)
    };
    match sub {
        Ok((v, n)) => Ok((v, 1 + n)),
        Err(e) => Err(e),
    }
}

/// Decodes an array body (input starts after the tag byte), each child
/// decoded with `depth` nesting levels still allowed.
#[verifier::loop_isolation(false)]
fn decode_array_depth(bytes: &[u8], depth: u32) -> (r: Result<(Value, usize), DecodeError>)
    ensures
        match r {
            Ok((v, n)) => spec_decode_array(bytes@, depth as nat) matches Ok((sv, c)) && sv == v@
                && c == n as int && n <= bytes@.len(),
            Err(e) => spec_decode_array(bytes@, depth as nat) matches Err(e2) && e2 == e,
        },
    decreases depth, 2int,
{
    let ghost d = depth as nat;
    match decode_size(bytes) {
        Ok((count, c)) => {
            let ghost s0 = bytes@.skip(c as int);
            let mut items: Vec<Value> = Vec::new();
            let mut rem: &[u8] = vstd::slice::slice_subrange(bytes, c, bytes.len());
            let mut used: usize = 0;
            proof {
                assert(rem@ =~= s0);
                assert(s0.skip(0) =~= s0);
                match spec_decode_items(s0, count as nat, d) {
                    Ok((vs2, c2)) => {
                        assert(view_items(items@) + vs2 =~= vs2);
                    },
                    Err(_) => {},
                }
            }
            let mut k: usize = 0;
            while k < count
                invariant
                    0 <= k <= count,
                    used <= s0.len(),
                    rem@ == s0.skip(used as int),
                    items@.len() == k,
                    spec_decode_items(s0, count as nat, d) == (match spec_decode_items(
                        rem@,
                        (count - k) as nat,
                        d,
                    ) {
                        Ok((vs2, c2)) => Ok::<(Seq<SpecValue>, int), DecodeError>(
                            (view_items(items@) + vs2, used + c2),
                        ),
                        Err(e) => Err(e),
                    }),
                decreases count - k,
            {
                let ghost items_before = items@;
                match decode_value_depth(rem, depth) {
                    Ok((v, n1)) => {
                        proof {
                            lemma_view_items_snoc(items@, v);
                        }
                        items.push(v);
                        used = used + n1;
                        let ghost rem_before = rem@;
                        rem = vstd::slice::slice_subrange(rem, n1, rem.len());
                        k = k + 1;
                        proof {
                            assert(rem@ =~= rem_before.skip(n1 as int));
                            assert(rem@ =~= s0.skip(used as int));
                            match spec_decode_items(rem@, (count - k) as nat, d) {
                                Ok((vs2, c2)) => {
                                    assert(view_items(items_before) + (seq![view_value(v)] + vs2)
                                        =~= view_items(items@) + vs2);
                                },
                                Err(e) => {},
                            }
                        }
                    },
                    Err(e) => {
                        return Err(e);
                    },
                }
            }
            proof {
                assert(spec_decode_items(rem@, 0nat, d) == Ok::<(Seq<SpecValue>, int), DecodeError>(
                    (Seq::empty(), 0),
                ));
                assert(view_items(items@) + Seq::<SpecValue>::empty() =~= view_items(items@));
            }
            Ok((Value::Array(items), c + used))
        },
        Err(e) => Err(e),
    }
}

/// Decodes one value off the front of `bytes`, returning it and the count
/// of bytes it occupied; whatever follows is untouched and may hold the
/// start of the next message.
pub fn decode_value(bytes: &[u8]) -> (r: Result<(Value, usize), DecodeError>)
    ensures
        match r {
            Ok((v, n)) => {
                &&& spec_decode_value(bytes@, MAX_DEPTH as nat) matches Ok((sv, c)) && sv == v@
                    && c == n as int
                &&& n <= bytes@.len()
                &&& crate::value::wf(v@)
                &&& bytes@.take(n as int) == crate::encode::spec_encode(v@)
            },
            Err(e) => spec_decode_value(bytes@, MAX_DEPTH as nat) matches Err(e2) && e2 == e,
        },
{
    let r = decode_value_depth(bytes, MAX_DEPTH);
    proof {
        crate::laws::lemma_decode_value_exact(bytes@, MAX_DEPTH as nat);
    }
    r
}

/// Decodes an array body at the top-level nesting budget (input starts
/// after the tag byte).
pub fn decode_array(bytes: &[u8]) -> (r: Result<(Value, usize), DecodeError>)
    ensures
        match r {
            Ok((v, n)) => spec_decode_array(bytes@, (MAX_DEPTH - 1) as nat) matches Ok((sv, c))
                && sv == v@ && c == n as int && n <= bytes@.len(),
            Err(e) => spec_decode_array(bytes@, (MAX_DEPTH - 1) as nat) matches Err(e2) && e2 == e,
        },
{
    decode_array_depth(bytes, MAX_DEPTH - 1)
}

/// Decodes exactly one top-level value and requires the input to be fully
/// consumed; trailing bytes are an error of their own kind.
pub fn decode_one(bytes: &[u8]) -> (r: Result<Value, DecodeError>)
    ensures
        match r {
            Ok(v) => {
                &&& spec_decode_one(bytes@) matches Ok(sv) && sv == v@
                &&& crate::value::wf(v@)
                &&& crate::encode::spec_encode(v@) == bytes@
            },
            Err(e) => spec_decode_one(bytes@) matches Err(e2) && e2 == e,
        },
{
    proof {
        crate::laws::lemma_byte_exact(bytes@);
    }
    match decode_value(bytes) {
        Ok((v, n)) => {
            if n == bytes.len() {
                Ok(v)
            } else {
                Err(DecodeError::TrailingData)
            }
        },
        Err(e) => Err(e),
    }
}

} // verus!
