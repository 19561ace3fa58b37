//! The codec's laws.
//!
//! Encoding is the exact structural inverse of decoding:
//! `lemma_round_trip` shows that decoding the encoding of any well-formed
//! value yields that value back, and `lemma_byte_exact` shows that any
//! buffer the decoder accepts re-encodes to exactly the same bytes — the
//! decoder accepts no alternate or looser spelling of a value.

use vstd::prelude::*;

use crate::decode::{spec_decode_array, spec_decode_bulk_string, spec_decode_error,
    spec_decode_integer, spec_decode_items, spec_decode_one, spec_decode_simple_string,
    spec_decode_size, spec_decode_value, spec_parse_i64, spec_split_line, lemma_split_line_exact,
    lemma_split_line_of};
use crate::encode::{spec_encode, spec_encode_items};
use crate::error::DecodeError;
use crate::num::{canonical_digits, dec_digits, digits_value, int_digits, is_digit,
    lemma_canonical_digits_roundtrip, lemma_dec_digits_canonical, lemma_digits_value_nonneg,
    lemma_leading_nonzero_value_pos, DIGIT_ZERO, MINUS};
use crate::value::{crlf, wf, wf_at, SpecValue, CR, LF, MAX_DEPTH, MAX_LENGTH, TAG_ARRAY, TAG_BULK,
    TAG_ERROR, TAG_INTEGER, TAG_SIMPLE};

verus! {

/// A canonically rendered number contains no CR byte.
proof fn lemma_dec_digits_no_cr(n: nat)
    ensures
        !dec_digits(n).contains(CR),
{
    lemma_dec_digits_canonical(n);
    let s = dec_digits(n);
    assert forall|j: int| 0 <= j < s.len() implies s[j] != CR by {
        assert(is_digit(s[j]));
    }
}

/// A canonically rendered integer contains no CR byte.
proof fn lemma_int_digits_no_cr(i: int)
    ensures
        !int_digits(i).contains(CR),
{
    if i < 0 {
        lemma_dec_digits_no_cr((-i) as nat);
        let s = int_digits(i);
        let d = dec_digits((-i) as nat);
        assert forall|j: int| 0 <= j < s.len() implies s[j] != CR by {
            if j >= 1 {
                assert(s[j] == d[j - 1]);
                assert(d.contains(d[j - 1])) by {
                    assert(0 <= j - 1 < d.len());
                }
            }
        }
    } else {
        lemma_dec_digits_no_cr(i as nat);
    }
}

/// An accepted integer payload is the canonical rendering of its value.
proof fn lemma_parse_i64_exact(s: Seq<u8>)
    ensures
        spec_parse_i64(s) matches Some(i) ==> {
            &&& i64::MIN <= i <= i64::MAX
            &&& s == int_digits(i)
        },
{
    if spec_parse_i64(s) is Some {
        let i = spec_parse_i64(s)->0;
        if s.len() >= 1 && s[0] == MINUS {
            let d = s.skip(1);
            lemma_canonical_digits_roundtrip(d);
            lemma_leading_nonzero_value_pos(d);
            assert(i == -digits_value(d));
            assert(i <= -1);
            assert(dec_digits((-i) as nat) == d);
            assert(int_digits(i) =~= seq![MINUS] + d);
            assert(seq![MINUS] + d =~= s);
        } else {
            lemma_canonical_digits_roundtrip(s);
            lemma_digits_value_nonneg(s);
            assert(int_digits(i) == dec_digits(i as nat));
        }
    }
}

/// The canonical rendering of any 64-bit integer parses back to it.
proof fn lemma_parse_int_digits(i: int)
    requires
        i64::MIN <= i <= i64::MAX,
    ensures
        spec_parse_i64(int_digits(i)) == Some(i),
{
    let s = int_digits(i);
    if i < 0 {
        lemma_dec_digits_canonical((-i) as nat);
        let d = dec_digits((-i) as nat);
        assert(s == seq![MINUS] + d);
        assert(s[0] == MINUS);
        assert(s.skip(1) =~= d);
        assert(d[0] != DIGIT_ZERO);
        assert(digits_value(d) == -i);
    } else {
        lemma_dec_digits_canonical(i as nat);
        assert(s == dec_digits(i as nat));
        assert(is_digit(s[0]));
        assert(s[0] != MINUS);
        assert(digits_value(s) == i);
    }
}

/// What an accepted size header says of the buffer: the line is the
/// canonical digits of the size, and the size is within the cap.
proof fn lemma_decode_size_exact(s: Seq<u8>)
    ensures
        spec_decode_size(s) matches Ok((size, c)) ==> {
            &&& 0 <= size <= MAX_LENGTH
            &&& 2 <= c <= s.len()
            &&& s.take(c) == dec_digits(size as nat) + crlf()
        },
{
    lemma_split_line_exact(s);
    if spec_decode_size(s) is Ok {
        let (line, _c) = spec_split_line(s)->Ok_0;
        lemma_canonical_digits_roundtrip(line);
    }
}

/// Byte-exactness, decoder side: every accepted value is well formed at the
/// depth it was decoded at, and the bytes it occupied are exactly its own
/// encoding.
pub proof fn lemma_decode_value_exact(s: Seq<u8>, d: nat)
    ensures
        spec_decode_value(s, d) matches Ok((v, n)) ==> {
            &&& wf_at(v, d)
            &&& 1 <= n <= s.len()
            &&& s.take(n) == spec_encode(v)
        },
    decreases d, 0nat, 0nat,
{
    if spec_decode_value(s, d) is Ok {
        let (v, n) = spec_decode_value(s, d)->Ok_0;
        let rest = s.skip(1);
        assert(forall|j: int| 0 <= j < rest.len() ==> rest[j] == s[j + 1]);
        if s[0] == TAG_SIMPLE {
            lemma_split_line_exact(rest);
            let (line, c) = spec_split_line(rest)->Ok_0;
            assert(s.take(n) =~= seq![TAG_SIMPLE] + rest.take(c));
            assert(s.take(n) =~= seq![TAG_SIMPLE] + line + crlf());
        } else if s[0] == TAG_ERROR {
            lemma_split_line_exact(rest);
            let (line, c) = spec_split_line(rest)->Ok_0;
            assert(s.take(n) =~= seq![TAG_ERROR] + rest.take(c));
            assert(s.take(n) =~= seq![TAG_ERROR] + line + crlf());
        } else if s[0] == TAG_INTEGER {
            lemma_split_line_exact(rest);
            let (line, c) = spec_split_line(rest)->Ok_0;
            lemma_parse_i64_exact(line);
            assert(s.take(n) =~= seq![TAG_INTEGER] + rest.take(c));
            assert(s.take(n) =~= seq![TAG_INTEGER] + line + crlf());
        } else if s[0] == TAG_BULK {
            lemma_decode_size_exact(rest);
            let (size, c1) = spec_decode_size(rest)->Ok_0;
            let body = rest.skip(c1);
            let payload = body.take(size);
            assert(v == SpecValue::BulkString(payload));
            assert(n == 1 + c1 + size + 2);
            assert(body[size] == CR && body[size + 1] == LF);
            assert(s.take(n) =~= seq![TAG_BULK] + rest.take(c1) + payload + crlf());
            assert(s.take(n) =~= seq![TAG_BULK] + (dec_digits(size as nat) + crlf()) + payload
                + crlf());
            assert(spec_encode(v) == seq![TAG_BULK] + dec_digits(payload.len()) + crlf() + payload
                + crlf());
            assert(s.take(n) =~= spec_encode(v));
        } else if s[0] == TAG_ARRAY {
            lemma_decode_array_exact(rest, (d - 1) as nat);
            let (av, c) = spec_decode_array(rest, (d - 1) as nat)->Ok_0;
            assert(s.take(n) =~= seq![TAG_ARRAY] + rest.take(c));
            let items = av->Array_0;
            assert(rest.take(c) == dec_digits(items.len()) + crlf() + spec_encode_items(items));
            assert(s.take(n) =~= seq![TAG_ARRAY] + dec_digits(items.len()) + crlf()
                + spec_encode_items(items));
        }
    }
}

/// Byte-exactness for an array body: the bytes are the count header and the
/// children's encodings, and the children are well formed at depth `d`.
proof fn lemma_decode_array_exact(s: Seq<u8>, d: nat)
    ensures
        spec_decode_array(s, d) matches Ok((v, n)) ==> {
            &&& v matches SpecValue::Array(items)
            &&& wf_at(v, (d + 1) as nat)
            &&& 0 <= n <= s.len()
            &&& s.take(n) == dec_digits(v->Array_0.len()) + crlf() + spec_encode_items(v->Array_0)
        },
    decreases d, 2nat, 0nat,
{
    if spec_decode_array(s, d) is Ok {
        lemma_decode_size_exact(s);
        let (count, c1) = spec_decode_size(s)->Ok_0;
        lemma_decode_items_exact(s.skip(c1), count as nat, d);
        let (items, c2) = spec_decode_items(s.skip(c1), count as nat, d)->Ok_0;
        let (v, n) = spec_decode_array(s, d)->Ok_0;
        assert(items.len() == count);
        assert(s.take(n) =~= s.take(c1) + s.skip(c1).take(c2));
        assert(s.take(n) =~= (dec_digits(count as nat) + crlf()) + spec_encode_items(items));
        assert(s.take(n) =~= dec_digits(items.len()) + crlf() + spec_encode_items(items));
    }
}

/// Byte-exactness for `n` consecutive values.
proof fn lemma_decode_items_exact(s: Seq<u8>, n: nat, d: nat)
    ensures
        spec_decode_items(s, n, d) matches Ok((vs, c)) ==> {
            &&& vs.len() == n
            &&& 0 <= c <= s.len()
            &&& s.take(c) == spec_encode_items(vs)
            &&& forall|j: int| 0 <= j < vs.len() ==> wf_at(#[trigger] vs[j], d)
        },
    decreases d, 1nat, n,
{
    if n != 0 && spec_decode_items(s, n, d) is Ok {
        lemma_decode_value_exact(s, d);
        let (v, c1) = spec_decode_value(s, d)->Ok_0;
        lemma_decode_items_exact(s.skip(c1), (n - 1) as nat, d);
        let (vs1, c2) = spec_decode_items(s.skip(c1), (n - 1) as nat, d)->Ok_0;
        let vs = seq![v] + vs1;
        assert(vs[0] == v);
        assert(vs.drop_first() =~= vs1);
        assert(s.take(c1 + c2) =~= s.take(c1) + s.skip(c1).take(c2));
        assert(s.take(c1 + c2) =~= spec_encode(v) + spec_encode_items(vs1));
        assert(spec_encode_items(vs) == spec_encode(vs[0]) + spec_encode_items(vs.drop_first()));
        assert(forall|j: int| 1 <= j < vs.len() ==> vs[j] == vs1[j - 1]);
    } else {
        if n == 0 {
            assert(s.take(0) =~= Seq::<u8>::empty());
        }
    }
}

/// Round trip, decoder completeness: the encoding of a well-formed value,
/// followed by anything at all, decodes to exactly that value, consuming
/// exactly its encoding.
#[verifier::rlimit(60)]
pub proof fn lemma_encode_decodes(v: SpecValue, tail: Seq<u8>, d: nat)
    requires
        wf_at(v, d),
    ensures
        spec_decode_value(spec_encode(v) + tail, d) == Ok::<(SpecValue, int), DecodeError>(
            (v, spec_encode(v).len() as int),
        ),
    decreases v, 0int,
{
    let enc = spec_encode(v);
    let s = enc + tail;
    let rest = s.skip(1);
    assert(forall|j: int| 0 <= j < rest.len() ==> rest[j] == s[j + 1]);
    match v {
        SpecValue::SimpleString(content) => {
            assert(s[0] == TAG_SIMPLE);
            assert(rest =~= content + crlf() + tail);
            lemma_split_line_of(content, tail);
            assert(spec_decode_simple_string(rest) == Ok::<(SpecValue, int), DecodeError>(
                (v, content.len() as int + 2),
            ));
            assert(enc.len() == 1 + content.len() + 2);
        },
        SpecValue::Error(content) => {
            assert(s[0] == TAG_ERROR);
            assert(s[0] != TAG_SIMPLE);
            assert(rest =~= content + crlf() + tail);
            lemma_split_line_of(content, tail);
            assert(spec_decode_error(rest) == Ok::<(SpecValue, int), DecodeError>(
                (v, content.len() as int + 2),
            ));
            assert(enc.len() == 1 + content.len() + 2);
        },
        SpecValue::Integer(i) => {
            let line = int_digits(i);
            assert(s[0] == TAG_INTEGER);
            lemma_int_digits_no_cr(i);
            assert(line.len() >= 1) by {
                if i >= 0 {
                    lemma_dec_digits_canonical(i as nat);
                }
            }
            assert(s[0] != TAG_SIMPLE && s[0] != TAG_ERROR);
            assert(rest =~= line + crlf() + tail);
            lemma_split_line_of(line, tail);
            lemma_parse_int_digits(i);
            assert(spec_decode_integer(rest) == Ok::<(SpecValue, int), DecodeError>(
                (v, line.len() as int + 2),
            ));
            assert(enc.len() == 1 + line.len() + 2);
        },
        SpecValue::BulkString(payload) => {
            let hdr = dec_digits(payload.len());
            assert(s[0] == TAG_BULK);
            lemma_dec_digits_canonical(payload.len());
            assert(s[0] != TAG_SIMPLE && s[0] != TAG_ERROR && s[0] != TAG_INTEGER);
            assert(rest =~= hdr + crlf() + (payload + crlf() + tail));
            lemma_dec_digits_no_cr(payload.len());
            lemma_split_line_of(hdr, payload + crlf() + tail);
            assert(spec_decode_size(rest) == Ok::<(int, int), DecodeError>(
                (payload.len() as int, hdr.len() as int + 2),
            ));
            let body = rest.skip(hdr.len() as int + 2);
            assert(body =~= payload + crlf() + tail);
            assert(body.take(payload.len() as int) =~= payload);
            let after = body.skip(payload.len() as int);
            assert(after =~= crlf() + tail);
            assert(after[0] == CR && after[1] == LF);
            assert(spec_decode_bulk_string(rest) == Ok::<(SpecValue, int), DecodeError>(
                (v, hdr.len() as int + 2 + payload.len() + 2),
            ));
            assert(enc.len() == 1 + hdr.len() + 2 + payload.len() + 2);
        },
        SpecValue::Array(items) => {
            let hdr = dec_digits(items.len());
            assert(s[0] == TAG_ARRAY);
            lemma_dec_digits_canonical(items.len());
            assert(s[0] != TAG_SIMPLE && s[0] != TAG_ERROR && s[0] != TAG_INTEGER && s[0]
                != TAG_BULK);
            let body = spec_encode_items(items) + tail;
            assert(rest =~= hdr + crlf() + body);
            lemma_dec_digits_no_cr(items.len());
            lemma_split_line_of(hdr, body);
            assert(spec_decode_size(rest) == Ok::<(int, int), DecodeError>(
                (items.len() as int, hdr.len() as int + 2),
            ));
            assert(rest.skip(hdr.len() as int + 2) =~= body);
            assert(d >= 1);
            lemma_encode_items_decode(items, tail, (d - 1) as nat);
            assert(spec_decode_array(rest, (d - 1) as nat) == Ok::<(SpecValue, int), DecodeError>(
                (v, hdr.len() as int + 2 + spec_encode_items(items).len()),
            ));
            assert(enc.len() == 1 + hdr.len() + 2 + spec_encode_items(items).len());
        },
    }
}

/// Round trip for a sequence of values laid end to end.
proof fn lemma_encode_items_decode(items: Seq<SpecValue>, tail: Seq<u8>, d: nat)
    requires
        forall|j: int| 0 <= j < items.len() ==> wf_at(#[trigger] items[j], d),
    ensures
        spec_decode_items(spec_encode_items(items) + tail, items.len(), d) == Ok::<
            (Seq<SpecValue>, int),
            DecodeError,
        >((items, spec_encode_items(items).len() as int)),
    decreases items, 1int,
{
    if items.len() == 0 {
        assert(spec_encode_items(items) + tail =~= tail);
        assert(spec_decode_items(tail, 0, d) == Ok::<(Seq<SpecValue>, int), DecodeError>(
            (Seq::empty(), 0),
        ));
        assert(items =~= Seq::<SpecValue>::empty());
    } else {
        let first = items[0];
        let others = items.drop_first();
        let e0 = spec_encode(first);
        let erest = spec_encode_items(others);
        let s = spec_encode_items(items) + tail;
        assert(s =~= e0 + (erest + tail));
        lemma_encode_decodes(first, erest + tail, d);
        assert(spec_decode_value(s, d) == Ok::<(SpecValue, int), DecodeError>(
            (first, e0.len() as int),
        ));
        assert(s.skip(e0.len() as int) =~= erest + tail);
        assert(forall|j: int| 0 <= j < others.len() ==> others[j] == #[trigger] items[j + 1]);
        lemma_encode_items_decode(others, tail, d);
        assert(seq![first] + others =~= items);
        assert(spec_encode_items(items).len() == e0.len() + erest.len());
    }
}

/// A strict prefix of a CR-LF-terminated line is merely incomplete.
proof fn lemma_split_line_prefix(line: Seq<u8>, k: int)
    requires
        !line.contains(CR),
        0 <= k < line.len() + 2,
    ensures
        spec_split_line((line + crlf()).take(k)) == Err::<(Seq<u8>, int), DecodeError>(
            DecodeError::MissingTerminator,
        ),
{
    let p = (line + crlf()).take(k);
    if k <= line.len() {
        assert(p =~= line.take(k));
        assert(forall|j: int| 0 <= j < p.len() ==> p[j] != CR) by {
            assert(forall|j: int| 0 <= j < line.len() ==> line[j] != CR);
        }
        crate::decode::lemma_find_cr_spec(p);
        if crate::decode::spec_find_cr(p) is Some {
            let i = crate::decode::spec_find_cr(p)->0;
            assert(p[i] != CR);
        }
    } else {
        assert(p =~= line + seq![CR]);
        assert(forall|j: int| 0 <= j < line.len() ==> p[j] != CR);
        crate::decode::lemma_find_cr_unique(p, line.len() as int);
    }
}

/// Incompleteness is retry-eligible: a strict prefix of the encoding of any
/// well-formed value fails to decode with one of the three kinds that mean
/// "buffer more bytes and retry", never with a malformed verdict.
#[verifier::rlimit(100)]
pub proof fn lemma_prefix_retry(v: SpecValue, d: nat, k: int)
    requires
        wf_at(v, d),
        0 <= k < spec_encode(v).len(),
    ensures
        spec_decode_value(spec_encode(v).take(k), d) matches Err(e)
            && crate::error::spec_retry_eligible(e),
    decreases v, 0int,
{
    let enc = spec_encode(v);
    let p = enc.take(k);
    if k == 0 {
        assert(p =~= Seq::<u8>::empty());
    } else {
        assert(p[0] == enc[0]);
        let rest_p = p.skip(1);
        match v {
            SpecValue::SimpleString(content) => {
                assert(rest_p =~= (content + crlf()).take(k - 1));
                lemma_split_line_prefix(content, k - 1);
            },
            SpecValue::Error(content) => {
                assert(rest_p =~= (content + crlf()).take(k - 1));
                lemma_split_line_prefix(content, k - 1);
            },
            SpecValue::Integer(i) => {
                let line = int_digits(i);
                lemma_int_digits_no_cr(i);
                assert(rest_p =~= (line + crlf()).take(k - 1));
                lemma_split_line_prefix(line, k - 1);
            },
            SpecValue::BulkString(payload) => {
                let hdr = dec_digits(payload.len());
                lemma_dec_digits_canonical(payload.len());
                lemma_dec_digits_no_cr(payload.len());
                let c1 = hdr.len() as int + 2;
                if k - 1 < c1 {
                    assert(rest_p =~= (hdr + crlf()).take(k - 1));
                    lemma_split_line_prefix(hdr, k - 1);
                } else {
                    let m = k - 1 - c1;
                    let body_p = (payload + crlf()).take(m);
                    assert(rest_p =~= hdr + crlf() + body_p);
                    lemma_split_line_of(hdr, body_p);
                    assert(spec_decode_size(rest_p) == Ok::<(int, int), DecodeError>(
                        (payload.len() as int, c1),
                    ));
                    assert(rest_p.skip(c1) =~= body_p);
                    if m < payload.len() {
                        // TruncatedBody
                    } else {
                        let after = body_p.skip(payload.len() as int);
                        if m == payload.len() {
                            assert(after =~= Seq::<u8>::empty());
                        } else {
                            assert(after =~= seq![CR]);
                        }
                    }
                }
            },
            SpecValue::Array(items) => {
                let hdr = dec_digits(items.len());
                lemma_dec_digits_canonical(items.len());
                lemma_dec_digits_no_cr(items.len());
                let c1 = hdr.len() as int + 2;
                if k - 1 < c1 {
                    assert(rest_p =~= (hdr + crlf()).take(k - 1));
                    lemma_split_line_prefix(hdr, k - 1);
                } else {
                    let m = k - 1 - c1;
                    let body_p = spec_encode_items(items).take(m);
                    assert(rest_p =~= hdr + crlf() + body_p);
                    lemma_split_line_of(hdr, body_p);
                    assert(spec_decode_size(rest_p) == Ok::<(int, int), DecodeError>(
                        (items.len() as int, c1),
                    ));
                    assert(rest_p.skip(c1) =~= body_p);
                    assert(m < spec_encode_items(items).len());
                    lemma_prefix_retry_items(items, (d - 1) as nat, m);
                }
            },
        }
    }
}

/// Incompleteness for a sequence of values laid end to end.
proof fn lemma_prefix_retry_items(items: Seq<SpecValue>, d: nat, k: int)
    requires
        forall|j: int| 0 <= j < items.len() ==> wf_at(#[trigger] items[j], d),
        0 <= k < spec_encode_items(items).len(),
    ensures
        spec_decode_items(spec_encode_items(items).take(k), items.len(), d) matches Err(e)
            && crate::error::spec_retry_eligible(e),
    decreases items, 1int,
{
    let p = spec_encode_items(items).take(k);
    assert(items.len() > 0);
    let first = items[0];
    let others = items.drop_first();
    let e0 = spec_encode(first);
    let erest = spec_encode_items(others);
    if k < e0.len() {
        assert(p =~= e0.take(k));
        lemma_prefix_retry(first, d, k);
    } else {
        let k2 = k - e0.len();
        assert(p =~= e0 + erest.take(k2));
        lemma_encode_decodes(first, erest.take(k2), d);
        assert(spec_decode_value(p, d) == Ok::<(SpecValue, int), DecodeError>(
            (first, e0.len() as int),
        ));
        assert(p.skip(e0.len() as int) =~= erest.take(k2));
        assert(forall|j: int| 0 <= j < others.len() ==> others[j] == #[trigger] items[j + 1]);
        lemma_prefix_retry_items(others, d, k2);
    }
}

/// Round trip: decoding the encoding of any well-formed value yields
/// exactly that value.
pub proof fn lemma_round_trip(v: SpecValue)
    requires
        wf(v),
    ensures
        spec_decode_one(spec_encode(v)) == Ok::<SpecValue, DecodeError>(v),
{
    lemma_encode_decodes(v, Seq::empty(), MAX_DEPTH as nat);
    assert(spec_encode(v) + Seq::<u8>::empty() =~= spec_encode(v));
}

/// Byte-exactness: any whole buffer the decoder accepts is well formed and
/// re-encodes to exactly itself.
pub proof fn lemma_byte_exact(s: Seq<u8>)
    ensures
        spec_decode_one(s) matches Ok(v) ==> wf(v) && spec_encode(v) == s,
{
    lemma_decode_value_exact(s, MAX_DEPTH as nat);
    if spec_decode_one(s) is Ok {
        assert(s.take(s.len() as int) =~= s);
    }
}

} // verus!
