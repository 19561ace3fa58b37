//! The encoder.
//!
//! `spec_encode` gives the exact wire bytes of every value; `encode` is the
//! total executable encoder, proved to produce exactly those bytes for every
//! variant.

use vstd::prelude::*;

use crate::num::{dec_digits, int_digits, push_dec_digits, push_int_digits};
use crate::value::{crlf, lemma_view_items, view_items, view_value, SpecValue, Value, CR, LF,
    TAG_ARRAY, TAG_BULK, TAG_ERROR, TAG_INTEGER, TAG_SIMPLE};

verus! {

/// The wire bytes of a value: its tag byte, its canonical textual form, and
/// CR LF framing; bulk strings carry their payload verbatim after a length
/// header, arrays their children in order after a count header.
pub open spec fn spec_encode(v: SpecValue) -> Seq<u8>
    decreases v, 0int,
{
    match v {
        SpecValue::SimpleString(s) => seq![TAG_SIMPLE] + s + crlf(),
        SpecValue::Error(s) => seq![TAG_ERROR] + s + crlf(),
        SpecValue::Integer(i) => seq![TAG_INTEGER] + int_digits(i) + crlf(),
        SpecValue::BulkString(s) => seq![TAG_BULK] + dec_digits(s.len()) + crlf() + s + crlf(),
        SpecValue::Array(items) => seq![TAG_ARRAY] + dec_digits(items.len()) + crlf()
            + spec_encode_items(items),
    }
}

/// The concatenated wire bytes of a sequence of values.
pub open spec fn spec_encode_items(items: Seq<SpecValue>) -> Seq<u8>
    decreases items, 0int,
{
    if items.len() == 0 {
        Seq::empty()
    } else {
        spec_encode(items[0]) + spec_encode_items(items.drop_first())
    }
}

/// One unfolding step of `spec_encode_items` at an interior index.
pub proof fn lemma_encode_items_step(items: Seq<SpecValue>, i: int)
    requires
        0 <= i < items.len(),
    ensures
        spec_encode_items(items.skip(i)) == spec_encode(items[i]) + spec_encode_items(
            items.skip(i + 1),
        ),
{
    let t = items.skip(i);
    assert(t[0] == items[i]);
    assert(t.drop_first() =~= items.skip(i + 1));
}

/// Appends a byte slice to `out`.
fn push_bytes(out: &mut Vec<u8>, s: &[u8])
    ensures
        final(out)@ == old(out)@ + s@,
{
    let ghost orig = out@;
    let mut i: usize = 0;
    while i < s.len()
        invariant
            0 <= i <= s@.len(),
            out@ == orig + s@.take(i as int),
        decreases s@.len() - i,
    {
        out.push(*vstd::slice::slice_index_get(s, i));
        proof {
            assert(orig + s@.take(i + 1) =~= (orig + s@.take(i as int)).push(s@[i as int]));
        }
        i = i + 1;
    }
    proof {
        assert(s@.take(s@.len() as int) =~= s@);
    }
}

/// Appends the CR LF terminator to `out`.
fn push_crlf(out: &mut Vec<u8>)
    ensures
        final(out)@ == old(out)@ + crlf(),
{
    out.push(CR);
    out.push(LF);
    proof {
        assert(final(out)@ =~= old(out)@ + crlf());
    }
}

/// Appends the wire bytes of `v` to `out`.  Total: every variant encodes.
#[verifier::loop_isolation(false)]
fn encode_into(v: &Value, out: &mut Vec<u8>)
    ensures
        final(out)@ == old(out)@ + spec_encode(v@),
    decreases v,
{
    let ghost orig = out@;
    match v {
        Value::SimpleString(s) => {
            out.push(TAG_SIMPLE);
            push_bytes(out, s.as_slice());
            push_crlf(out);
            proof {
                assert(out@ =~= orig + spec_encode(v@));
            }
        },
        Value::Error(s) => {
            out.push(TAG_ERROR);
            push_bytes(out, s.as_slice());
            push_crlf(out);
            proof {
                assert(out@ =~= orig + spec_encode(v@));
            }
        },
        Value::Integer(i) => {
            out.push(TAG_INTEGER);
            push_int_digits(*i, out);
            push_crlf(out);
            proof {
                assert(out@ =~= orig + spec_encode(v@));
            }
        },
        Value::BulkString(s) => {
            out.push(TAG_BULK);
            push_dec_digits(s.len() as u64, out);
            push_crlf(out);
            push_bytes(out, s.as_slice());
            push_crlf(out);
            proof {
                assert((s.len() as u64) as nat == s@.len());
                assert(out@ =~= orig + spec_encode(v@));
            }
        },
        Value::Array(items) => {
            let ghost vs = view_items(items@);
            proof {
                lemma_view_items(items@);
                assert(v@ == SpecValue::Array(vs));
            }
            out.push(TAG_ARRAY);
            push_dec_digits(items.len() as u64, out);
            push_crlf(out);
            proof {
                assert((items.len() as u64) as nat == vs.len());
                assert(vs.skip(0) =~= vs);
                assert(out@ + spec_encode_items(vs) =~= orig + (seq![TAG_ARRAY] + dec_digits(
                    vs.len(),
                ) + crlf() + spec_encode_items(vs)));
            }
            let elems = items.as_slice();
            let n = elems.len();
            let mut i: usize = 0;
            while i < n
                invariant
                    0 <= i <= n,
                    n == vs.len(),
                    elems@ == items@,
                    vs == view_items(items@),
                    out@ + spec_encode_items(vs.skip(i as int)) == orig + spec_encode(
                        SpecValue::Array(vs),
                    ),
                decreases n - i,
            {
                let item = vstd::slice::slice_index_get(elems, i);
                proof {
                    lemma_view_items(items@);
                    assert(view_value(items@[i as int]) == vs[i as int]);
                    assert(decreases_to!(*items => items@[i as int]));
                }
                let ghost before = out@;
                encode_into(item, out);
                proof {
                    lemma_encode_items_step(vs, i as int);
                    assert(out@ + spec_encode_items(vs.skip(i + 1)) =~= before + (spec_encode(
                        vs[i as int],
                    ) + spec_encode_items(vs.skip(i + 1))));
                }
                i = i + 1;
            }
            proof {
                assert(vs.skip(n as int) =~= Seq::<SpecValue>::empty());
                assert(out@ + spec_encode_items(vs.skip(n as int)) =~= out@);
                assert(out@ =~= orig + spec_encode(v@));
            }
        },
    }
}

/// Encodes a value into its exact wire bytes.  Total over every variant.
pub fn encode(value: &Value) -> (r: Vec<u8>)
    ensures
        r@ == spec_encode(value@),
{
    let mut out: Vec<u8> = Vec::new();
    encode_into(value, &mut out);
    proof {
        assert(out@ =~= spec_encode(value@));
    }
    out
}

/// Encodes a simple-string payload: `'+'`, the payload, CR LF.
pub fn encode_simple_string(bytes: &Vec<u8>) -> (r: Vec<u8>)
    ensures
        r@ == spec_encode(SpecValue::SimpleString(bytes@)),
{
    let mut out: Vec<u8> = Vec::new();
    out.push(TAG_SIMPLE);
    push_bytes(&mut out, bytes.as_slice());
    push_crlf(&mut out);
    proof {
        assert(out@ =~= spec_encode(SpecValue::SimpleString(bytes@)));
    }
    out
}

} // verus!
