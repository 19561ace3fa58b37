//! The protocol value model.
//!
//! `Value` is the executable tree of protocol values; `SpecValue` is its
//! mathematical shadow, with byte sequences and unbounded integers, over
//! which all contracts are stated.

use vstd::prelude::*;

verus! {

/// ASCII carriage return, the first byte of every line terminator.
pub const CR: u8 = 13;

/// ASCII line feed, the second byte of every line terminator.
pub const LF: u8 = 10;

/// Wire tag of a simple string: `'+'`.
pub const TAG_SIMPLE: u8 = 43;

/// Wire tag of an error value: `'-'`.
pub const TAG_ERROR: u8 = 45;

/// Wire tag of an integer: `':'`.
pub const TAG_INTEGER: u8 = 58;

/// Wire tag of a bulk string: `'$'`.
pub const TAG_BULK: u8 = 36;

/// Wire tag of an array: `'*'`.
pub const TAG_ARRAY: u8 = 42;

/// Cap on a bulk-string length or array count header (512 MiB).  A header
/// above the cap is rejected as `InvalidLength`, so adversarial input cannot
/// demand an unbounded allocation.
pub const MAX_LENGTH: usize = 0x2000_0000;

/// Cap on array nesting depth.  Input nested deeper is rejected as
/// `RecursionLimitExceeded`, so adversarial input cannot exhaust the call
/// stack of the recursive decoder.
pub const MAX_DEPTH: u32 = 64;

/// The two-byte line terminator, CR LF.
pub open spec fn crlf() -> Seq<u8> {
    seq![CR, LF]
}

/// A protocol value.  Payloads of the stringish variants are opaque byte
/// sequences, not text.
#[derive(Debug, PartialEq, Eq)]
pub enum Value {
    /// Short CR-LF-terminated text; must not itself contain CR.
    SimpleString(Vec<u8>),
    /// Same framing as `SimpleString`; semantically an error message.
    Error(Vec<u8>),
    /// A signed 64-bit integer.
    Integer(i64),
    /// A binary-safe payload of declared length.
    BulkString(Vec<u8>),
    /// An ordered sequence of child values.
    Array(Vec<Value>),
}

/// The mathematical model of a `Value`.
pub enum SpecValue {
    SimpleString(Seq<u8>),
    Error(Seq<u8>),
    Integer(int),
    BulkString(Seq<u8>),
    Array(Seq<SpecValue>),
}

/// The model of a `Value`: payloads become `Seq<u8>`, children are modelled
/// recursively.
pub open spec fn view_value(v: Value) -> SpecValue
    decreases v, 0int,
{
    match v {
        Value::SimpleString(s) => SpecValue::SimpleString(s@),
        Value::Error(s) => SpecValue::Error(s@),
        Value::Integer(i) => SpecValue::Integer(i as int),
        Value::BulkString(s) => SpecValue::BulkString(s@),
        Value::Array(items) => SpecValue::Array(view_items(items@)),
    }
}

/// The models of a sequence of values, in order.
pub open spec fn view_items(items: Seq<Value>) -> Seq<SpecValue>
    decreases items, 0int,
{
    if items.len() == 0 {
        Seq::empty()
    } else {
        seq![view_value(items[0])] + view_items(items.drop_first())
    }
}

impl View for Value {
    type V = SpecValue;

    open spec fn view(&self) -> SpecValue {
        view_value(*self)
    }
}

/// `view_items(items)` holds exactly the models of the items, pointwise.
pub proof fn lemma_view_items(items: Seq<Value>)
    ensures
        view_items(items).len() == items.len(),
        forall|j: int|
            0 <= j < items.len() ==> #[trigger] view_items(items)[j] == view_value(items[j]),
    decreases items.len(),
{
    if items.len() > 0 {
        lemma_view_items(items.drop_first());
        assert(forall|j: int|
            1 <= j < items.len() ==> items.drop_first()[j - 1] == #[trigger] items[j]);
    }
}

/// Appending one value appends its model.
pub proof fn lemma_view_items_snoc(items: Seq<Value>, x: Value)
    ensures
        view_items(items.push(x)) == view_items(items) + seq![view_value(x)],
{
    lemma_view_items(items);
    lemma_view_items(items.push(x));
    assert(view_items(items.push(x)) =~= view_items(items) + seq![view_value(x)]);
}

/// Well-formedness of a value whose arrays may nest at most `depth` deep:
/// simple strings and error messages hold no CR, bulk payloads and array
/// counts stay within `MAX_LENGTH`, and integers fit 64 signed bits.
/// Exactly these values round-trip through the codec.
pub open spec fn wf_at(v: SpecValue, depth: nat) -> bool
    decreases v,
{
    match v {
        SpecValue::SimpleString(s) => !s.contains(CR),
        SpecValue::Error(s) => !s.contains(CR),
        SpecValue::Integer(i) => i64::MIN <= i <= i64::MAX,
        SpecValue::BulkString(s) => s.len() <= MAX_LENGTH,
        SpecValue::Array(items) => {
            &&& depth >= 1
            &&& items.len() <= MAX_LENGTH
            &&& forall|j: int|
                0 <= j < items.len() ==> wf_at(#[trigger] items[j], (depth - 1) as nat)
        },
    }
}

/// Well-formedness at the decoder's nesting cap.
pub open spec fn wf(v: SpecValue) -> bool {
    wf_at(v, MAX_DEPTH as nat)
}

/// Well-formedness is monotone in the depth budget.
pub proof fn lemma_wf_at_widen(v: SpecValue, d1: nat, d2: nat)
    requires
        wf_at(v, d1),
        d1 <= d2,
    ensures
        wf_at(v, d2),
    decreases v,
{
    match v {
        SpecValue::Array(items) => {
            assert forall|j: int| 0 <= j < items.len() implies wf_at(
                #[trigger] items[j],
                (d2 - 1) as nat,
            ) by {
                lemma_wf_at_widen(items[j], (d1 - 1) as nat, (d2 - 1) as nat);
            }
        },
        _ => {},
    }
}

} // verus!
