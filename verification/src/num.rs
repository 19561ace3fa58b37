//! Canonical ASCII decimal numerals.
//!
//! Integers and the length/count headers of the wire format are written as
//! decimal digit strings.  The encoder always emits the canonical form (no
//! leading zeros, no `-0`), and the decoder accepts exactly that form, which
//! is what makes decoding the exact inverse of encoding.

use vstd::prelude::*;

verus! {

/// ASCII `'0'`.
pub const DIGIT_ZERO: u8 = 48;

/// ASCII `'9'`.
pub const DIGIT_NINE: u8 = 57;

/// ASCII `'-'`.
pub const MINUS: u8 = 45;

/// True for the bytes `'0'` through `'9'`.
pub open spec fn is_digit(b: u8) -> bool {
    DIGIT_ZERO <= b <= DIGIT_NINE
}

/// Every byte of `s` is a decimal digit.
pub open spec fn all_digits(s: Seq<u8>) -> bool {
    forall|i: int| 0 <= i < s.len() ==> is_digit(#[trigger] s[i])
}

/// The number denoted by a digit string, most significant digit first.
pub open spec fn digits_value(s: Seq<u8>) -> int
    decreases s.len(),
{
    if s.len() == 0 {
        0
    } else {
        digits_value(s.drop_last()) * 10 + (s.last() - DIGIT_ZERO)
    }
}

/// The canonical decimal rendering of a natural number: nonempty, and no
/// leading zero unless the number is zero itself.
pub open spec fn dec_digits(n: nat) -> Seq<u8>
    decreases n,
{
    if n < 10 {
        seq![(DIGIT_ZERO + n) as u8]
    } else {
        dec_digits(n / 10) + seq![(DIGIT_ZERO + n % 10) as u8]
    }
}

/// The canonical rendering of a signed number: a `-` sign for negative
/// numbers, followed by the canonical digits of the magnitude.
pub open spec fn int_digits(i: int) -> Seq<u8> {
    if i < 0 {
        seq![MINUS] + dec_digits((-i) as nat)
    } else {
        dec_digits(i as nat)
    }
}

/// A digit string in canonical form: nonempty, digits only, and no leading
/// zero (so `"0"` is canonical but `"00"` and `"007"` are not).
pub open spec fn canonical_digits(s: Seq<u8>) -> bool {
    &&& s.len() >= 1
    &&& all_digits(s)
    &&& (s.len() >= 2 ==> s[0] != DIGIT_ZERO)
}

/// Powers of ten.
pub open spec fn pow10(k: nat) -> nat
    decreases k,
{
    if k == 0 {
        1
    } else {
        10 * pow10((k - 1) as nat)
    }
}

pub proof fn lemma_pow10_pos(k: nat)
    ensures
        pow10(k) >= 1,
    decreases k,
{
    if k > 0 {
        lemma_pow10_pos((k - 1) as nat);
    }
}

pub proof fn lemma_digits_value_nonneg(s: Seq<u8>)
    requires
        all_digits(s),
    ensures
        digits_value(s) >= 0,
    decreases s.len(),
{
    if s.len() > 0 {
        assert(all_digits(s.drop_last()));
        lemma_digits_value_nonneg(s.drop_last());
    }
}

/// The canonical rendering consists of digits, has no leading zero, and
/// denotes the number it was built from.
pub proof fn lemma_dec_digits_canonical(n: nat)
    ensures
        canonical_digits(dec_digits(n)),
        digits_value(dec_digits(n)) == n,
        dec_digits(n)[0] == DIGIT_ZERO <==> n == 0,
    decreases n,
{
    if n < 10 {
        let s = dec_digits(n);
        assert(s =~= seq![(DIGIT_ZERO + n) as u8]);
        assert(s.drop_last() =~= Seq::<u8>::empty());
        assert(digits_value(s) == n) by {
            reveal_with_fuel(digits_value, 2);
        }
    } else {
        lemma_dec_digits_canonical(n / 10);
        let p = dec_digits(n / 10);
        let d = (DIGIT_ZERO + n % 10) as u8;
        let s = dec_digits(n);
        assert(s == p + seq![d]);
        assert(s.drop_last() =~= p);
        assert(s.last() == d);
        assert(digits_value(s) == digits_value(p) * 10 + n % 10);
        assert((n / 10) * 10 + n % 10 == n);
        assert(forall|i: int| 0 <= i < s.len() ==> is_digit(#[trigger] s[i])) by {
            assert(forall|i: int| 0 <= i < p.len() ==> s[i] == #[trigger] p[i]);
            assert(s[s.len() - 1] == d);
            assert(is_digit(d));
        }
        assert(s[0] == p[0]);
        assert(n / 10 != 0);
    }
}

/// A digit string with a nonzero leading digit denotes a positive number.
pub proof fn lemma_leading_nonzero_value_pos(s: Seq<u8>)
    requires
        all_digits(s),
        s.len() >= 1,
        s[0] != DIGIT_ZERO,
    ensures
        digits_value(s) >= 1,
    decreases s.len(),
{
    if s.len() == 1 {
        assert(s.drop_last() =~= Seq::<u8>::empty());
    } else {
        assert(all_digits(s.drop_last()));
        assert(s.drop_last()[0] == s[0]);
        lemma_leading_nonzero_value_pos(s.drop_last());
    }
}

/// A canonical digit string is the canonical rendering of its own value:
/// the rendering is injective on canonical strings.
pub proof fn lemma_canonical_digits_roundtrip(s: Seq<u8>)
    requires
        canonical_digits(s),
    ensures
        digits_value(s) >= 0,
        dec_digits(digits_value(s) as nat) == s,
    decreases s.len(),
{
    lemma_digits_value_nonneg(s);
    let v = digits_value(s) as nat;
    if s.len() == 1 {
        assert(s.drop_last() =~= Seq::<u8>::empty());
        assert(v == s[0] - DIGIT_ZERO) by {
            reveal_with_fuel(digits_value, 2);
        }
        assert(v < 10);
        assert(dec_digits(v) =~= s);
    } else {
        let p = s.drop_last();
        assert(all_digits(p));
        assert(p[0] == s[0]);
        assert(canonical_digits(p));
        lemma_canonical_digits_roundtrip(p);
        lemma_leading_nonzero_value_pos(p);
        lemma_digits_value_nonneg(p);
        let pv = digits_value(p);
        let d = s.last() - DIGIT_ZERO;
        assert(0 <= d < 10);
        assert(v == pv * 10 + d);
        assert(v >= 10) by {
            assert(pv >= 1);
            assert(pv * 10 >= 10) by (nonlinear_arith)
                requires
                    pv >= 1,
            ;
        }
        assert(v / 10 == pv && v % 10 == d) by (nonlinear_arith)
            requires
                v == pv * 10 + d,
                0 <= d < 10,
                pv >= 0,
        ;
        assert(dec_digits(v) == dec_digits(pv as nat) + seq![(DIGIT_ZERO + v % 10) as u8]);
        assert((DIGIT_ZERO + v % 10) as u8 == s.last());
        assert(dec_digits(v) =~= p + seq![s.last()]);
        assert(p + seq![s.last()] =~= s);
    }
}

/// Splitting a digit string: the value of a concatenation.
pub proof fn lemma_digits_value_append(a: Seq<u8>, b: Seq<u8>)
    ensures
        digits_value(a + b) == digits_value(a) * pow10(b.len()) + digits_value(b),
    decreases b.len(),
{
    if b.len() == 0 {
        assert(a + b =~= a);
        assert(pow10(0) == 1);
    } else {
        let bp = b.drop_last();
        lemma_digits_value_append(a, bp);
        assert((a + b).drop_last() =~= a + bp);
        assert((a + b).last() == b.last());
        let x = digits_value(a);
        let k = bp.len() as nat;
        assert(digits_value(a + b) == (x * pow10(k) + digits_value(bp)) * 10 + (b.last() - DIGIT_ZERO));
        assert((x * pow10(k) + digits_value(bp)) * 10 == x * pow10(k) * 10 + digits_value(bp) * 10);
        assert(x * pow10(k) * 10 == x * (pow10(k) * 10)) by (nonlinear_arith);
        assert(pow10(k) * 10 == pow10((k + 1) as nat));
        assert(b.len() == k + 1);
    }
}

/// Extending a digit string cannot shrink its value.
pub proof fn lemma_digits_value_extend_ge(s: Seq<u8>, i: int)
    requires
        all_digits(s),
        0 <= i <= s.len(),
    ensures
        digits_value(s) >= digits_value(s.take(i)),
{
    let a = s.take(i);
    let b = s.skip(i);
    assert(a + b =~= s);
    lemma_digits_value_append(a, b);
    assert(all_digits(a));
    assert(all_digits(b));
    lemma_digits_value_nonneg(a);
    lemma_digits_value_nonneg(b);
    lemma_pow10_pos(b.len() as nat);
    let x = digits_value(a);
    let p = pow10(b.len() as nat);
    assert(x * p >= x) by (nonlinear_arith)
        requires
            x >= 0,
            p >= 1,
    ;
}

/// Parses a canonical decimal digit string into a 64-bit value.  Returns
/// `None` when the string is not canonical or its value does not fit.
pub fn parse_canonical_u64(s: &[u8]) -> (r: Option<u64>)
    ensures
        match r {
            Some(v) => canonical_digits(s@) && digits_value(s@) == v as int,
            None => !(canonical_digits(s@) && digits_value(s@) <= u64::MAX),
        },
{
    let n = s.len();
    if n == 0 {
        return None;
    }
    if n >= 2 && *vstd::slice::slice_index_get(s, 0) == DIGIT_ZERO {
        return None;
    }
    let mut acc: u64 = 0;
    let mut i: usize = 0;
    while i < n
        invariant
            n == s@.len(),
            0 <= i <= n,
            all_digits(s@.take(i as int)),
            acc as int == digits_value(s@.take(i as int)),
        decreases n - i,
    {
        let b = *vstd::slice::slice_index_get(s, i);
        if b < DIGIT_ZERO || b > DIGIT_NINE {
            return None;
        }
        let step_ok: Option<u64> = match acc.checked_mul(10) {
            Some(t) => t.checked_add((b - DIGIT_ZERO) as u64),
            None => None,
        };
        proof {
            assert(s@.take(i + 1).drop_last() =~= s@.take(i as int));
            assert(s@.take(i + 1).last() == s@[i as int]);
            assert(all_digits(s@.take(i + 1)));
            assert(digits_value(s@.take(i + 1)) == acc * 10 + (b - DIGIT_ZERO));
        }
        match step_ok {
            Some(t) => {
                acc = t;
            },
            None => {
                proof {
                    if all_digits(s@) {
                        lemma_digits_value_extend_ge(s@, i + 1);
                        assert(digits_value(s@) > u64::MAX);
                    } else {
                        assert(!canonical_digits(s@));
                    }
                }
                return None;
            },
        }
        i = i + 1;
    }
    proof {
        assert(s@.take(n as int) =~= s@);
    }
    Some(acc)
}

/// Appends the canonical decimal digits of `n` to `out`.
pub fn push_dec_digits(n: u64, out: &mut Vec<u8>)
    ensures
        final(out)@ == old(out)@ + dec_digits(n as nat),
    decreases n,
{
    let ghost prefix = out@;
    if n >= 10 {
        push_dec_digits(n / 10, out);
    }
    let d = DIGIT_ZERO + (n % 10) as u8;
    out.push(d);
    proof {
        if n < 10 {
            assert(out@ =~= prefix + dec_digits(n as nat));
        } else {
            assert(out@ =~= prefix + (dec_digits((n / 10) as nat) + seq![d]));
            assert(dec_digits(n as nat) == dec_digits((n as nat) / 10) + seq![
                (DIGIT_ZERO + (n as nat) % 10) as u8,
            ]);
            assert((n / 10) as nat == (n as nat) / 10);
            assert((n % 10) as nat == (n as nat) % 10);
        }
    }
}

/// Appends the canonical decimal rendering of a signed number to `out`.
pub fn push_int_digits(i: i64, out: &mut Vec<u8>)
    ensures
        final(out)@ == old(out)@ + int_digits(i as int),
{
    let ghost prefix = out@;
    if i < 0 {
        out.push(MINUS);
        let mag: u64 = ((-(i + 1)) as u64) + 1;
        proof {
            assert(mag as int == -(i as int));
        }
        push_dec_digits(mag, out);
        proof {
            assert(out@ =~= prefix + (seq![MINUS] + dec_digits(mag as nat)));
        }
    } else {
        push_dec_digits(i as u64, out);
    }
}

} // verus!
