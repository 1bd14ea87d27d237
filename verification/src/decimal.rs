//! Fixed-point decimals and the text form in which the venues send them.

use vstd::prelude::*;
use vstd::string::*;
use vstd::utf8::encode_utf8;

verus! {

/// Digits kept after the decimal point.
pub const FRACTION_DIGITS: usize = 8;

/// Most digits accepted before the decimal point.
pub const WHOLE_DIGITS: usize = 11;

/// A non-negative decimal number, held as a count of units of 10^-8.
#[derive(Clone, Copy, Debug, PartialEq, Eq, Structural)]
pub struct Decimal {
    pub units: u64,
}

/// `c` is one of the ASCII digits.
pub open spec fn is_digit(c: u8) -> bool {
    48 <= c <= 57
}

/// Every byte of `s` is an ASCII digit.
pub open spec fn all_digits(s: Seq<u8>) -> bool {
    forall|i: int| 0 <= i < s.len() ==> is_digit(#[trigger] s[i])
}

/// The number that a string of decimal digits writes.
pub open spec fn digits_value(s: Seq<u8>) -> nat
    decreases s.len(),
{
    if s.len() == 0 {
        0
    } else {
        digits_value(s.drop_last()) * 10 + (s.last() - 48) as nat
    }
}

/// `s` is a decimal numeral whose whole part has `p` digits: one to eleven
/// digits, then either nothing or a point followed by one to eight digits.
pub open spec fn splits_at(s: Seq<u8>, p: int) -> bool {
    &&& 1 <= p <= WHOLE_DIGITS
    &&& p <= s.len()
    &&& all_digits(s.subrange(0, p))
    &&& (p == s.len() || {
        &&& s[p] == 46
        &&& 1 <= s.len() - p - 1 <= FRACTION_DIGITS
        &&& all_digits(s.subrange(p + 1, s.len() as int))
    })
}

/// The digits behind the point of the numeral `s`, whose whole part has `p`
/// digits.
pub open spec fn fraction(s: Seq<u8>, p: int) -> Seq<u8> {
    if p < s.len() {
        s.subrange(p + 1, s.len() as int)
    } else {
        Seq::empty()
    }
}

/// The digits of the numeral `s` with the point removed and the fraction
/// padded with zeros to eight places.
pub open spec fn normalized(s: Seq<u8>, p: int) -> Seq<u8> {
    s.subrange(0, p) + fraction(s, p) + Seq::new(
        (FRACTION_DIGITS - fraction(s, p).len()) as nat,
        |i: int| 48u8,
    )
}

/// The value of the bytes `s` in units of 10^-8, where `s` is a decimal numeral
/// in ASCII.
pub open spec fn decimal_units(s: Seq<u8>) -> Option<nat> {
    if exists|p: int| splits_at(s, p) {
        Some(digits_value(normalized(s, choose|p: int| splits_at(s, p))))
    } else {
        None
    }
}

/// The decimal that the text `s` writes, where its bytes are a numeral.
pub open spec fn decimal_of(s: Seq<char>) -> Option<Decimal> {
    match decimal_units(encode_utf8(s)) {
        Some(v) => Some(Decimal { units: v as u64 }),
        None => None,
    }
}

/// Ten to the power `n`.
pub open spec fn pow10(n: nat) -> nat
    decreases n,
{
    if n == 0 {
        1
    } else {
        10 * pow10((n - 1) as nat)
    }
}

proof fn lemma_pow10_monotone(a: nat, b: nat)
    requires
        a <= b,
    ensures
        pow10(a) <= pow10(b),
    decreases b,
{
    if a < b {
        lemma_pow10_monotone(a, (b - 1) as nat);
    }
}

/// A string of `n` digits writes a number below 10^n.
pub proof fn lemma_digits_value_bound(s: Seq<u8>)
    requires
        all_digits(s),
    ensures
        digits_value(s) < pow10(s.len()),
    decreases s.len(),
{
    if s.len() > 0 {
        assert forall|i: int| 0 <= i < s.drop_last().len() implies is_digit(
            #[trigger] s.drop_last()[i],
        ) by {
            assert(s.drop_last()[i] == s[i]);
        }
        lemma_digits_value_bound(s.drop_last());
        assert(is_digit(s[s.len() - 1]));
    }
}

/// The whole part of a numeral ends where its leading digits end.
proof fn lemma_split_unique(s: Seq<u8>, p: int)
    requires
        0 <= p <= s.len(),
        all_digits(s.subrange(0, p)),
        p == s.len() || !is_digit(s[p]),
    ensures
        forall|q: int| splits_at(s, q) ==> q == p,
{
    assert forall|q: int| splits_at(s, q) implies q == p by {
        if q < p {
            assert(s.subrange(0, p)[q] == s[q]);
        } else if q > p {
            assert(s.subrange(0, q)[p] == s[p]);
        }
    }
}

fn is_digit_byte(b: u8) -> (r: bool)
    ensures
        r == (48 <= b <= 57),
{
    48 <= b && b <= 57
}

/// Appends one digit to a number of fewer than nineteen digits.
fn push_digit(acc: u64, b: u8, Ghost(prefix): Ghost<Seq<u8>>) -> (r: u64)
    requires
        acc == digits_value(prefix),
        all_digits(prefix.push(b)),
        prefix.len() < 19,
    ensures
        r == digits_value(prefix.push(b)),
{
    proof {
        let t = prefix.push(b);
        assert(t.drop_last() =~= prefix);
        assert(is_digit(t[t.len() - 1]));
        lemma_digits_value_bound(t);
        lemma_pow10_monotone(t.len(), 19);
        lemma_pow10_nineteen();
    }
    acc * 10 + (b - 48) as u64
}

/// Reads a decimal numeral: one to eleven digits, optionally followed by a
/// point and one to eight digits. Any other text is refused.
pub fn parse_decimal(text: &str) -> (r: Option<Decimal>)
    ensures
        r == decimal_of(text@),
        r is Some ==> decimal_units(encode_utf8(text@)) == Some(r->0.units as nat),
{
    let b = text.as_bytes();
    let n = b.len();
    let ghost s = b@;
    let mut p: usize = 0;
    while p < n && is_digit_byte(b[p])
        invariant
            p <= n,
            n == s.len(),
            s == b@,
            all_digits(s.subrange(0, p as int)),
        decreases n - p,
    {
        proof {
            assert forall|i: int| 0 <= i < p + 1 implies is_digit(
                #[trigger] s.subrange(0, p + 1)[i],
            ) by {
                if i < p {
                    assert(s.subrange(0, p as int)[i] == s[i]);
                }
            }
        }
        p += 1;
    }
    proof {
        lemma_split_unique(s, p as int);
    }
    if p == 0 || p > WHOLE_DIGITS {
        return None;
    }
    let frac_len: usize = if p == n {
        0
    } else {
        n - p - 1
    };
    if p < n {
        if b[p] != 46 || frac_len == 0 || frac_len > FRACTION_DIGITS {
            return None;
        }
        let mut j: usize = p + 1;
        while j < n
            invariant
                p + 1 <= j <= n,
                n == s.len(),
                s == b@,
                forall|i: int| p < i < j ==> is_digit(#[trigger] s[i]),
                forall|q: int| splits_at(s, q) ==> q == p,
                s == text.spec_bytes(),
            decreases n - j,
        {
            if !is_digit_byte(b[j]) {
                proof {
                    assert(!is_digit(s[j as int]));
                    assert(s.subrange(p + 1, n as int)[j - p - 1] == s[j as int]);
                    assert(!splits_at(s, p as int));
                }
                return None;
            }
            j += 1;
        }
    }
    let ghost norm = normalized(s, p as int);
    proof {
        assert(splits_at(s, p as int));
        lemma_normalized_digits(s, p as int);
    }
    let mut acc: u64 = 0;
    let mut k: usize = 0;
    while k < p + FRACTION_DIGITS
        invariant
            k <= p + FRACTION_DIGITS,
            1 <= p <= WHOLE_DIGITS,
            p + frac_len <= n,
            p < n ==> frac_len == n - p - 1,
            p == n ==> frac_len == 0,
            frac_len <= FRACTION_DIGITS,
            n == s.len(),
            s == b@,
            norm == normalized(s, p as int),
            norm.len() == p + FRACTION_DIGITS,
            all_digits(norm),
            acc == digits_value(norm.subrange(0, k as int)),
        decreases p + FRACTION_DIGITS - k,
    {
        let byte: u8 = if k < p {
            b[k]
        } else if k < p + frac_len {
            b[k + 1]
        } else {
            48
        };
        proof {
            let pre = norm.subrange(0, k as int);
            assert(pre.push(norm[k as int]) =~= norm.subrange(0, k + 1));
            assert(all_digits(norm.subrange(0, k + 1)));
            if k < p {
                assert(norm[k as int] == s.subrange(0, p as int)[k as int]);
            } else if k < p + frac_len {
                assert(norm[k as int] == s.subrange(p + 1, n as int)[k - p]);
            } else {
                assert(norm[k as int] == 48);
            }
        }
        acc = push_digit(acc, byte, Ghost(norm.subrange(0, k as int)));
        k += 1;
    }
    proof {
        assert(norm.subrange(0, k as int) =~= norm);
    }
    Some(Decimal { units: acc })
}

proof fn lemma_pow10_sum(a: nat, b: nat)
    ensures
        pow10(a + b) == pow10(a) * pow10(b),
    decreases b,
{
    if b > 0 {
        lemma_pow10_sum(a, (b - 1) as nat);
        assert(10 * (pow10(a) * pow10((b - 1) as nat)) == pow10(a) * (10 * pow10((b - 1) as nat)))
            by (nonlinear_arith);
    } else {
        assert(pow10(a) * 1 == pow10(a)) by (nonlinear_arith);
    }
}

/// Digits written behind other digits shift those by their number of
/// places.
proof fn lemma_digits_value_concat(x: Seq<u8>, y: Seq<u8>)
    ensures
        digits_value(x + y) == digits_value(x) * pow10(y.len()) + digits_value(y),
    decreases y.len(),
{
    if y.len() == 0 {
        assert(x + y =~= x);
        assert(digits_value(x) * 1 == digits_value(x)) by (nonlinear_arith);
    } else {
        let init = y.drop_last();
        assert((x + y).drop_last() =~= x + init);
        assert((x + y).last() == y.last());
        lemma_digits_value_concat(x, init);
        let vx = digits_value(x);
        let scale = pow10(init.len());
        assert((vx * scale + digits_value(init)) * 10 == vx * (10 * scale) + digits_value(init) * 10)
            by (nonlinear_arith);
    }
}

proof fn lemma_zeros_value(n: nat)
    ensures
        digits_value(Seq::new(n, |i: int| 48u8)) == 0,
    decreases n,
{
    if n > 0 {
        assert(Seq::new(n, |i: int| 48u8).drop_last() =~= Seq::new((n - 1) as nat, |i: int| 48u8));
        lemma_zeros_value((n - 1) as nat);
    }
}

/// Ten to the nineteenth, the bound of every decimal, written out.
proof fn lemma_pow10_nineteen()
    ensures
        pow10(19) == 10000000000000000000,
{
    reveal_with_fuel(pow10, 20);
}

/// The digits of a numeral, normalized, are all digits.
proof fn lemma_normalized_digits(s: Seq<u8>, p: int)
    requires
        splits_at(s, p),
    ensures
        all_digits(normalized(s, p)),
        normalized(s, p).len() == p + FRACTION_DIGITS,
{
    let whole = s.subrange(0, p);
    let frac = fraction(s, p);
    let norm = normalized(s, p);
    assert forall|i: int| 0 <= i < norm.len() implies is_digit(#[trigger] norm[i]) by {
        if i < p {
            assert(norm[i] == whole[i]);
        } else if i < p + frac.len() {
            assert(norm[i] == frac[i - p]);
        }
    }
}

/// What the normalized digits of a numeral write, by its two parts.
#[verifier::rlimit(40)]
proof fn lemma_normalized_value(s: Seq<u8>, p: int)
    requires
        splits_at(s, p),
    ensures
        digits_value(normalized(s, p)) == digits_value(s.subrange(0, p)) * pow10(8) + digits_value(
            fraction(s, p),
        ) * pow10((FRACTION_DIGITS - fraction(s, p).len()) as nat),
{
    let whole = s.subrange(0, p);
    let frac = fraction(s, p);
    let pad = (FRACTION_DIGITS - frac.len()) as nat;
    let zeros = Seq::new(pad, |i: int| 48u8);
    assert(normalized(s, p) =~= (whole + frac) + zeros);
    lemma_digits_value_concat(whole + frac, zeros);
    lemma_digits_value_concat(whole, frac);
    lemma_zeros_value(pad);
    lemma_pow10_sum(frac.len(), pad);
    let vw = digits_value(whole);
    let vf = digits_value(frac);
    let sf = pow10(frac.len());
    let sp = pow10(pad);
    assert((vw * sf + vf) * sp == vw * (sf * sp) + vf * sp) by (nonlinear_arith);
}

/// The value of a numeral is its whole part in units of 10^-8 plus its
/// fraction brought to eight places, and is below 10^19.
pub proof fn lemma_decimal_units_formula(s: Seq<u8>, p: int)
    requires
        splits_at(s, p),
    ensures
        decimal_units(s) == Some(
            digits_value(s.subrange(0, p)) * pow10(8) + digits_value(fraction(s, p)) * pow10(
                (FRACTION_DIGITS - fraction(s, p).len()) as nat,
            ),
        ),
        decimal_units(s)->0 < pow10(19),
        pow10(19) == 10000000000000000000,
{
    lemma_split_unique(s, p);
    lemma_normalized_value(s, p);
    lemma_normalized_digits(s, p);
    lemma_digits_value_bound(normalized(s, p));
    lemma_pow10_monotone(normalized(s, p).len(), 19);
    lemma_pow10_nineteen();
}

} // verus!
