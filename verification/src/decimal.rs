//! Decimal digit strings: what they mean, and reading them.
use vstd::prelude::*;
use crate::radix::pow_nat;
use std::num::ParseIntError;
use vstd::string::StringSliceAdditionalSpecFns;

verus! {

#[verifier::external_type_specification]
#[verifier::external_body]
pub struct ExParseIntError(ParseIntError);

/// An ASCII decimal digit.
pub open spec fn is_digit(c: u8) -> bool {
    0x30 <= c <= 0x39
}

/// Every byte is an ASCII decimal digit.
pub open spec fn all_digits(s: Seq<u8>) -> bool {
    forall|i: int| 0 <= i < s.len() ==> is_digit(#[trigger] s[i])
}

/// The number written by the digit string `s`, most significant digit first.
pub open spec fn digits_value(s: Seq<u8>) -> nat
    decreases s.len(),
{
    if s.len() == 0 {
        0
    } else {
        digits_value(s.drop_last()) * 10 + (s.last() - 0x30) as nat
    }
}

/// What `u64`'s `FromStr` accepts: an optional `+` followed by at least one
/// digit.
pub open spec fn unsigned_text_ok(s: Seq<u8>) -> bool {
    ||| (s.len() > 0 && all_digits(s))
    ||| (s.len() > 1 && s[0] == 0x2b && all_digits(s.drop_first()))
}

/// The number written by an unsigned decimal text with an optional `+`.
pub open spec fn unsigned_text_value(s: Seq<u8>) -> nat {
    if s.len() > 0 && s[0] == 0x2b {
        digits_value(s.drop_first())
    } else {
        digits_value(s)
    }
}

/// Unsigned decimal text whose value fits in a `u64`.
pub open spec fn u64_text_ok(s: Seq<u8>) -> bool {
    unsigned_text_ok(s) && unsigned_text_value(s) <= u64::MAX
}

/// `u64::from_str` (what `str::parse::<u64>` calls): as its documentation
/// says, it accepts an optional `+` followed by one or more ASCII digits and
/// returns their value, and fails on any other text or on a value above
/// `u64::MAX`. The error value itself is not described.
#[verifier::external_body]
pub(crate) fn parse_u64(s: &str) -> (r: Result<u64, ParseIntError>)
    ensures
        r is Ok <==> u64_text_ok(s.spec_bytes()),
        r matches Ok(v) ==> v == unsigned_text_value(s.spec_bytes()),
{
    s.parse::<u64>()
}

/// Digits written after other digits: `value(a ++ b) == value(a) * 10^|b| + value(b)`.
pub proof fn lemma_digits_concat(a: Seq<u8>, b: Seq<u8>)
    ensures
        digits_value(a + b) == digits_value(a) * pow_nat(10, b.len()) + digits_value(b),
    decreases b.len(),
{
    if b.len() == 0 {
        assert(a + b =~= a);
        assert(pow_nat(10, 0) == 1);
    } else {
        let b1 = b.drop_last();
        assert((a + b).drop_last() =~= a + b1);
        assert((a + b).last() == b.last());
        lemma_digits_concat(a, b1);
        let va = digits_value(a);
        let p = pow_nat(10, b1.len());
        let v1 = digits_value(b1);
        assert(pow_nat(10, b.len()) == 10 * p);
        assert((va * p + v1) * 10 == va * (10 * p) + v1 * 10) by (nonlinear_arith);
    }
}

/// A digit string of length `n` has value below `10^n`.
pub proof fn lemma_digits_upper(s: Seq<u8>)
    requires
        all_digits(s),
    ensures
        digits_value(s) < pow_nat(10, s.len()),
    decreases s.len(),
{
    if s.len() == 0 {
        assert(pow_nat(10, 0) == 1);
    } else {
        let s1 = s.drop_last();
        assert(all_digits(s1)) by {
            assert forall|i: int| 0 <= i < s1.len() implies is_digit(#[trigger] s1[i]) by {
                assert(s1[i] == s[i]);
            }
        }
        assert(is_digit(s[s.len() - 1]));
        lemma_digits_upper(s1);
        let v = digits_value(s1);
        let p = pow_nat(10, s1.len());
        let d = (s.last() - 0x30) as nat;
        assert(v * 10 + d < 10 * p) by (nonlinear_arith)
            requires
                v < p,
                d < 10,
        ;
    }
}

/// Leading zero digits do not change the value.
pub proof fn lemma_digits_leading_zeros(s: Seq<u8>, k: int)
    requires
        0 <= k <= s.len(),
        forall|i: int| 0 <= i < k ==> s[i] == 0x30,
    ensures
        digits_value(s) == digits_value(s.subrange(k, s.len() as int)),
{
    let z = s.subrange(0, k);
    assert(s =~= z + s.subrange(k, s.len() as int));
    lemma_digits_concat(z, s.subrange(k, s.len() as int));
    lemma_digits_zeros(z);
    let p = pow_nat(10, (s.len() - k) as nat);
    assert(0 * p == 0);
}

proof fn lemma_digits_zeros(z: Seq<u8>)
    requires
        forall|i: int| 0 <= i < z.len() ==> z[i] == 0x30,
    ensures
        digits_value(z) == 0,
    decreases z.len(),
{
    if z.len() > 0 {
        let z1 = z.drop_last();
        assert forall|i: int| 0 <= i < z1.len() implies z1[i] == 0x30 by {
            assert(z1[i] == z[i]);
        }
        lemma_digits_zeros(z1);
        assert(z[z.len() - 1] == 0x30);
    }
}

/// The decimal text of `n`, without leading zeros.
pub open spec fn decimal_text(n: nat) -> Seq<u8>
    decreases n,
{
    if n < 10 {
        seq![(0x30 + n) as u8]
    } else {
        decimal_text(n / 10).push((0x30 + n % 10) as u8)
    }
}

/// The last `k` decimal digits of `n`, padded with zeros to `k` digits.
pub open spec fn fixed_digits(n: nat, k: nat) -> Seq<u8>
    decreases k,
{
    if k == 0 {
        seq![]
    } else {
        fixed_digits(n / 10, (k - 1) as nat).push((0x30 + n % 10) as u8)
    }
}

/// The text of `a * 10^k + b` is the text of `a` followed by `b` in `k`
/// digits.
pub proof fn lemma_text_split(a: nat, b: nat, k: nat)
    requires
        a > 0,
        b < pow_nat(10, k),
    ensures
        decimal_text(a * pow_nat(10, k) + b) == decimal_text(a) + fixed_digits(b, k),
    decreases k,
{
    if k == 0 {
        assert(pow_nat(10, 0) == 1);
        assert(b == 0);
        assert(decimal_text(a) + fixed_digits(b, k) =~= decimal_text(a));
    } else {
        let p = pow_nat(10, (k - 1) as nat);
        assert(pow_nat(10, k) == 10 * p);
        let n = a * pow_nat(10, k) + b;
        assert(b / 10 < p) by (nonlinear_arith)
            requires
                b < 10 * p,
        ;
        lemma_text_split(a, b / 10, (k - 1) as nat);
        assert(n / 10 == a * p + b / 10 && n % 10 == b % 10 && n >= 10) by (nonlinear_arith)
            requires
                n == a * (10 * p) + b,
                a > 0,
                p > 0,
        {
            assert(n == (a * p + b / 10) * 10 + b % 10);
        }
        crate::radix::lemma_pow_positive(10, (k - 1) as nat);
        assert(decimal_text(n) =~= decimal_text(a) + fixed_digits(b, k));
    }
}

/// Decimal texts are made of ASCII digits.
pub proof fn lemma_decimal_text_digits(n: nat)
    ensures
        all_digits(decimal_text(n)),
        decimal_text(n).len() > 0,
    decreases n,
{
    if n >= 10 {
        lemma_decimal_text_digits(n / 10);
        let t = decimal_text(n);
        assert forall|i: int| 0 <= i < t.len() implies is_digit(#[trigger] t[i]) by {
            if i < t.len() - 1 {
                assert(t[i] == decimal_text(n / 10)[i]);
            }
        }
    }
}

pub proof fn lemma_fixed_digits_digits(n: nat, k: nat)
    ensures
        all_digits(fixed_digits(n, k)),
        fixed_digits(n, k).len() == k,
    decreases k,
{
    if k > 0 {
        lemma_fixed_digits_digits(n / 10, (k - 1) as nat);
        let t = fixed_digits(n, k);
        assert forall|i: int| 0 <= i < t.len() implies is_digit(#[trigger] t[i]) by {
            if i < t.len() - 1 {
                assert(t[i] == fixed_digits(n / 10, (k - 1) as nat)[i]);
            }
        }
    }
}

/// Appends the decimal text of `v`.
pub fn push_decimal(out: &mut Vec<u8>, v: u64)
    ensures
        final(out)@ == old(out)@ + decimal_text(v as nat),
    decreases v,
{
    if v >= 10 {
        push_decimal(out, v / 10);
    }
    let d = (v % 10) as u8;
    out.push(0x30 + d);
    proof {
        assert(out@ =~= old(out)@ + decimal_text(v as nat));
    }
}

/// Appends the last `k` decimal digits of `v`, padded with zeros.
pub fn push_fixed(out: &mut Vec<u8>, v: u64, k: u32)
    ensures
        final(out)@ == old(out)@ + fixed_digits(v as nat, k as nat),
    decreases k,
{
    if k > 0 {
        push_fixed(out, v / 10, k - 1);
        let d = (v % 10) as u8;
        out.push(0x30 + d);
        proof {
            assert(out@ =~= old(out)@ + fixed_digits(v as nat, k as nat));
        }
    } else {
        proof {
            assert(out@ =~= old(out)@ + fixed_digits(v as nat, k as nat));
        }
    }
}

} // verus!
