//! Non-negative integers of any size, stored as little-endian 64-bit words.
use vstd::prelude::*;
use crate::decimal::{
    all_digits, decimal_text, digits_value, fixed_digits, is_digit, lemma_decimal_text_digits,
    lemma_digits_concat, lemma_digits_upper, lemma_fixed_digits_digits, lemma_text_split,
    parse_u64, push_decimal, push_fixed, u64_text_ok, unsigned_text_value,
};
use crate::text::{all_ascii, ascii_chars, ascii_string};
use crate::utf8_facts::{lemma_boundary_after_ascii_run, lemma_boundary_in_prefix};
use vstd::utf8::{is_char_boundary, valid_utf8, valid_utf8_split};
use vstd::string::StringSliceAdditionalSpecFns;
use std::num::ParseIntError;
use crate::radix::{
    digits_below, horner, lemma_horner_lower, lemma_horner_push, lemma_horner_split,
    lemma_horner_upper, lemma_pow_monotone, lemma_pow_positive, no_top_zero, pow_nat, prefix,
};

verus! {

/// The base of the word representation, `2^64`.
pub open spec fn word_base() -> nat {
    0x1_0000_0000_0000_0000nat
}

/// The number that a little-endian word sequence stands for.
pub open spec fn words_value(w: Seq<u64>) -> nat {
    horner(w, word_base())
}

/// Three-way comparison of word sequences as `BigInt::cmp` performs it: a
/// longer sequence is the larger one; sequences of equal length compare
/// from the most significant word down.
pub open spec fn compare_words(a: Seq<u64>, b: Seq<u64>) -> int
    decreases a.len(),
{
    if a.len() < b.len() {
        -1
    } else if a.len() > b.len() {
        1
    } else if a.len() == 0 {
        0
    } else if a.last() < b.last() {
        -1
    } else if a.last() > b.last() {
        1
    } else {
        compare_words(a.drop_last(), b.drop_last())
    }
}

/// A non-negative integer of any size.
#[derive(Clone)]
pub struct BigInt {
    words: Vec<u64>,
}

impl View for BigInt {
    type V = Seq<u64>;

    closed spec fn view(&self) -> Seq<u64> {
        self.words@
    }
}

impl BigInt {
    /// The number this value stands for.
    pub open spec fn value(&self) -> nat {
        words_value(self@)
    }

    /// The representation has no zero word at the top, which makes it the
    /// unique one for its value.
    pub open spec fn normalized(&self) -> bool {
        no_top_zero(self@)
    }

    /// Adds `other` to `self` in place.
    ///
    /// The result has as many words as the longer operand, and one more
    /// exactly when the sum does not fit in that many.
    pub fn add(&mut self, other: Self)
        requires
            old(self)@.len() < usize::MAX,
            other@.len() < usize::MAX,
        ensures
            final(self).value() == old(self).value() + other.value(),
            ({
                let m = if old(self)@.len() >= other@.len() {
                    old(self)@.len()
                } else {
                    other@.len()
                };
                final(self)@.len() == if old(self).value() + other.value() >= pow_nat(
                    word_base(),
                    m,
                ) {
                    m + 1
                } else {
                    m
                }
            }),
            old(self).normalized() && other.normalized() ==> final(self).normalized(),
    {
        let ghost a = self.words@;
        let ghost b = other.words@;
        let ghost la = a.len();
        let ghost lb = b.len();
        let ghost m: nat = if la >= lb {
            la
        } else {
            lb
        };
        let mut carry = false;
        let mut i: usize = 0;
        proof {
            assert(self.words@.take(0) =~= Seq::<u64>::empty());
            assert(a.take(0) =~= Seq::<u64>::empty());
            assert(b.take(0) =~= Seq::<u64>::empty());
            assert(pow_nat(word_base(), 0) == 1);
        }
        while i < other.words.len() || carry
            invariant
                a == old(self).words@,
                b == other.words@,
                la == a.len(),
                lb == b.len(),
                m == if la >= lb {
                    la
                } else {
                    lb
                },
                la < usize::MAX,
                lb < usize::MAX,
                i <= m || (i == m + 1 && !carry && self.words@[m as int] == 1),
                self.words@.len() == if i >= la {
                    i as nat
                } else {
                    la
                },
                forall|j: int| i <= j < la ==> self.words@[j] == a[j],
                words_value(self.words@.take(i as int)) + (if carry {
                    1nat
                } else {
                    0nat
                }) * pow_nat(word_base(), i as nat) == words_value(
                    a.take(if i <= la {
                        i as int
                    } else {
                        la as int
                    }),
                ) + words_value(
                    b.take(if i <= lb {
                        i as int
                    } else {
                        lb as int
                    }),
                ),
            decreases m + 1 - i,
        {
            let x: u64 = if i < self.words.len() {
                self.words[i]
            } else {
                0
            };
            let y: u64 = if i < other.words.len() {
                other.words[i]
            } else {
                0
            };
            let c: u128 = if carry {
                1
            } else {
                0
            };
            let total: u128 = x as u128 + y as u128 + c;
            let w: u64 = if total >= 0x1_0000_0000_0000_0000u128 {
                (total - 0x1_0000_0000_0000_0000u128) as u64
            } else {
                total as u64
            };
            let ghost old_words = self.words@;
            let ghost old_carry = carry;
            carry = total >= 0x1_0000_0000_0000_0000u128;
            if i == self.words.len() {
                self.words.push(w);
            } else {
                self.words.set(i, w);
            }
            proof {
                let p = pow_nat(word_base(), i as nat);
                assert(self.words@.take(i as int) =~= old_words.take(i as int));
                assert(self.words@.take(i as int + 1) =~= old_words.take(i as int).push(w));
                lemma_horner_push(old_words.take(i as int), w, word_base());
                assert(pow_nat(word_base(), i as nat + 1) == word_base() * p);
                if i < la {
                    assert(x == a[i as int]);
                    assert(a.take(i as int + 1) =~= a.take(i as int).push(a[i as int]));
                    lemma_horner_push(a.take(i as int), a[i as int], word_base());
                } else {
                    assert(x == 0);
                }
                if i < lb {
                    assert(y == b[i as int]);
                    assert(b.take(i as int + 1) =~= b.take(i as int).push(b[i as int]));
                    lemma_horner_push(b.take(i as int), b[i as int], word_base());
                } else {
                    assert(y == 0);
                }
                let cv: nat = if carry {
                    1
                } else {
                    0
                };
                let ocv: nat = if old_carry {
                    1
                } else {
                    0
                };
                assert(w + cv * word_base() == x + y + ocv);
                assert(w * p + cv * (word_base() * p) == x * p + y * p + ocv * p)
                    by (nonlinear_arith)
                    requires
                        w + cv * word_base() == x + y + ocv,
                ;
                if i < la {
                } else {
                    assert(x * p == 0);
                }
                if i < lb {
                } else {
                    assert(y * p == 0);
                }
            }
            i = i + 1;
        }
        proof {
            let r = self.words@;
            let ti: int = i as int;
            lemma_horner_split(r, ti, word_base());
            if ti <= la {
                assert(r.subrange(ti, r.len() as int) =~= a.subrange(ti, la as int));
                lemma_horner_split(a, ti, word_base());
                assert(a.take(ti) =~= a.subrange(0, ti));
            } else {
                assert(r.subrange(ti, r.len() as int) =~= Seq::<u64>::empty());
                assert(a.take(la as int) =~= a);
                assert(horner(Seq::<u64>::empty(), word_base()) == 0);
                let p = pow_nat(word_base(), i as nat);
                assert(p * 0 == 0) by (nonlinear_arith);
            }
            assert(r.take(ti) =~= r.subrange(0, ti));
            assert(b.take(lb as int) =~= b);
            // the length
            let sum = words_value(a) + words_value(b);
            let pm = pow_nat(word_base(), m);
            assert(digits_below(r, word_base()));
            lemma_horner_upper(r, word_base());
            if r.len() == m + 1 {
                assert(r.last() == 1);
                lemma_horner_lower(r, word_base());
            } else {
                assert(r.len() == m);
            }
            // normalization
            if no_top_zero(a) && no_top_zero(b) && r.len() > 0 && r.len() == m {
                if r.last() == 0 {
                    let init = r.drop_last();
                    assert(r =~= init.push(0));
                    lemma_horner_push(init, 0, word_base());
                    assert(digits_below(init, word_base()));
                    lemma_horner_upper(init, word_base());
                    if la >= lb {
                        lemma_horner_lower(a, word_base());
                    } else {
                        lemma_horner_lower(b, word_base());
                    }
                    assert(false);
                }
            }
        }
    }

    /// Three-way comparison: -1, 0 or 1.
    ///
    /// A longer word sequence counts as larger; for normalized values this is
    /// the numeric order (see `lemma_compare_is_numeric_order`).
    pub fn cmp(&self, other: &Self) -> (r: i32)
        ensures
            r == compare_words(self@, other@),
    {
        if self.words.len() < other.words.len() {
            return -1;
        } else if self.words.len() > other.words.len() {
            return 1;
        }
        let mut k: usize = self.words.len();
        proof {
            assert(prefix(self.words@, k) =~= self.words@);
            assert(prefix(other.words@, k) =~= other.words@);
        }
        while k > 0
            invariant
                self.words@.len() == other.words@.len(),
                k <= self.words@.len(),
                compare_words(self@, other@) == compare_words(
                    prefix(self.words@, k),
                    prefix(other.words@, k),
                ),
            decreases k,
        {
            let k1 = k - 1;
            let x = self.words[k1];
            let y = other.words[k1];
            proof {
                assert(prefix(self.words@, k).drop_last() =~= prefix(self.words@, k1));
                assert(prefix(other.words@, k).drop_last() =~= prefix(other.words@, k1));
            }
            if x < y {
                return -1;
            } else if x > y {
                return 1;
            }
            k = k1;
        }
        proof {
            assert(prefix(self.words@, 0) =~= Seq::<u64>::empty());
            assert(prefix(other.words@, 0) =~= Seq::<u64>::empty());
        }
        0
    }
}

/// Sign of `x - y`.
pub open spec fn sign_of_difference(x: nat, y: nat) -> int {
    if x < y {
        -1
    } else if x > y {
        1
    } else {
        0
    }
}

proof fn lemma_compare_same_length(a: Seq<u64>, b: Seq<u64>)
    requires
        a.len() == b.len(),
    ensures
        compare_words(a, b) == sign_of_difference(words_value(a), words_value(b)),
    decreases a.len(),
{
    if a.len() > 0 {
        let n = (a.len() - 1) as nat;
        let ia = a.drop_last();
        let ib = b.drop_last();
        assert(a =~= ia.push(a.last()));
        assert(b =~= ib.push(b.last()));
        lemma_horner_push(ia, a.last(), word_base());
        lemma_horner_push(ib, b.last(), word_base());
        assert(digits_below(ia, word_base()));
        assert(digits_below(ib, word_base()));
        lemma_horner_upper(ia, word_base());
        lemma_horner_upper(ib, word_base());
        let p = pow_nat(word_base(), n);
        let ha = words_value(ia);
        let hb = words_value(ib);
        let x = a.last() as nat;
        let y = b.last() as nat;
        if x < y {
            assert(ha + x * p < hb + y * p) by (nonlinear_arith)
                requires
                    ha < p,
                    x < y,
            ;
        } else if x > y {
            assert(ha + x * p > hb + y * p) by (nonlinear_arith)
                requires
                    hb < p,
                    x > y,
            ;
        } else {
            lemma_compare_same_length(ia, ib);
        }
    } else {
        assert(words_value(a) == 0);
        assert(words_value(b) == 0);
    }
}

/// For normalized numbers, `BigInt::cmp` orders by numeric value: it gives
/// the sign of `a - b`.
pub proof fn lemma_compare_is_numeric_order(a: &BigInt, b: &BigInt)
    requires
        a.normalized(),
        b.normalized(),
    ensures
        compare_words(a@, b@) == sign_of_difference(a.value(), b.value()),
{
    lemma_compare_words_order(a@, b@);
}

/// For words without a zero word at the top, `compare_words` gives the
/// sign of the difference of their values.
pub proof fn lemma_compare_words_order(sa: Seq<u64>, sb: Seq<u64>)
    requires
        no_top_zero(sa),
        no_top_zero(sb),
    ensures
        compare_words(sa, sb) == sign_of_difference(words_value(sa), words_value(sb)),
{
    assert(digits_below(sa, word_base()));
    assert(digits_below(sb, word_base()));
    if sa.len() < sb.len() {
        lemma_horner_upper(sa, word_base());
        lemma_horner_lower(sb, word_base());
        lemma_pow_monotone(word_base(), sa.len(), (sb.len() - 1) as nat);
    } else if sa.len() > sb.len() {
        lemma_horner_upper(sb, word_base());
        lemma_horner_lower(sa, word_base());
        lemma_pow_monotone(word_base(), sb.len(), (sa.len() - 1) as nat);
    } else {
        lemma_compare_same_length(sa, sb);
    }
}

/// Decimal digits per chunk when reading decimal text.
pub const NDIGITS: usize = 19;

/// `10^19 / 2^16`, exact: the carry factor when dividing a number written in
/// base `10^19` by `2^16`.
pub const FRAC: u64 = 152587890625000;

/// `2^16`.
pub const TWO_16: u64 = 65536;

/// The base of the chunked decimal representation, `10^19`.
pub open spec fn chunk_base() -> nat {
    10_000_000_000_000_000_000nat
}

/// Divides the number written in base `10^19` by `dwords` (least significant
/// chunk first) by `2^16` in place and returns the remainder; a top chunk
/// that becomes zero is dropped.
fn get_16bits(dwords: &mut Vec<u64>) -> (carry: u64)
    requires
        digits_below(old(dwords)@, chunk_base()),
    ensures
        digits_below(final(dwords)@, chunk_base()),
        carry < 65536,
        horner(old(dwords)@, chunk_base()) == horner(final(dwords)@, chunk_base()) * 65536
            + carry,
        final(dwords)@.len() <= old(dwords)@.len(),
        final(dwords)@.len() + 1 >= old(dwords)@.len(),
        horner(old(dwords)@, chunk_base()) == 0 && old(dwords)@.len() > 0
            ==> final(dwords)@.len() < old(dwords)@.len(),
        no_top_zero(old(dwords)@) ==> no_top_zero(final(dwords)@),
{
    let ghost old_d = dwords@;
    let ghost n = dwords@.len() as int;
    let ghost d_base = chunk_base();
    let mut carry: u64 = 0;
    let mut i: usize = dwords.len();
    let ghost mut top_carry: u64 = 0;
    proof {
        assert(old_d.subrange(n, n) =~= Seq::<u64>::empty());
        assert(dwords@.subrange(n, n) =~= Seq::<u64>::empty());
    }
    while i > 0
        invariant
            d_base == chunk_base(),
            n == old_d.len(),
            dwords@.len() == n,
            0 <= i <= n,
            carry < 65536,
            forall|j: int| 0 <= j < i ==> dwords@[j] == old_d[j],
            forall|j: int| i <= j < n ==> dwords@[j] < d_base,
            digits_below(old_d, d_base),
            horner(old_d.subrange(i as int, n), d_base) == horner(
                dwords@.subrange(i as int, n),
                d_base,
            ) * 65536 + carry,
            i < n ==> top_carry == old_d[n - 1] % 65536,
            i < n ==> dwords@[n - 1] == old_d[n - 1] / 65536,
            i < n - 1 && old_d[n - 1] < 65536 ==> dwords@[n - 2] >= FRAC * top_carry,
            i == n - 1 ==> carry == top_carry,
        decreases i,
    {
        i = i - 1;
        let d = dwords[i];
        let newcarry = d % TWO_16;
        let nd = d / TWO_16 + carry * FRAC;
        proof {
            assert(d == old_d[i as int]);
            assert(old_d[i as int] < d_base);
            assert(d / 65536 < 152587890625000) by (nonlinear_arith)
                requires
                    d < 10_000_000_000_000_000_000nat,
            ;
            assert(carry * 152587890625000 <= 65535 * 152587890625000) by (nonlinear_arith)
                requires
                    carry < 65536,
            ;
        }
        let ghost before = dwords@;
        dwords.set(i, nd);
        proof {
            let hi_old = horner(old_d.subrange(i as int + 1, n), d_base);
            let hi_new = horner(before.subrange(i as int + 1, n), d_base);
            assert(old_d.subrange(i as int, n).drop_first() =~= old_d.subrange(i as int + 1, n));
            assert(dwords@.subrange(i as int, n).drop_first() =~= before.subrange(
                i as int + 1,
                n,
            ));
            assert(dwords@.subrange(i as int, n)[0] == nd);
            assert(old_d.subrange(i as int, n)[0] == d);
            let dn = d as int;
            let q = d / 65536;
            let r = d % 65536;
            assert(dn == q * 65536 + r) by (nonlinear_arith)
                requires
                    q == dn / 65536,
                    r == dn % 65536,
            ;
            assert((q + carry * 152587890625000) * 65536 + d_base * hi_new * 65536 + r == dn
                + d_base * (hi_new * 65536 + carry)) by (nonlinear_arith)
                requires
                    dn == q * 65536 + r,
                    d_base == 10_000_000_000_000_000_000nat,
            ;
            if i == n - 1 {
                top_carry = r as u64;
            }
        }
        carry = newcarry;
    }
    proof {
        assert(old_d.subrange(0, n) =~= old_d);
        assert(dwords@.subrange(0, n) =~= dwords@);
    }
    let len = dwords.len();
    if len > 0 && dwords[len - 1] == 0 {
        let ghost q = dwords@;
        dwords.pop();
        proof {
            assert(q =~= dwords@.push(0));
            lemma_horner_push(dwords@, 0, chunk_base());
            assert(0 * pow_nat(chunk_base(), dwords@.len()) == 0);
            if no_top_zero(old_d) && dwords@.len() > 0 {
                assert(old_d[n - 1] < 65536) by {
                    let t = old_d[n - 1];
                    assert(t / 65536 == 0);
                    assert(t < 65536) by (nonlinear_arith)
                        requires
                            t / 65536 == 0,
                    ;
                }
                assert(top_carry == old_d[n - 1]);
                assert(dwords@.last() == q[n - 2]);
            }
        }
    } else {
        proof {
            if horner(old_d, chunk_base()) == 0 && n > 0 {
                lemma_horner_lower(dwords@, chunk_base());
                lemma_pow_positive(chunk_base(), (n - 1) as nat);
            }
        }
    }
    carry
}

/// The number of `'0'` bytes at the start of `b`.
pub open spec fn leading_zeros(b: Seq<u8>) -> nat
    decreases b.len(),
{
    if b.len() > 0 && b[0] == 0x30 {
        1 + leading_zeros(b.drop_first())
    } else {
        0
    }
}

/// `b` without its leading `'0'` bytes.
pub open spec fn trim_zeros(b: Seq<u8>) -> Seq<u8> {
    b.subrange(leading_zeros(b) as int, b.len() as int)
}

proof fn lemma_leading_zeros(b: Seq<u8>)
    ensures
        leading_zeros(b) <= b.len(),
        forall|j: int| 0 <= j < leading_zeros(b) ==> b[j] == 0x30,
        leading_zeros(b) == b.len() || b[leading_zeros(b) as int] != 0x30,
    decreases b.len(),
{
    if b.len() > 0 && b[0] == 0x30 {
        let d = b.drop_first();
        lemma_leading_zeros(d);
        assert forall|j: int| 0 <= j < leading_zeros(b) implies b[j] == 0x30 by {
            if j > 0 {
                assert(b[j] == d[j - 1]);
            }
        }
    }
}

/// The text cut into chunks of 19 bytes from the right, least significant
/// chunk first; the leftmost chunk may be shorter.
pub open spec fn decimal_chunks(t: Seq<u8>) -> Seq<Seq<u8>>
    decreases t.len(),
{
    if t.len() == 0 {
        seq![]
    } else if t.len() <= 19 {
        seq![t]
    } else {
        seq![t.subrange(t.len() - 19, t.len() as int)] + decimal_chunks(
            t.subrange(0, t.len() - 19),
        )
    }
}

/// The places where the text is cut into chunks are character boundaries.
pub open spec fn chunk_cuts_ok(t: Seq<u8>) -> bool {
    forall|k: int| 1 <= k && 19 * k < t.len() ==> is_char_boundary(t, #[trigger] cut_at(t.len(), k))
}

/// Where the `k`-th cut from the right falls in a text of length `len`.
pub open spec fn cut_at(len: nat, k: int) -> int {
    len - 19 * k
}

/// Every chunk is text that `u64::from_str` accepts.
pub open spec fn chunks_ok(cs: Seq<Seq<u8>>) -> bool {
    forall|i: int| 0 <= i < cs.len() ==> u64_text_ok(#[trigger] cs[i])
}

/// The values of the chunks.
pub open spec fn chunk_values(cs: Seq<Seq<u8>>) -> Seq<u64> {
    cs.map_values(|c: Seq<u8>| unsigned_text_value(c) as u64)
}

proof fn lemma_pow10_19()
    ensures
        pow_nat(10, 19) == chunk_base(),
        pow_nat(10, 18) == 1_000_000_000_000_000_000nat,
{
    reveal_with_fuel(pow_nat, 20);
}

/// A chunk of at most 19 bytes that `u64::from_str` accepts is below `10^19`.
proof fn lemma_chunk_below(c: Seq<u8>)
    requires
        u64_text_ok(c),
        c.len() <= 19,
    ensures
        unsigned_text_value(c) < chunk_base(),
{
    lemma_pow10_19();
    if c.len() > 0 && c[0] == 0x2b {
        let d = c.drop_first();
        lemma_digits_upper(d);
        lemma_pow_monotone(10, d.len(), 19);
    } else {
        lemma_digits_upper(c);
        lemma_pow_monotone(10, c.len(), 19);
    }
}

proof fn lemma_trim_zeros(b: Seq<u8>, start: int)
    requires
        0 <= start <= b.len(),
        forall|j: int| 0 <= j < start ==> b[j] == 0x30,
        start == b.len() || b[start] != 0x30,
    ensures
        leading_zeros(b) == start,
    decreases start,
{
    if start > 0 {
        let d = b.drop_first();
        assert forall|j: int| 0 <= j < start - 1 implies d[j] == 0x30 by {
            assert(d[j] == b[j + 1]);
        }
        lemma_trim_zeros(d, start - 1);
    }
}

/// For a text of ASCII digits, the chunks spell the same number as the text.
proof fn lemma_digit_chunks(t: Seq<u8>)
    requires
        all_digits(t),
    ensures
        chunks_ok(decimal_chunks(t)),
        horner(chunk_values(decimal_chunks(t)), chunk_base()) == digits_value(t),
        t.len() > 0 && t[0] != 0x30 ==> no_top_zero(chunk_values(decimal_chunks(t))),
    decreases t.len(),
{
    lemma_pow10_19();
    let cs = decimal_chunks(t);
    if t.len() == 0 {
        assert(chunk_values(cs) =~= Seq::<u64>::empty());
    } else if t.len() <= 19 {
        lemma_digits_upper(t);
        lemma_pow_monotone(10, t.len(), 19);
        assert(t[0] != 0x2b);
        assert(u64_text_ok(t));
        assert(chunks_ok(cs));
        let v = chunk_values(cs);
        assert(v =~= seq![digits_value(t) as u64]);
        assert(v.drop_first() =~= Seq::<u64>::empty());
        assert(horner(Seq::<u64>::empty(), chunk_base()) == 0);
        assert(chunk_base() * 0 == 0);
        if t[0] != 0x30 {
            lemma_digits_positive(t);
        }
    } else {
        let lo = t.subrange(t.len() - 19, t.len() as int);
        let hi = t.subrange(0, t.len() - 19);
        assert(all_digits(lo)) by {
            assert forall|i: int| 0 <= i < lo.len() implies is_digit(#[trigger] lo[i]) by {
                assert(lo[i] == t[t.len() - 19 + i]);
            }
        }
        assert(all_digits(hi)) by {
            assert forall|i: int| 0 <= i < hi.len() implies is_digit(#[trigger] hi[i]) by {
                assert(hi[i] == t[i]);
            }
        }
        lemma_digit_chunks(hi);
        lemma_digits_upper(lo);
        assert(lo[0] != 0x2b);
        assert(u64_text_ok(lo));
        let rest = decimal_chunks(hi);
        assert(cs =~= seq![lo] + rest);
        assert(chunks_ok(cs)) by {
            assert forall|i: int| 0 <= i < cs.len() implies u64_text_ok(#[trigger] cs[i]) by {
                if i > 0 {
                    assert(cs[i] == rest[i - 1]);
                }
            }
        }
        let v = chunk_values(cs);
        assert(v.drop_first() =~= chunk_values(rest));
        assert(v[0] == digits_value(lo));
        assert(t =~= hi + lo);
        lemma_digits_concat(hi, lo);
        assert(digits_value(hi) * chunk_base() == chunk_base() * digits_value(hi))
            by (nonlinear_arith);
        if t[0] != 0x30 {
            assert(hi[0] == t[0]);
            assert(v.last() == chunk_values(rest).last());
        }
    }
}

proof fn lemma_digits_positive(t: Seq<u8>)
    requires
        all_digits(t),
        t.len() > 0,
        t[0] != 0x30,
    ensures
        digits_value(t) > 0,
{
    let first = t.subrange(0, 1);
    let rest = t.subrange(1, t.len() as int);
    assert(t =~= first + rest);
    lemma_digits_concat(first, rest);
    assert(first.drop_last() =~= Seq::<u8>::empty());
    assert(digits_value(Seq::<u8>::empty()) == 0);
    assert(first.last() == t[0]);
    assert(digits_value(first) == (t[0] - 0x30) as nat);
    assert(is_digit(t[0]));
    lemma_pow_positive(10, rest.len());
    let p = pow_nat(10, rest.len());
    let f = digits_value(first);
    assert(f * p > 0) by (nonlinear_arith)
        requires
            f > 0,
            p > 0,
    ;
}

/// A digit text reads, after its leading zeros, as the number it spells.
proof fn lemma_trimmed_digits(b: Seq<u8>)
    ensures
        all_digits(b) ==> chunks_ok(decimal_chunks(trim_zeros(b))),
        all_digits(b) ==> horner(chunk_values(decimal_chunks(trim_zeros(b))), chunk_base())
            == digits_value(b),
        all_digits(b) ==> no_top_zero(chunk_values(decimal_chunks(trim_zeros(b)))),
{
    if all_digits(b) {
        lemma_leading_zeros(b);
        let start = leading_zeros(b) as int;
        let t = trim_zeros(b);
        assert(all_digits(t)) by {
            assert forall|i: int| 0 <= i < t.len() implies is_digit(#[trigger] t[i]) by {
                assert(t[i] == b[i + start]);
            }
        }
        lemma_digit_chunks(t);
        crate::decimal::lemma_digits_leading_zeros(b, start);
        if t.len() > 0 {
            assert(t[0] == b[start]);
        } else {
            assert(decimal_chunks(t) =~= Seq::<Seq<u8>>::empty());
            assert(chunk_values(decimal_chunks(t)) =~= Seq::<u64>::empty());
        }
    }
}

/// For ASCII text, every cut is a character boundary.
pub proof fn lemma_ascii_cuts_ok(b: Seq<u8>)
    requires
        valid_utf8(b),
        forall|i: int| 0 <= i < b.len() ==> b[i] <= 0x7f,
    ensures
        chunk_cuts_ok(trim_zeros(b)),
{
    lemma_leading_zeros(b);
    let k = leading_zeros(b) as int;
    lemma_boundary_after_ascii_run(b, k);
    valid_utf8_split(b, k);
    let t = b.subrange(k, b.len() as int);
    assert forall|c: int| 1 <= c && 19 * c < t.len() implies is_char_boundary(
        t,
        #[trigger] cut_at(t.len(), c),
    ) by {
        lemma_boundary_after_ascii_run(t, t.len() - 19 * c);
    }
}

impl BigInt {
    /// Reads a decimal number.
    ///
    /// Leading `'0'` bytes are skipped and the rest is cut into chunks of 19
    /// bytes from the right; each chunk is read with `u64::from_str`, so a
    /// chunk may start with `+`. The first chunk that it refuses gives the
    /// error. For a text of ASCII digits the result is always the number the
    /// digits spell, in normalized form.
    pub fn parse(s: &str) -> (r: Result<Self, ParseIntError>)
        requires
            chunk_cuts_ok(trim_zeros(s.spec_bytes())),
        ensures
            r is Ok <==> chunks_ok(decimal_chunks(trim_zeros(s.spec_bytes()))),
            r matches Ok(b) ==> b.value() == horner(
                chunk_values(decimal_chunks(trim_zeros(s.spec_bytes()))),
                chunk_base(),
            ),
            r matches Ok(b) ==> (no_top_zero(
                chunk_values(decimal_chunks(trim_zeros(s.spec_bytes()))),
            ) ==> b.normalized()),
            all_digits(s.spec_bytes()) ==> (r matches Ok(b) && b.value() == digits_value(
                s.spec_bytes(),
            ) && b.normalized()),
    {
        broadcast use vstd::utf8::encode_utf8_valid_utf8;

        let bytes = s.as_bytes();
        let ghost b = s.spec_bytes();
        let n = bytes.len();
        let mut start: usize = 0;
        while start < n && bytes[start] == 0x30
            invariant
                bytes@ == b,
                n == b.len(),
                start <= n,
                forall|j: int| 0 <= j < start ==> b[j] == 0x30,
            decreases n - start,
        {
            start = start + 1;
        }
        proof {
            lemma_trim_zeros(b, start as int);
            assert(valid_utf8(b));
            lemma_boundary_after_ascii_run(b, start as int);
        }
        let (_, rest) = s.split_at(start);
        let ghost t = rest.spec_bytes();
        proof {
            assert(t =~= trim_zeros(b));
            valid_utf8_split(b, start as int);
        }
        let ghost cs = decimal_chunks(t);
        let mut cur: &str = rest;
        let mut parts: Vec<u64> = Vec::new();
        let ghost mut k: int = 0;
        let ghost mut done: Seq<Seq<u8>> = seq![];
        while cur.as_bytes().len() > NDIGITS
            invariant
                b == s.spec_bytes(),
                t == trim_zeros(b),
                cs == decimal_chunks(t),
                valid_utf8(t),
                chunk_cuts_ok(t),
                0 <= k,
                19 * k <= t.len(),
                cur.spec_bytes() =~= t.subrange(0, t.len() - 19 * k),
                k == 0 || is_char_boundary(t, cut_at(t.len(), k)),
                cs =~= done + decimal_chunks(cur.spec_bytes()),
                chunks_ok(done),
                parts@ =~= chunk_values(done),
                digits_below(parts@, chunk_base()),
            decreases cur.spec_bytes().len(),
        {
            let cl = cur.as_bytes().len();
            let ghost cb = cur.spec_bytes();
            proof {
                assert(cl as int == t.len() - 19 * k);
                assert(19 * (k + 1) < t.len());
                assert(is_char_boundary(t, cut_at(t.len(), k + 1)));
                assert(cut_at(t.len(), k + 1) == cl - 19);
                if k == 0 {
                    vstd::utf8::is_char_boundary_start_end_of_seq(t);
                    assert(is_char_boundary(t, cl as int));
                } else {
                    assert(cut_at(t.len(), k) == cl as int);
                    assert(is_char_boundary(t, cl as int));
                }
                lemma_boundary_in_prefix(t, cl as int, cl - 19);
                assert(t.subrange(0, cl as int) =~= cb);
            }
            let (s1, s2) = cur.split_at(cl - NDIGITS);
            let ghost chunk = s2.spec_bytes();
            proof {
                assert(chunk =~= cb.subrange(cb.len() - 19, cb.len() as int));
                assert(decimal_chunks(cb) =~= seq![chunk] + decimal_chunks(s1.spec_bytes()));
            }
            let v = match parse_u64(s2) {
                Ok(v) => v,
                Err(e) => {
                    proof {
                        assert(cs[done.len() as int] == chunk);
                        lemma_trimmed_digits(b);
                    }
                    return Err(e);
                },
            };
            proof {
                lemma_chunk_below(chunk);
            }
            parts.push(v);
            cur = s1;
            proof {
                done = done.push(chunk);
                k = k + 1;
                assert(chunks_ok(done)) by {
                    assert forall|i: int| 0 <= i < done.len() implies u64_text_ok(
                        #[trigger] done[i],
                    ) by {
                        if i < done.len() - 1 {
                            assert(done[i] == done.drop_last()[i]);
                        }
                    }
                }
                assert(cs =~= done + decimal_chunks(cur.spec_bytes()));
            }
        }
        if cur.as_bytes().len() > 0 {
            let ghost cb = cur.spec_bytes();
            proof {
                assert(decimal_chunks(cb) =~= seq![cb]);
            }
            let v = match parse_u64(cur) {
                Ok(v) => v,
                Err(e) => {
                    proof {
                        assert(cs[done.len() as int] == cb);
                        lemma_trimmed_digits(b);
                    }
                    return Err(e);
                },
            };
            proof {
                lemma_chunk_below(cb);
                done = done.push(cb);
            }
            parts.push(v);
        } else {
            proof {
                assert(decimal_chunks(cur.spec_bytes()) =~= Seq::<Seq<u8>>::empty());
            }
        }
        proof {
            assert(cs =~= done);
            assert(chunks_ok(cs)) by {
                assert forall|i: int| 0 <= i < cs.len() implies u64_text_ok(#[trigger] cs[i]) by {
                    if i < cs.len() - 1 || cur.len() == 0 {
                        assert(cs[i] == done[i]);
                    }
                }
            }
            assert(parts@ =~= chunk_values(cs));
        }
        // Conversion from base 10^19 to base 2^64.
        let ghost total = horner(parts@, chunk_base());
        let ghost normal = no_top_zero(parts@);
        let mut words: Vec<u64> = Vec::new();
        proof {
            assert(pow_nat(word_base(), 0) == 1);
            assert(words_value(words@) == 0);
        }
        while parts.len() > 0
            invariant
                digits_below(parts@, chunk_base()),
                total == words_value(words@) + pow_nat(word_base(), words@.len()) * horner(
                    parts@,
                    chunk_base(),
                ),
                normal ==> no_top_zero(parts@),
                normal && parts@.len() == 0 && words@.len() > 0 ==> words@.last() != 0,
            decreases horner(parts@, chunk_base()), parts@.len(),
        {
            let ghost v0 = horner(parts@, chunk_base());
            let ghost l0 = parts@.len();
            let ghost p_start = parts@;
            let p0 = get_16bits(&mut parts);
            let ghost v1 = horner(parts@, chunk_base());
            let p1 = get_16bits(&mut parts);
            let ghost v2 = horner(parts@, chunk_base());
            let p2 = get_16bits(&mut parts);
            let ghost v3 = horner(parts@, chunk_base());
            let p3 = get_16bits(&mut parts);
            let ghost v4 = horner(parts@, chunk_base());
            let w = p0 | (p1 << 16) | (p2 << 32) | (p3 << 48);
            proof {
                assert(w == p0 + p1 * 0x10000 + p2 * 0x1_0000_0000 + p3 * 0x1_0000_0000_0000)
                    by (bit_vector)
                    requires
                        w == p0 | (p1 << 16) | (p2 << 32) | (p3 << 48),
                        p0 < 65536,
                        p1 < 65536,
                        p2 < 65536,
                        p3 < 65536,
                ;
                assert(v0 == v4 * word_base() + w) by (nonlinear_arith)
                    requires
                        v0 == v1 * 65536 + p0,
                        v1 == v2 * 65536 + p1,
                        v2 == v3 * 65536 + p2,
                        v3 == v4 * 65536 + p3,
                        w == p0 + p1 * 0x10000 + p2 * 0x1_0000_0000 + p3 * 0x1_0000_0000_0000,
                        word_base() == 0x1_0000_0000_0000_0000nat,
                ;
                let pw = pow_nat(word_base(), words@.len());
                lemma_horner_push(words@, w, word_base());
                assert(pow_nat(word_base(), words@.len() + 1) == word_base() * pw);
                assert(pw * v0 == w * pw + word_base() * pw * v4) by (nonlinear_arith)
                    requires
                        v0 == v4 * word_base() + w,
                ;
                if v0 > 0 {
                    assert(v4 < v0) by (nonlinear_arith)
                        requires
                            v0 == v4 * word_base() + w,
                            v0 > 0,
                            word_base() > 1,
                    ;
                } else {
                    assert(v4 == 0) by (nonlinear_arith)
                        requires
                            v0 == v4 * word_base() + w,
                            v0 == 0,
                            word_base() > 1,
                    ;
                }
                if normal {
                    lemma_horner_lower(p_start, chunk_base());
                    lemma_pow_positive(chunk_base(), (l0 - 1) as nat);
                    if parts@.len() == 0 {
                        assert(parts@ =~= Seq::<u64>::empty());
                        assert(v4 == 0);
                    }
                }
            }
            words.push(w);
        }
        proof {
            let z = horner(parts@, chunk_base());
            assert(parts@ =~= Seq::<u64>::empty());
            assert(z == 0);
            let p = pow_nat(word_base(), words@.len());
            assert(p * 0 == 0) by (nonlinear_arith);
            assert(words_value(words@) == total);
        }
        let wl = words.len();
        if wl > 0 && words[wl - 1] == 0 {
            let ghost q = words@;
            words.pop();
            proof {
                assert(q =~= words@.push(0));
                lemma_horner_push(words@, 0, word_base());
                assert(0 * pow_nat(word_base(), words@.len()) == 0);
            }
        }
        proof {
            lemma_trimmed_digits(b);
        }
        Ok(BigInt { words })
    }
}

/// `10^14`: the base of the groups of decimal digits used for printing.
pub const TEN_14: u64 = 100000000000000;

/// The base of the printing representation, `10^14`.
pub open spec fn group_base() -> nat {
    100_000_000_000_000nat
}

/// Multiplies the number written in base `10^14` by `dwords` (least
/// significant group first) by `2^16` in place.
fn shift_dec_vec(dwords: &mut Vec<u64>)
    requires
        digits_below(old(dwords)@, group_base()),
    ensures
        digits_below(final(dwords)@, group_base()),
        horner(final(dwords)@, group_base()) == horner(old(dwords)@, group_base()) * 65536,
        no_top_zero(old(dwords)@) ==> no_top_zero(final(dwords)@),
        old(dwords)@.len() <= final(dwords)@.len() <= old(dwords)@.len() + 1,
{
    let ghost old_d = dwords@;
    let ghost n = old_d.len();
    let ghost g = group_base();
    let mut carry: u64 = 0;
    let mut i: usize = 0;
    proof {
        assert(pow_nat(g, 0) == 1);
        assert(dwords@.take(0) =~= Seq::<u64>::empty());
        assert(old_d.take(0) =~= Seq::<u64>::empty());
    }
    while i < dwords.len()
        invariant
            g == group_base(),
            n == old_d.len(),
            dwords@.len() == n,
            0 <= i <= n,
            carry <= 65536,
            digits_below(old_d, g),
            forall|j: int| i <= j < n ==> dwords@[j] == old_d[j],
            forall|j: int| 0 <= j < i ==> dwords@[j] < g,
            horner(dwords@.take(i as int), g) + carry * pow_nat(g, i as nat) == horner(
                old_d.take(i as int),
                g,
            ) * 65536,
        decreases n - i,
    {
        let d = dwords[i];
        proof {
            assert(d == old_d[i as int]);
            assert(d < g);
            assert(d * 65536 + carry <= 6553600000000000000) by (nonlinear_arith)
                requires
                    d < 100_000_000_000_000,
                    carry <= 65536,
            ;
        }
        let temp = d * TWO_16 + carry;
        let nd = temp % TEN_14;
        let nc = temp / TEN_14;
        let ghost before = dwords@;
        dwords.set(i, nd);
        proof {
            let p = pow_nat(g, i as nat);
            assert(nc <= 65536) by (nonlinear_arith)
                requires
                    nc == temp / 100_000_000_000_000,
                    temp <= 6553600000000000000,
            ;
            assert(nd + nc * g == temp) by (nonlinear_arith)
                requires
                    nd == temp % 100_000_000_000_000,
                    nc == temp / 100_000_000_000_000,
                    g == 100_000_000_000_000,
            ;
            assert(dwords@.take(i as int + 1) =~= before.take(i as int).push(nd));
            assert(dwords@.take(i as int) =~= before.take(i as int));
            lemma_horner_push(before.take(i as int), nd, g);
            assert(old_d.take(i as int + 1) =~= old_d.take(i as int).push(d));
            lemma_horner_push(old_d.take(i as int), d, g);
            assert(pow_nat(g, i as nat + 1) == g * p);
            let ho = horner(old_d.take(i as int), g);
            let hn = horner(before.take(i as int), g);
            assert(hn + nd * p + nc * (g * p) == (ho + d * p) * 65536) by (nonlinear_arith)
                requires
                    hn + carry * p == ho * 65536,
                    nd + nc * g == d * 65536 + carry,
            ;
        }
        carry = nc;
        i = i + 1;
    }
    proof {
        assert(dwords@.take(n as int) =~= dwords@);
        assert(old_d.take(n as int) =~= old_d);
    }
    if carry != 0 {
        let ghost before = dwords@;
        dwords.push(carry);
        proof {
            lemma_horner_push(before, carry, g);
        }
    } else {
        proof {
            let p = pow_nat(g, n);
            assert(0 * p == 0) by (nonlinear_arith);
            if no_top_zero(old_d) && n > 0 && dwords@.last() == 0 {
                lemma_top_zero_is_small(dwords@, g);
                lemma_horner_lower(old_d, g);
                let q = pow_nat(g, (n - 1) as nat);
                let h = horner(old_d, g);
                assert(h * 65536 >= q) by (nonlinear_arith)
                    requires
                        h >= q,
                ;
            }
        }
    }
}

/// Adds `add` to the number written in base `10^14` by `dwords` in place.
fn add_dec_vec(add: u64, dwords: &mut Vec<u64>)
    requires
        digits_below(old(dwords)@, group_base()),
        add < group_base(),
    ensures
        digits_below(final(dwords)@, group_base()),
        horner(final(dwords)@, group_base()) == horner(old(dwords)@, group_base()) + add,
        no_top_zero(old(dwords)@) ==> no_top_zero(final(dwords)@),
        old(dwords)@.len() <= final(dwords)@.len() <= old(dwords)@.len() + 1,
{
    let ghost old_d = dwords@;
    let ghost n = old_d.len();
    let ghost g = group_base();
    let mut carry: u64 = add;
    let mut i: usize = 0;
    proof {
        assert(pow_nat(g, 0) == 1);
        assert(dwords@.take(0) =~= Seq::<u64>::empty());
        assert(old_d.take(0) =~= Seq::<u64>::empty());
    }
    while i < dwords.len()
        invariant
            g == group_base(),
            n == old_d.len(),
            dwords@.len() == n,
            0 <= i <= n,
            carry < 100_000_000_000_000,
            digits_below(old_d, g),
            forall|j: int| i <= j < n ==> dwords@[j] == old_d[j],
            forall|j: int| 0 <= j < i ==> dwords@[j] < g,
            horner(dwords@.take(i as int), g) + carry * pow_nat(g, i as nat) == horner(
                old_d.take(i as int),
                g,
            ) + add,
        decreases n - i,
    {
        let d = dwords[i];
        proof {
            assert(d == old_d[i as int]);
            assert(d < g);
        }
        let temp = d + carry;
        let nd = temp % TEN_14;
        let nc = temp / TEN_14;
        let ghost before = dwords@;
        dwords.set(i, nd);
        proof {
            let p = pow_nat(g, i as nat);
            assert(nc <= 1) by (nonlinear_arith)
                requires
                    nc == temp / 100_000_000_000_000,
                    temp < 200_000_000_000_000,
            ;
            assert(nd + nc * g == temp) by (nonlinear_arith)
                requires
                    nd == temp % 100_000_000_000_000,
                    nc == temp / 100_000_000_000_000,
                    g == 100_000_000_000_000,
            ;
            assert(dwords@.take(i as int + 1) =~= before.take(i as int).push(nd));
            assert(dwords@.take(i as int) =~= before.take(i as int));
            lemma_horner_push(before.take(i as int), nd, g);
            assert(old_d.take(i as int + 1) =~= old_d.take(i as int).push(d));
            lemma_horner_push(old_d.take(i as int), d, g);
            assert(pow_nat(g, i as nat + 1) == g * p);
            let ho = horner(old_d.take(i as int), g);
            let hn = horner(before.take(i as int), g);
            assert(hn + nd * p + nc * (g * p) == ho + d * p + add) by (nonlinear_arith)
                requires
                    hn + carry * p == ho + add,
                    nd + nc * g == d + carry,
            ;
        }
        carry = nc;
        i = i + 1;
    }
    proof {
        assert(dwords@.take(n as int) =~= dwords@);
        assert(old_d.take(n as int) =~= old_d);
    }
    if carry != 0 {
        let ghost before = dwords@;
        dwords.push(carry);
        proof {
            lemma_horner_push(before, carry, g);
        }
    } else {
        proof {
            let p = pow_nat(g, n);
            assert(0 * p == 0) by (nonlinear_arith);
            if no_top_zero(old_d) && n > 0 && dwords@.last() == 0 {
                lemma_top_zero_is_small(dwords@, g);
                lemma_horner_lower(old_d, g);
            }
        }
    }
}

/// A digit sequence whose top digit is zero is worth less than
/// `base^(len - 1)`.
proof fn lemma_top_zero_is_small(s: Seq<u64>, base: nat)
    requires
        base > 0,
        s.len() > 0,
        s.last() == 0,
        digits_below(s, base),
    ensures
        horner(s, base) < pow_nat(base, (s.len() - 1) as nat),
{
    let init = s.drop_last();
    assert(s =~= init.push(0));
    lemma_horner_push(init, 0, base);
    assert(0 * pow_nat(base, init.len()) == 0) by (nonlinear_arith);
    assert(digits_below(init, base));
    lemma_horner_upper(init, base);
}

/// What `BigInt::to_string` writes for the word sequence `w`: `0` for no
/// words, nothing for words that are all zero, and otherwise the decimal
/// text of the value.
pub open spec fn display_text(w: Seq<u64>) -> Seq<u8> {
    if w.len() == 0 {
        seq![0x30u8]
    } else if words_value(w) == 0 {
        seq![]
    } else {
        decimal_text(words_value(w))
    }
}

impl BigInt {
    /// The decimal text of the number.
    pub fn to_string(&self) -> (s: String)
        ensures
            s@ == ascii_chars(display_text(self@)),
    {
        let n = self.words.len();
        if n == 0 {
            let mut zero: Vec<u8> = Vec::new();
            zero.push(0x30);
            proof {
                assert(zero@ =~= display_text(self@));
            }
            return ascii_string(zero);
        }
        let ghost w = self.words@;
        let ghost g = group_base();
        let mut dvec: Vec<u64> = Vec::new();
        let mut k: usize = n;
        proof {
            assert(w.subrange(n as int, n as int) =~= Seq::<u64>::empty());
        }
        while k > 0
            invariant
                w == self.words@,
                n == w.len(),
                g == group_base(),
                k <= n,
                digits_below(dvec@, g),
                no_top_zero(dvec@),
                horner(dvec@, g) == words_value(w.subrange(k as int, n as int)),
            decreases k,
        {
            k = k - 1;
            let word = self.words[k];
            let ghost v = horner(dvec@, g);
            shift_dec_vec(&mut dvec);
            let p3 = (word >> 48) % TWO_16;
            add_dec_vec(p3, &mut dvec);
            shift_dec_vec(&mut dvec);
            let p2 = (word >> 32) % TWO_16;
            add_dec_vec(p2, &mut dvec);
            shift_dec_vec(&mut dvec);
            let p1 = (word >> 16) % TWO_16;
            add_dec_vec(p1, &mut dvec);
            shift_dec_vec(&mut dvec);
            let p0 = (word >> 0) % TWO_16;
            add_dec_vec(p0, &mut dvec);
            proof {
                assert(word == p3 * 0x1_0000_0000_0000 + p2 * 0x1_0000_0000 + p1 * 0x10000 + p0)
                    by (bit_vector)
                    requires
                        p3 == (word >> 48) % 65536,
                        p2 == (word >> 32) % 65536,
                        p1 == (word >> 16) % 65536,
                        p0 == (word >> 0) % 65536,
                ;
                let sub = w.subrange(k as int, n as int);
                assert(sub.drop_first() =~= w.subrange(k as int + 1, n as int));
                assert(sub[0] == word);
                assert(((v * 65536 + p3) * 65536 + p2) * 65536 * 65536 + p1 * 65536 + p0 == word
                    + word_base() * v) by (nonlinear_arith)
                    requires
                        word == p3 * 0x1_0000_0000_0000 + p2 * 0x1_0000_0000 + p1 * 0x10000 + p0,
                        word_base() == 0x1_0000_0000_0000_0000nat,
                ;
            }
        }
        proof {
            assert(w.subrange(0, n as int) =~= w);
        }
        let mut out: Vec<u8> = Vec::new();
        let dn = dvec.len();
        let mut j: usize = dn;
        proof {
            assert(dvec@.subrange(dn as int, dn as int) =~= Seq::<u64>::empty());
        }
        while j > 0
            invariant
                dn == dvec@.len(),
                j <= dn,
                digits_below(dvec@, group_base()),
                no_top_zero(dvec@),
                j < dn ==> out@ == decimal_text(horner(dvec@.subrange(j as int, dn as int), group_base())),
                j == dn ==> out@ == Seq::<u8>::empty(),
                all_digits(out@),
            decreases j,
        {
            j = j - 1;
            let d = dvec[j];
            let ghost before = out@;
            let ghost sub = dvec@.subrange(j as int, dn as int);
            let ghost rest = dvec@.subrange(j as int + 1, dn as int);
            proof {
                assert(sub.drop_first() =~= rest);
                assert(sub[0] == d);
            }
            if j == dn - 1 {
                push_decimal(&mut out, d);
                proof {
                    assert(rest =~= Seq::<u64>::empty());
                    assert(horner(rest, group_base()) == 0);
                    assert(group_base() * 0 == 0);
                    lemma_decimal_text_digits(d as nat);
                    assert(out@ =~= decimal_text(d as nat));
                }
            } else {
                push_fixed(&mut out, d, 14);
                proof {
                    assert(rest.last() == dvec@.last());
                    lemma_horner_lower(rest, group_base());
                    lemma_pow_positive(group_base(), (rest.len() - 1) as nat);
                    let a = horner(rest, group_base());
                    lemma_pow10_14();
                    lemma_text_split(a, d as nat, 14);
                    assert(a * pow_nat(10, 14) + d == d + group_base() * a) by (nonlinear_arith)
                        requires
                            pow_nat(10, 14) == group_base(),
                    ;
                    lemma_fixed_digits_digits(d as nat, 14);
                    assert(all_digits(out@)) by {
                        assert forall|i: int| 0 <= i < out@.len() implies is_digit(
                            #[trigger] out@[i],
                        ) by {
                            if i < before.len() {
                                assert(out@[i] == before[i]);
                            } else {
                                assert(out@[i] == fixed_digits(d as nat, 14)[i - before.len()]);
                            }
                        }
                    }
                }
            }
        }
        proof {
            assert(dvec@.subrange(0, dn as int) =~= dvec@);
            if dn == 0 {
                assert(horner(dvec@, group_base()) == 0);
            } else {
                lemma_horner_lower(dvec@, group_base());
                lemma_pow_positive(group_base(), (dn - 1) as nat);
            }
            assert(out@ =~= display_text(self@));
            assert(all_ascii(out@));
        }
        ascii_string(out)
    }
}

proof fn lemma_pow10_14()
    ensures
        pow_nat(10, 14) == group_base(),
{
    reveal_with_fuel(pow_nat, 15);
}

/// The word count of the sum as `BigInt::add` produces it: that of the
/// longer operand, plus one when the sum needs it.
pub open spec fn sum_len(a: Seq<u64>, b: Seq<u64>) -> nat {
    let m = if a.len() >= b.len() {
        a.len()
    } else {
        b.len()
    };
    if words_value(a) + words_value(b) >= pow_nat(word_base(), m) {
        m + 1
    } else {
        m
    }
}

/// The words `BigInt::add` produces for `a + b`.
pub open spec fn sum_words(a: Seq<u64>, b: Seq<u64>) -> Seq<u64> {
    choose|w: Seq<u64>|
        words_value(w) == words_value(a) + words_value(b) && w.len() == sum_len(a, b)
}

/// Word sequences of the same length and value are equal.
pub proof fn lemma_words_unique(a: Seq<u64>, b: Seq<u64>)
    requires
        a.len() == b.len(),
        words_value(a) == words_value(b),
    ensures
        a == b,
{
    assert(digits_below(a, word_base()));
    assert(digits_below(b, word_base()));
    crate::radix::lemma_horner_injective(a, b, word_base());
}

/// Normalized word sequences of the same value are equal.
pub proof fn lemma_normalized_unique(a: Seq<u64>, b: Seq<u64>)
    requires
        no_top_zero(a),
        no_top_zero(b),
        words_value(a) == words_value(b),
    ensures
        a == b,
{
    assert(digits_below(a, word_base()));
    assert(digits_below(b, word_base()));
    if a.len() < b.len() {
        lemma_horner_upper(a, word_base());
        lemma_horner_lower(b, word_base());
        lemma_pow_monotone(word_base(), a.len(), (b.len() - 1) as nat);
    } else if a.len() > b.len() {
        lemma_horner_upper(b, word_base());
        lemma_horner_lower(a, word_base());
        lemma_pow_monotone(word_base(), b.len(), (a.len() - 1) as nat);
    } else {
        lemma_words_unique(a, b);
    }
}

/// The normalized words of the number a decimal digit text spells.
pub open spec fn digit_words(t: Seq<u8>) -> Seq<u64> {
    choose|w: Seq<u64>| no_top_zero(w) && words_value(w) == digits_value(t)
}

impl BigInt {
    /// A copy of this number.
    pub fn duplicate(&self) -> (r: Self)
        ensures
            r@ == self@,
    {
        BigInt { words: self.words.clone() }
    }

    /// The number of words.
    pub(crate) fn word_count(&self) -> (r: usize)
        ensures
            r == self@.len(),
    {
        self.words.len()
    }

    /// Adds `other`, giving the words that `sum_words` names.
    pub(crate) fn add_to(&mut self, other: Self)
        requires
            old(self)@.len() < usize::MAX,
            other@.len() < usize::MAX,
        ensures
            final(self)@ == sum_words(old(self)@, other@),
    {
        let ghost a = self@;
        let ghost b = other@;
        self.add(other);
        proof {
            let w = sum_words(a, b);
            assert(words_value(self@) == words_value(a) + words_value(b) && self@.len() == sum_len(a, b));
            lemma_words_unique(self@, w);
        }
    }

    /// Reads a text of decimal digits, giving the words `digit_words` names.
    pub fn parse_digits(s: &str) -> (r: Self)
        requires
            all_digits(s.spec_bytes()),
        ensures
            r@ == digit_words(s.spec_bytes()),
    {
        proof {
            vstd::utf8::encode_utf8_valid_utf8(s@);
            lemma_ascii_cuts_ok(s.spec_bytes());
        }
        match Self::parse(s) {
            Ok(b) => {
                proof {
                    let w = digit_words(s.spec_bytes());
                    assert(no_top_zero(b@) && words_value(b@) == digits_value(s.spec_bytes()));
                    lemma_normalized_unique(b@, w);
                }
                b
            },
            Err(_) => {
                proof {
                    assert(false);
                }
                BigInt { words: Vec::new() }
            },
        }
    }
}

/// A digit string that does not start with `'0'` is the decimal text of
/// its value.
proof fn lemma_decimal_text_of_digits(t: Seq<u8>)
    requires
        all_digits(t),
        t.len() > 0,
        t[0] != 0x30,
    ensures
        decimal_text(digits_value(t)) == t,
        digits_value(t) > 0,
    decreases t.len(),
{
    let d = t.last();
    assert(is_digit(t[t.len() - 1]));
    if t.len() == 1 {
        assert(t.drop_last() =~= Seq::<u8>::empty());
        assert(digits_value(t.drop_last()) == 0);
        assert(digits_value(t) == (d - 0x30) as nat);
        assert(decimal_text(digits_value(t)) =~= t);
    } else {
        let p = t.drop_last();
        assert(all_digits(p)) by {
            assert forall|i: int| 0 <= i < p.len() implies is_digit(#[trigger] p[i]) by {
                assert(p[i] == t[i]);
            }
        }
        assert(p[0] == t[0]);
        lemma_decimal_text_of_digits(p);
        let v = digits_value(t);
        assert(v == digits_value(p) * 10 + (d - 0x30) as nat);
        assert(v / 10 == digits_value(p) && v % 10 == (d - 0x30) as nat);
        assert(decimal_text(v) =~= decimal_text(digits_value(p)).push((0x30 + v % 10) as u8));
        assert(decimal_text(v) =~= t);
    }
}

/// Printing a number read from a text of digits gives the text back,
/// without its leading zeros, or `0` where nothing else is left.
pub proof fn lemma_parse_print_round_trip(s: Seq<u8>, b: BigInt)
    requires
        all_digits(s),
        b.value() == digits_value(s),
        b.normalized(),
    ensures
        display_text(b@) == (if trim_zeros(s).len() == 0 {
            seq![0x30u8]
        } else {
            trim_zeros(s)
        }),
{
    lemma_leading_zeros(s);
    let k = leading_zeros(s) as int;
    let t = trim_zeros(s);
    crate::decimal::lemma_digits_leading_zeros(s, k);
    if t.len() == 0 {
        assert(t =~= s.subrange(k, s.len() as int));
        assert(digits_value(t) == 0);
        if b@.len() > 0 {
            crate::radix::lemma_horner_lower(b@, word_base());
            crate::radix::lemma_pow_positive(word_base(), (b@.len() - 1) as nat);
        }
    } else {
        assert(all_digits(t)) by {
            assert forall|i: int| 0 <= i < t.len() implies is_digit(#[trigger] t[i]) by {
                assert(t[i] == s[k + i]);
            }
        }
        assert(t[0] == s[k]);
        lemma_decimal_text_of_digits(t);
        assert(b@.len() > 0);
        assert(display_text(b@) == decimal_text(digits_value(t)));
    }
}

/// Adding is commutative word for word: words that hold `a + b` in the
/// length `BigInt::add` gives them, and words that hold `b + a` likewise, are
/// the same words.
pub proof fn lemma_add_commutes(a: Seq<u64>, b: Seq<u64>, ab: Seq<u64>, ba: Seq<u64>)
    requires
        words_value(ab) == words_value(a) + words_value(b),
        ab.len() == sum_len(a, b),
        words_value(ba) == words_value(b) + words_value(a),
        ba.len() == sum_len(b, a),
    ensures
        ab == ba,
{
    lemma_words_unique(ab, ba);
}

/// Adding no words leaves the words as they were.
pub proof fn lemma_add_nothing(a: Seq<u64>, r: Seq<u64>)
    requires
        words_value(r) == words_value(a) + words_value(Seq::<u64>::empty()),
        r.len() == sum_len(a, Seq::<u64>::empty()),
    ensures
        r == a,
{
    assert(words_value(Seq::<u64>::empty()) == 0);
    assert(digits_below(a, word_base()));
    lemma_horner_upper(a, word_base());
    lemma_words_unique(r, a);
}

/// The decimal text of `n` reads back as `n`.
proof fn lemma_decimal_text_value(n: nat)
    ensures
        digits_value(decimal_text(n)) == n,
    decreases n,
{
    let t = decimal_text(n);
    if n < 10 {
        assert(t.drop_last() =~= Seq::<u8>::empty());
        assert(t.last() == (0x30 + n) as u8);
        assert(digits_value(t) == digits_value(t.drop_last()) * 10 + (t.last() - 0x30) as nat);
    } else {
        lemma_decimal_text_value(n / 10);
        assert(t.drop_last() =~= decimal_text(n / 10));
        assert(t.last() == (0x30 + n % 10) as u8);
        assert(digits_value(t) == digits_value(t.drop_last()) * 10 + (t.last() - 0x30) as nat);
        assert(n == (n / 10) * 10 + n % 10);
    }
}

/// Reading back the printed text of a normalized number gives its words:
/// the text is all digits, and a normalized number of its value has the
/// same words.
pub proof fn lemma_print_parse_round_trip(b: BigInt, r: BigInt)
    requires
        b.normalized(),
        r.normalized(),
        r.value() == digits_value(display_text(b@)),
    ensures
        all_digits(display_text(b@)),
        r@ == b@,
{
    if b@.len() == 0 {
        assert(display_text(b@) =~= seq![0x30u8]);
        assert(display_text(b@).drop_last() =~= Seq::<u8>::empty());
        assert(is_digit(0x30u8));
        let z = display_text(b@);
        assert(z.last() == 0x30u8);
        assert(digits_value(z.drop_last()) == 0);
        assert(digits_value(z) == digits_value(z.drop_last()) * 10 + (z.last() - 0x30) as nat);
        assert(digits_value(z) == 0);
        assert(words_value(b@) == 0);
    } else {
        crate::radix::lemma_horner_lower(b@, word_base());
        crate::radix::lemma_pow_positive(word_base(), (b@.len() - 1) as nat);
        assert(words_value(b@) > 0);
        assert(display_text(b@) == decimal_text(words_value(b@)));
        lemma_decimal_text_digits(words_value(b@));
        lemma_decimal_text_value(words_value(b@));
    }
    lemma_normalized_unique(r@, b@);
}

/// The `len` words (least significant first) of a number below
/// `word_base()^len`.
spec fn to_words(n: nat, len: nat) -> Seq<u64>
    decreases len,
{
    if len == 0 {
        Seq::empty()
    } else {
        seq![(n % word_base()) as u64] + to_words(n / word_base(), (len - 1) as nat)
    }
}

proof fn lemma_to_words(n: nat, len: nat)
    requires
        n < pow_nat(word_base(), len),
    ensures
        to_words(n, len).len() == len,
        words_value(to_words(n, len)) == n,
    decreases len,
{
    let bs = word_base();
    if len == 0 {
        assert(pow_nat(bs, 0) == 1);
    } else {
        let q = n / bs;
        let p = pow_nat(bs, (len - 1) as nat);
        assert(q < p) by (nonlinear_arith)
            requires
                n < bs * p,
                q == n / bs,
                bs > 0,
        ;
        lemma_to_words(q, (len - 1) as nat);
        let w = to_words(n, len);
        assert(w.drop_first() =~= to_words(q, (len - 1) as nat));
        assert(w[0] == (n % bs) as u64);
        assert(n % bs + bs * q == n) by (nonlinear_arith)
            requires
                q == n / bs,
                bs > 0,
        ;
    }
}

/// The sum of two word sequences has words of the length `sum_len` gives:
/// `sum_words` names words that hold exactly the sum.
pub proof fn lemma_sum_words(a: Seq<u64>, b: Seq<u64>)
    ensures
        words_value(sum_words(a, b)) == words_value(a) + words_value(b),
        sum_words(a, b).len() == sum_len(a, b),
{
    let bs = word_base();
    let m = if a.len() >= b.len() { a.len() } else { b.len() };
    let n = words_value(a) + words_value(b);
    assert(digits_below(a, bs));
    assert(digits_below(b, bs));
    lemma_horner_upper(a, bs);
    lemma_horner_upper(b, bs);
    lemma_pow_monotone(bs, a.len(), m);
    lemma_pow_monotone(bs, b.len(), m);
    let pm = pow_nat(bs, m);
    assert(pow_nat(bs, m + 1) == bs * pm);
    assert(n < bs * pm) by (nonlinear_arith)
        requires
            n < 2 * pm,
            bs >= 2,
    ;
    let l = sum_len(a, b);
    assert(n < pow_nat(bs, l));
    lemma_to_words(n, l);
    let w = to_words(n, l);
    assert(words_value(w) == n && w.len() == l);
}

} // verus!
