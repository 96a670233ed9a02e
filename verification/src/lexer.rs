//! Splitting lambda-calculus source lines into tokens: runs of ASCII letters
//! and digits, and single parentheses; every other byte separates tokens.
use vstd::prelude::*;
use vstd::string::StringSliceAdditionalSpecFns;
use crate::text::{all_ascii, ascii_chars, ascii_string};
use crate::decimal::{all_digits, is_digit};

verus! {

/// An ASCII letter or digit.
pub open spec fn is_word_byte(c: u8) -> bool {
    (0x61 <= c <= 0x7a) || (0x41 <= c <= 0x5a) || (0x30 <= c <= 0x39)
}

/// `(` or `)`.
pub open spec fn is_paren(c: u8) -> bool {
    c == 0x28 || c == 0x29
}

/// The length of the run of letters and digits at the start of `b`.
pub open spec fn word_run(b: Seq<u8>) -> nat
    decreases b.len(),
{
    if b.len() > 0 && is_word_byte(b[0]) {
        1 + word_run(b.drop_first())
    } else {
        0
    }
}

/// The tokens of `b`, in order.
pub open spec fn lex_tokens(b: Seq<u8>) -> Seq<Seq<u8>>
    decreases b.len(),
{
    if b.len() == 0 {
        seq![]
    } else if is_word_byte(b[0]) {
        proof {
            lemma_word_run(b);
        }
        seq![b.take(word_run(b) as int)] + lex_tokens(b.skip(word_run(b) as int))
    } else if is_paren(b[0]) {
        seq![b.take(1)] + lex_tokens(b.skip(1))
    } else {
        lex_tokens(b.skip(1))
    }
}

pub proof fn lemma_word_run(b: Seq<u8>)
    ensures
        word_run(b) <= b.len(),
        b.len() > 0 && is_word_byte(b[0]) ==> word_run(b) >= 1,
        forall|j: int| 0 <= j < word_run(b) ==> is_word_byte(#[trigger] b[j]),
        word_run(b) < b.len() ==> !is_word_byte(b[word_run(b) as int]),
    decreases b.len(),
{
    if b.len() > 0 && is_word_byte(b[0]) {
        lemma_word_run(b.drop_first());
        assert forall|j: int| 0 <= j < word_run(b) implies is_word_byte(#[trigger] b[j]) by {
            if j > 0 {
                assert(b[j] == b.drop_first()[j - 1]);
            }
        }
    }
}

proof fn lemma_word_run_exact(b: Seq<u8>, k: int)
    requires
        0 <= k <= b.len(),
        forall|j: int| 0 <= j < k ==> is_word_byte(#[trigger] b[j]),
        k == b.len() || !is_word_byte(b[k]),
    ensures
        word_run(b) == k,
    decreases k,
{
    if k > 0 {
        let d = b.drop_first();
        assert forall|j: int| 0 <= j < k - 1 implies is_word_byte(#[trigger] d[j]) by {
            assert(d[j] == b[j + 1]);
        }
        assert(is_word_byte(b[0]));
        lemma_word_run_exact(d, k - 1);
    }
}

/// Tokens of a token run that ends before `pos`: the run `b[start..pos]`
/// followed by the tokens from `pos` on.
proof fn lemma_lex_run(b: Seq<u8>, start: int, pos: int)
    requires
        0 <= start < pos <= b.len(),
        forall|j: int| start <= j < pos ==> is_word_byte(#[trigger] b[j]),
        pos == b.len() || !is_word_byte(b[pos]),
    ensures
        lex_tokens(b.skip(start)) == seq![b.subrange(start, pos)] + lex_tokens(b.skip(pos)),
{
    let t = b.skip(start);
    assert forall|j: int| 0 <= j < pos - start implies is_word_byte(#[trigger] t[j]) by {
        assert(t[j] == b[start + j]);
    }
    if pos < b.len() {
        assert(t[pos - start] == b[pos]);
    }
    lemma_word_run_exact(t, pos - start);
    assert(t[0] == b[start]);
    assert(t.take(pos - start) =~= b.subrange(start, pos));
    assert(t.skip(pos - start) =~= b.skip(pos));
}

/// Splits `buf` into tokens.
pub fn tokenize(buf: &str) -> (r: Vec<String>)
    ensures
        r@.len() == lex_tokens(buf.spec_bytes()).len(),
        forall|i: int|
            0 <= i < r@.len() ==> (#[trigger] r@[i])@ == ascii_chars(lex_tokens(buf.spec_bytes())[i]),
        forall|i: int|
            0 <= i < r@.len() ==> all_ascii(#[trigger] lex_tokens(buf.spec_bytes())[i]),
{
    let bytes = buf.as_bytes();
    let ghost b = bytes@;
    let n = bytes.len();
    let mut results: Vec<String> = Vec::new();
    let ghost mut done: Seq<Seq<u8>> = seq![];
    let mut start: usize = 0;
    let mut pos: usize = 0;
    proof {
        assert(b.skip(0) =~= b);
        assert(done + lex_tokens(b) =~= lex_tokens(b));
    }
    while pos < n
        invariant
            b == bytes@,
            b == buf.spec_bytes(),
            n == b.len(),
            start <= pos <= n,
            forall|j: int| start <= j < pos ==> is_word_byte(#[trigger] b[j]),
            lex_tokens(b) == done + lex_tokens(b.skip(start as int)),
            results@.len() == done.len(),
            forall|i: int| 0 <= i < done.len() ==> all_ascii(#[trigger] done[i]),
            forall|i: int| 0 <= i < done.len() ==> (#[trigger] results@[i])@ == ascii_chars(done[i]),
        decreases n - pos,
    {
        let c = bytes[pos];
        if (0x61 <= c && c <= 0x7a) || (0x41 <= c && c <= 0x5a) || (0x30 <= c && c <= 0x39) {
            pos = pos + 1;
        } else {
            if start < pos {
                let word = take_token(bytes, start, pos);
                let ghost prev = results@;
                results.push(word);
                proof {
                    lemma_lex_run(b, start as int, pos as int);
                    let tok = b.subrange(start as int, pos as int);
                    assert(done.push(tok) + lex_tokens(b.skip(pos as int)) =~= done + (seq![tok]
                        + lex_tokens(b.skip(pos as int))));
                    done = done.push(tok);
                    assert forall|i: int| 0 <= i < done.len() implies (#[trigger] results@[i])@
                        == ascii_chars(done[i]) by {
                        if i < done.len() - 1 {
                            assert(results@[i] == prev[i]);
                        }
                    }
                }
            } else {
                proof {
                    assert(start == pos);
                }
            }
            let ghost t = b.skip(pos as int);
            proof {
                assert(t[0] == c);
                assert(t.skip(1) =~= b.skip(pos + 1));
            }
            if c == 0x28 || c == 0x29 {
                let paren = take_token(bytes, pos, pos + 1);
                let ghost prev = results@;
                results.push(paren);
                proof {
                    let tok = b.subrange(pos as int, pos + 1);
                    assert(t.take(1) =~= tok);
                    assert(done.push(tok) + lex_tokens(b.skip(pos + 1)) =~= done + (seq![tok]
                        + lex_tokens(b.skip(pos + 1))));
                    done = done.push(tok);
                    assert forall|i: int| 0 <= i < done.len() implies (#[trigger] results@[i])@
                        == ascii_chars(done[i]) by {
                        if i < done.len() - 1 {
                            assert(results@[i] == prev[i]);
                        }
                    }
                }
            }
            pos = pos + 1;
            start = pos;
        }
    }
    if start < pos {
        let word = take_token(bytes, start, pos);
        let ghost prev = results@;
        results.push(word);
        proof {
            lemma_lex_run(b, start as int, pos as int);
            let tok = b.subrange(start as int, pos as int);
            assert(b.skip(pos as int) =~= Seq::<u8>::empty());
            assert(lex_tokens(b.skip(pos as int)) =~= Seq::<Seq<u8>>::empty());
            assert(done.push(tok) =~= done + (seq![tok] + lex_tokens(b.skip(pos as int))));
            done = done.push(tok);
            assert forall|i: int| 0 <= i < done.len() implies (#[trigger] results@[i])@
                == ascii_chars(done[i]) by {
                if i < done.len() - 1 {
                    assert(results@[i] == prev[i]);
                }
            }
        }
    } else {
        proof {
            assert(b.skip(start as int) =~= Seq::<u8>::empty());
            assert(lex_tokens(b.skip(start as int)) =~= Seq::<Seq<u8>>::empty());
            assert(done + Seq::<Seq<u8>>::empty() =~= done);
        }
    }
    proof {
        assert(lex_tokens(b) =~= done);
    }
    results
}

/// The token `b[start..end]` as a string; tokens are ASCII.
fn take_token(bytes: &[u8], start: usize, end: usize) -> (s: String)
    requires
        start < end <= bytes@.len(),
        forall|j: int| start <= j < end ==> is_word_byte(#[trigger] bytes@[j]) || is_paren(bytes@[j]),
    ensures
        s@ == ascii_chars(bytes@.subrange(start as int, end as int)),
        all_ascii(bytes@.subrange(start as int, end as int)),
{
    let piece = vstd::slice::slice_to_vec(vstd::slice::slice_subrange(bytes, start, end));
    proof {
        assert forall|i: int| 0 <= i < piece@.len() implies #[trigger] piece@[i] <= 0x7f by {
            assert(piece@[i] == bytes@[start + i]);
        }
    }
    ascii_string(piece)
}

/// Whether every byte of `s` is an ASCII digit.
pub fn is_digits(s: &str) -> (r: bool)
    ensures
        r == all_digits(s.spec_bytes()),
{
    let bytes = s.as_bytes();
    let mut i: usize = 0;
    while i < bytes.len()
        invariant
            bytes@ == s.spec_bytes(),
            i <= bytes@.len(),
            forall|j: int| 0 <= j < i ==> is_digit(#[trigger] bytes@[j]),
        decreases bytes@.len() - i,
    {
        let c = bytes[i];
        if c < 0x30 || c > 0x39 {
            return false;
        }
        i = i + 1;
    }
    true
}

/// There are no more tokens than bytes.
pub proof fn lemma_token_count(b: Seq<u8>)
    ensures
        lex_tokens(b).len() <= b.len(),
    decreases b.len(),
{
    if b.len() > 0 {
        if is_word_byte(b[0]) {
            lemma_word_run(b);
            lemma_token_count(b.skip(word_run(b) as int));
        } else {
            lemma_token_count(b.skip(1));
        }
    }
}

/// A byte that belongs to some token.
pub open spec fn token_byte(c: u8) -> bool {
    is_word_byte(c) || is_paren(c)
}

/// A token is a single parenthesis or a non-empty run of letters and
/// digits.
pub open spec fn token_shape(t: Seq<u8>) -> bool {
    ||| (t.len() == 1 && is_paren(t[0]))
    ||| (t.len() > 0 && forall|j: int| 0 <= j < t.len() ==> is_word_byte(#[trigger] t[j]))
}

proof fn lemma_filter_keeps_all(s: Seq<u8>)
    requires
        forall|i: int| 0 <= i < s.len() ==> token_byte(#[trigger] s[i]),
    ensures
        s.filter(|c: u8| token_byte(c)) == s,
    decreases s.len(),
{
    reveal(Seq::filter);
    if s.len() > 0 {
        lemma_filter_keeps_all(s.drop_last());
        assert(token_byte(s[s.len() - 1]));
        assert(s.drop_last().push(s.last()) =~= s);
    }
}

/// Lexing loses and adds nothing but separators: the tokens, put back
/// together in order, are the bytes of the line that are letters, digits
/// or parentheses; and every token is one parenthesis or a non-empty run of
/// letters and digits.
pub proof fn lemma_tokens_cover_line(b: Seq<u8>)
    ensures
        lex_tokens(b).flatten() == b.filter(|c: u8| token_byte(c)),
        forall|i: int| 0 <= i < lex_tokens(b).len() ==> token_shape(#[trigger] lex_tokens(b)[i]),
    decreases b.len(),
{
    broadcast use vstd::seq::Seq::filter_distributes_over_add;
    reveal(Seq::filter);
    if b.len() > 0 {
        let k: int = if is_word_byte(b[0]) {
            lemma_word_run(b);
            word_run(b) as int
        } else {
            1
        };
        let t = b.take(k);
        let rest = b.skip(k);
        lemma_tokens_cover_line(rest);
        assert(b =~= t + rest);
        assert(b.filter(|c: u8| token_byte(c)) == t.filter(|c: u8| token_byte(c)) + rest.filter(|c: u8| token_byte(c)));
        if is_word_byte(b[0]) || is_paren(b[0]) {
            assert forall|i: int| 0 <= i < t.len() implies token_byte(#[trigger] t[i]) by {
                if is_word_byte(b[0]) {
                    assert(is_word_byte(b[i]));
                }
            }
            lemma_filter_keeps_all(t);
            let toks = lex_tokens(b);
            assert(toks == seq![t] + lex_tokens(rest));
            assert((seq![t] + lex_tokens(rest)).drop_first() =~= lex_tokens(rest));
            assert(toks.first() == t);
            assert forall|i: int| 0 <= i < toks.len() implies token_shape(#[trigger] toks[i]) by {
                if i > 0 {
                    assert(toks[i] == lex_tokens(rest)[i - 1]);
                } else if is_word_byte(b[0]) {
                    assert forall|j: int| 0 <= j < t.len() implies is_word_byte(#[trigger] t[j]) by {
                        assert(t[j] == b[j]);
                    }
                }
            }
        } else {
            assert(t =~= seq![b[0]]);
            assert(t.drop_last() =~= Seq::<u8>::empty());
            assert(t.last() == b[0]);
            assert(!token_byte(t.last()));
            assert(t.drop_last().filter(|c: u8| token_byte(c)) =~= Seq::<u8>::empty());
            assert(t.filter(|c: u8| token_byte(c)) =~= Seq::<u8>::empty());
            assert(t.filter(|c: u8| token_byte(c)) + rest.filter(|c: u8| token_byte(c)) =~= rest.filter(|c: u8| token_byte(c)));
        }
    } else {
        assert(b.filter(|c: u8| token_byte(c)) =~= Seq::<u8>::empty());
    }
}

} // verus!
