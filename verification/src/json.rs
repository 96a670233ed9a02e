//! A reader for a fixed JSON-like layout of messages: each entry is a quoted
//! 64-byte id followed by a quoted message string with JSON escapes.
use vstd::prelude::*;
use vstd::utf8::{
    decode_first_codepoint, decode_utf8, encode_scalar, has_width_1_encoding,
    has_width_2_encoding, has_width_3_encoding, is_scalar, last_continuation_byte,
    leading_byte_width_1, leading_byte_width_2, leading_byte_width_3, length_of_first_scalar,
    pop_first_scalar, second_last_continuation_byte, valid_first_scalar, valid_utf8,
};
use vstd::string::StringSliceAdditionalSpecFns;
use crate::text::string_from_utf8;

verus! {

broadcast use vstd::utf8::valid_utf8_concat;

/// `"`
pub open spec fn is_quote(b: u8) -> bool {
    b == 0x22
}

/// `"` or `\`.
pub open spec fn is_quote_or_slash(b: u8) -> bool {
    b == 0x22 || b == 0x5c
}

/// The first index of a quote, if any.
pub open spec fn first_quote(s: Seq<u8>) -> Option<int>
    decreases s.len(),
{
    if s.len() == 0 {
        None
    } else if is_quote(s[0]) {
        Some(0int)
    } else {
        match first_quote(s.drop_first()) {
            Some(i) => Some(i + 1),
            None => None,
        }
    }
}

/// The first index of a quote or backslash, if any.
pub open spec fn first_special(s: Seq<u8>) -> Option<int>
    decreases s.len(),
{
    if s.len() == 0 {
        None
    } else if is_quote_or_slash(s[0]) {
        Some(0int)
    } else {
        match first_special(s.drop_first()) {
            Some(i) => Some(i + 1),
            None => None,
        }
    }
}

pub proof fn lemma_first_quote(s: Seq<u8>)
    ensures
        first_quote(s) matches Some(i) ==> 0 <= i < s.len() && is_quote(s[i]) && (forall|j: int|
            0 <= j < i ==> !is_quote(#[trigger] s[j])),
        first_quote(s) is None ==> forall|j: int| 0 <= j < s.len() ==> !is_quote(#[trigger] s[j]),
    decreases s.len(),
{
    if s.len() > 0 {
        lemma_first_quote(s.drop_first());
        assert forall|j: int| 0 < j < s.len() implies s[j] == s.drop_first()[j - 1] by {}
    }
}

pub proof fn lemma_first_special(s: Seq<u8>)
    ensures
        first_special(s) matches Some(i) ==> 0 <= i < s.len() && is_quote_or_slash(s[i]) && (
        forall|j: int| 0 <= j < i ==> !is_quote_or_slash(#[trigger] s[j])),
        first_special(s) is None ==> forall|j: int|
            0 <= j < s.len() ==> !is_quote_or_slash(#[trigger] s[j]),
    decreases s.len(),
{
    if s.len() > 0 {
        lemma_first_special(s.drop_first());
        assert forall|j: int| 0 < j < s.len() implies s[j] == s.drop_first()[j - 1] by {}
    }
}

/// A hexadecimal digit's value, if the byte is one.
pub open spec fn hex_digit(b: u8) -> Option<nat> {
    if 0x30 <= b <= 0x39 {
        Some((b - 0x30) as nat)
    } else if 0x61 <= b <= 0x66 {
        Some((b - 0x61 + 10) as nat)
    } else if 0x41 <= b <= 0x46 {
        Some((b - 0x41 + 10) as nat)
    } else {
        None
    }
}

/// Every byte is a hexadecimal digit.
pub open spec fn all_hex(s: Seq<u8>) -> bool {
    forall|i: int| 0 <= i < s.len() ==> (#[trigger] hex_digit(s[i])) is Some
}

/// The number written by hexadecimal digits, most significant first.
pub open spec fn hex_value(s: Seq<u8>) -> nat
    decreases s.len(),
{
    if s.len() == 0 {
        0
    } else {
        hex_value(s.drop_last()) * 16 + hex_digit(s.last()).unwrap()
    }
}

/// What `u32::from_str_radix(_, 16)` accepts for the four bytes after `\u`:
/// an optional `+` and then hexadecimal digits.
pub open spec fn hex4_ok(h: Seq<u8>) -> bool {
    ||| all_hex(h)
    ||| (h[0] == 0x2b && all_hex(h.drop_first()))
}

/// The value of the four bytes after `\u`.
pub open spec fn hex4_value(h: Seq<u8>) -> nat {
    if h[0] == 0x2b {
        hex_value(h.drop_first())
    } else {
        hex_value(h)
    }
}

/// The character that `\e` stands for, as a code point.
pub open spec fn escape_code(e: u8) -> u32 {
    if e == 0x62 {
        8
    } else if e == 0x66 {
        0x0c
    } else if e == 0x6e {
        0x0a
    } else if e == 0x72 {
        0x0d
    } else if e == 0x74 {
        0x09
    } else {
        e as u32
    }
}

/// The body of a string after its opening quote: the number of bytes up to
/// and including the closing quote, and the UTF-8 bytes of the text, or
/// `None` where the text is not readable (a missing closing quote, an escape
/// cut short, a bad `\u` escape, or raw bytes that are not UTF-8).
pub open spec fn string_body(s: Seq<u8>) -> Option<(nat, Seq<u8>)>
    decreases s.len(),
{
    match first_special(s) {
        None => None,
        Some(i) => {
            proof {
                lemma_first_special(s);
            }
            let piece = s.take(i);
            if !valid_utf8(piece) {
                None
            } else if is_quote(s[i]) {
                Some(((i + 1) as nat, piece))
            } else if i + 1 >= s.len() {
                None
            } else if s[i + 1] == 0x75 {
                if i + 6 > s.len() {
                    None
                } else {
                    let h = s.subrange(i + 2, i + 6);
                    if !hex4_ok(h) || !is_scalar(hex4_value(h) as u32) {
                        None
                    } else {
                        match string_body(s.skip(i + 6)) {
                            None => None,
                            Some((n, m)) => Some(
                                (
                                    (i + 6 + n) as nat,
                                    piece + encode_scalar(hex4_value(h) as u32) + m,
                                ),
                            ),
                        }
                    }
                }
            } else {
                match string_body(s.skip(i + 2)) {
                    None => None,
                    Some((n, m)) => Some(
                        ((i + 2 + n) as nat, piece + encode_scalar(escape_code(s[i + 1])) + m),
                    ),
                }
            }
        },
    }
}

/// The entries of a document: for each, the 64 id bytes after a quote, and
/// the UTF-8 bytes of the message string that starts after the next quote
/// following the id; `None` where the document breaks this layout.
pub open spec fn document_entries(s: Seq<u8>) -> Option<Seq<(Seq<u8>, Seq<u8>)>>
    decreases s.len(),
{
    match first_quote(s) {
        None => Some(seq![]),
        Some(ind) => {
            proof {
                lemma_first_quote(s);
            }
            if ind + 66 > s.len() {
                None
            } else {
                let id = s.subrange(ind + 1, ind + 65);
                let r1 = s.skip(ind + 66);
                match first_quote(r1) {
                    None => None,
                    Some(q) => {
                        proof {
                            lemma_first_quote(r1);
                        }
                        let r2 = r1.skip(q + 1);
                        match string_body(r2) {
                            None => None,
                            Some((n, m)) => {
                                if n > r2.len() {
                                    None
                                } else {
                                    match document_entries(r2.skip(n as int)) {
                                        None => None,
                                        Some(rest) => Some(seq![(id, m)] + rest),
                                    }
                                }
                            },
                        }
                    },
                }
            }
        },
    }
}

/// `std::str::from_utf8`: as documented, it succeeds exactly on valid UTF-8.
#[verifier::external_body]
fn utf8_ok(bytes: &[u8]) -> (r: bool)
    ensures
        r == valid_utf8(bytes@),
{
    std::str::from_utf8(bytes).is_ok()
}

/// The index of the first quote in `s`, if any.
fn find_quote(s: &[u8]) -> (r: Option<usize>)
    ensures
        r == (match first_quote(s@) {
            Some(i) => Some(i as usize),
            None => None,
        }),
        r matches Some(i) ==> i < s@.len(),
{
    let mut i: usize = 0;
    proof {
        assert(s@.skip(0) =~= s@);
    }
    while i < s.len()
        invariant
            i <= s@.len(),
            first_quote(s@) == (match first_quote(s@.skip(i as int)) {
                Some(j) => Some(j + i as int),
                None => None,
            }),
        decreases s@.len() - i,
    {
        proof {
            assert(s@.skip(i as int).drop_first() =~= s@.skip(i + 1));
            assert(s@.skip(i as int)[0] == s@[i as int]);
        }
        if s[i] == 0x22 {
            return Some(i);
        }
        i = i + 1;
    }
    proof {
        assert(s@.skip(i as int).len() == 0);
    }
    None
}

/// The index of the first quote or backslash in `s` and that byte, if any.
fn find_quote_or_slash(s: &[u8]) -> (r: Option<(usize, u8)>)
    ensures
        match first_special(s@) {
            Some(i) => r == Some((i as usize, s@[i as int])) && i < s@.len(),
            None => r is None,
        },
{
    let mut i: usize = 0;
    proof {
        assert(s@.skip(0) =~= s@);
    }
    while i < s.len()
        invariant
            i <= s@.len(),
            first_special(s@) == (match first_special(s@.skip(i as int)) {
                Some(j) => Some(j + i as int),
                None => None,
            }),
        decreases s@.len() - i,
    {
        proof {
            assert(s@.skip(i as int).drop_first() =~= s@.skip(i + 1));
            assert(s@.skip(i as int)[0] == s@[i as int]);
        }
        if s[i] == 0x22 || s[i] == 0x5c {
            return Some((i, s[i]));
        }
        i = i + 1;
    }
    proof {
        assert(s@.skip(i as int).len() == 0);
    }
    None
}

/// The UTF-8 encoding of a scalar below `0x10000` is valid UTF-8.
proof fn lemma_encode_scalar_valid(v: u32)
    requires
        is_scalar(v),
        v <= 0xffff,
    ensures
        valid_utf8(encode_scalar(v)),
{
    let b = encode_scalar(v);
    assert(valid_utf8(Seq::<u8>::empty()));
    if has_width_1_encoding(v) {
        let b0 = leading_byte_width_1(v);
        assert(b0 <= 0x7f && (b0 & 0x7f) as u32 == v) by (bit_vector)
            requires
                b0 == (v & 0x7F) as u8,
                v <= 0x7f,
        ;
        assert(b[0] == b0 && b.len() == 1);
        assert(length_of_first_scalar(b) == 1);
        assert(pop_first_scalar(b) =~= Seq::<u8>::empty());
    } else if has_width_2_encoding(v) {
        let b0 = leading_byte_width_2(v);
        let b1 = last_continuation_byte(v);
        assert(0xc0 <= b0 <= 0xdf && 0x80 <= b1 <= 0xbf && ((((b0 & 0x1F) as u32) << 6) | ((b1
            & 0x3f) as u32)) == v) by (bit_vector)
            requires
                b0 == 0xC0 | ((v >> 6) & 0x1F) as u8,
                b1 == 0x80 | (v & 0x3F) as u8,
                0x80 <= v <= 0x7ff,
        ;
        assert(b[0] == b0 && b[1] == b1 && b.len() == 2);
        assert(decode_first_codepoint(b) == v);
        assert(length_of_first_scalar(b) == 2);
        assert(pop_first_scalar(b) =~= Seq::<u8>::empty());
    } else {
        assert(has_width_3_encoding(v));
        let b0 = leading_byte_width_3(v);
        let b1 = second_last_continuation_byte(v);
        let b2 = last_continuation_byte(v);
        assert(0xe0 <= b0 <= 0xef && 0x80 <= b1 <= 0xbf && 0x80 <= b2 <= 0xbf && ((((b0 & 0x0F)
            as u32) << 12) | (((b1 & 0x3f) as u32) << 6) | ((b2 & 0x3f) as u32)) == v)
            by (bit_vector)
            requires
                b0 == 0xE0 | ((v >> 12) & 0x0F) as u8,
                b1 == 0x80 | ((v >> 6) & 0x3F) as u8,
                b2 == 0x80 | (v & 0x3F) as u8,
                0x800 <= v <= 0xffff,
        ;
        assert(b[0] == b0 && b[1] == b1 && b[2] == b2 && b.len() == 3);
        assert(decode_first_codepoint(b) == v);
        assert(length_of_first_scalar(b) == 3);
        assert(pop_first_scalar(b) =~= Seq::<u8>::empty());
    }
    assert(valid_first_scalar(b));
    assert(valid_utf8(pop_first_scalar(b)));
}

/// Appends the UTF-8 encoding of a scalar below `0x10000`.
fn push_scalar(out: &mut Vec<u8>, v: u32)
    requires
        is_scalar(v),
        v <= 0xffff,
    ensures
        final(out)@ == old(out)@ + encode_scalar(v),
        valid_utf8(encode_scalar(v)),
{
    proof {
        lemma_encode_scalar_valid(v);
    }
    if v <= 0x7f {
        out.push((v & 0x7F) as u8);
    } else if v <= 0x7ff {
        out.push(0xC0 | ((v >> 6) & 0x1F) as u8);
        out.push(0x80 | (v & 0x3F) as u8);
    } else {
        out.push(0xE0 | ((v >> 12) & 0x0F) as u8);
        out.push(0x80 | ((v >> 6) & 0x3F) as u8);
        out.push(0x80 | (v & 0x3F) as u8);
    }
    proof {
        assert(out@ =~= old(out)@ + encode_scalar(v));
    }
}

/// The value of a hexadecimal digit byte.
fn hex_digit_value(b: u8) -> (r: Option<u32>)
    ensures
        match hex_digit(b) {
            Some(d) => r == Some(d as u32),
            None => r is None,
        },
{
    if 0x30 <= b && b <= 0x39 {
        Some((b - 0x30) as u32)
    } else if 0x61 <= b && b <= 0x66 {
        Some((b - 0x61 + 10) as u32)
    } else if 0x41 <= b && b <= 0x46 {
        Some((b - 0x41 + 10) as u32)
    } else {
        None
    }
}

/// Reads the four bytes after `\u` as `u32::from_str_radix(_, 16)` does.
fn parse_hex4(h: &[u8]) -> (r: Option<u32>)
    requires
        h@.len() == 4,
    ensures
        r is Some <==> hex4_ok(h@),
        r matches Some(v) ==> v == hex4_value(h@) && v <= 0xffff,
{
    let start: usize = if h[0] == 0x2b {
        1
    } else {
        0
    };
    let ghost digits = h@.subrange(start as int, 4);
    let mut v: u32 = 0;
    let mut i: usize = start;
    proof {
        assert(h@.subrange(start as int, start as int) =~= Seq::<u8>::empty());
    }
    while i < 4
        invariant
            h@.len() == 4,
            start <= i <= 4,
            start == 0 || start == 1,
            start == 1 <==> h@[0] == 0x2b,
            forall|j: int| start <= j < i ==> (#[trigger] hex_digit(h@[j])) is Some,
            v == hex_value(h@.subrange(start as int, i as int)),
            v < crate::radix::pow_nat(16, (i - start) as nat),
        decreases 4 - i,
    {
        match hex_digit_value(h[i]) {
            Some(d) => {
                proof {
                    let sub = h@.subrange(start as int, i as int + 1);
                    assert(sub.drop_last() =~= h@.subrange(start as int, i as int));
                    assert(sub.last() == h@[i as int]);
                    assert(crate::radix::pow_nat(16, (i + 1 - start) as nat) == 16
                        * crate::radix::pow_nat(16, (i - start) as nat));
                    assert(crate::radix::pow_nat(16, (i - start) as nat) <= 4096) by {
                        reveal_with_fuel(crate::radix::pow_nat, 5);
                    }
                }
                v = v * 16 + d;
                i = i + 1;
            },
            None => {
                proof {
                    if start == 0 {
                        assert(!all_hex(h@));
                    } else {
                        assert(h@.drop_first()[i - 1] == h@[i as int]);
                        assert(!all_hex(h@.drop_first()));
                        assert(hex_digit(0x2b) is None);
                        assert(!all_hex(h@));
                    }
                }
                return None;
            },
        }
    }
    proof {
        reveal_with_fuel(crate::radix::pow_nat, 5);
        if start == 0 {
            assert(h@.subrange(0, 4) =~= h@);
            assert(all_hex(h@));
            assert(hex_digit(0x2b) is None);
        } else {
            assert(h@.subrange(1, 4) =~= h@.drop_first());
            assert(all_hex(h@.drop_first())) by {
                assert forall|j: int| 0 <= j < 3 implies (#[trigger] hex_digit(
                    h@.drop_first()[j],
                )) is Some by {
                    assert(h@.drop_first()[j] == h@[j + 1]);
                }
            }
        }
    }
    Some(v)
}

/// The code point that the escape `\e` stands for.
fn escape_code_of(e: u8) -> (r: u32)
    ensures
        r == escape_code(e),
{
    if e == 0x62 {
        8
    } else if e == 0x66 {
        0x0c
    } else if e == 0x6e {
        0x0a
    } else if e == 0x72 {
        0x0d
    } else if e == 0x74 {
        0x09
    } else {
        e as u32
    }
}

/// Reads a string body (the bytes after its opening quote): the number of
/// bytes up to and including the closing quote, and the text.
fn get_str(s: &[u8]) -> (r: Option<(usize, String)>)
    ensures
        match string_body(s@) {
            None => r is None,
            Some((n, m)) => r matches Some((k, text)) && k == n && text@ == decode_utf8(m),
        },
{
    let mut msg: Vec<u8> = Vec::new();
    let mut pos: usize = 0;
    proof {
        assert(s@.skip(0) =~= s@);
        assert(msg@ + Seq::<u8>::empty() =~= msg@);
    }
    loop
        invariant
            pos <= s@.len(),
            valid_utf8(msg@),
            string_body(s@) == (match string_body(s@.skip(pos as int)) {
                None => None,
                Some((n, m)) => Some(((pos + n) as nat, msg@ + m)),
            }),
        decreases s@.len() - pos,
    {
        let ghost rest = s@.skip(pos as int);
        let cur = vstd::slice::slice_subrange(s, pos, s.len());
        proof {
            assert(cur@ =~= rest);
            lemma_first_special(rest);
        }
        let (p, b) = match find_quote_or_slash(cur) {
            Some(x) => x,
            None => {
                return None;
            },
        };
        let piece = vstd::slice::slice_subrange(cur, 0, p);
        proof {
            assert(piece@ =~= rest.take(p as int));
        }
        if !utf8_ok(piece) {
            return None;
        }
        let ghost before = msg@;
        msg.extend_from_slice(piece);
        proof {
            assert(msg@ =~= before + piece@);
            assert(valid_utf8(before + piece@));
        }
        if b == 0x22 {
            let text = match string_from_utf8(msg) {
                Some(t) => t,
                None => {
                    proof {
                        assert(false);
                    }
                    return None;
                },
            };
            proof {
                assert(before + (piece@ + Seq::<u8>::empty()) =~= before + piece@);
            }
            return Some((pos + p + 1, text));
        }
        if p + 1 >= cur.len() {
            return None;
        }
        let e = cur[p + 1];
        if e == 0x75 {
            if cur.len() - p < 6 {
                return None;
            }
            let h = vstd::slice::slice_subrange(cur, p + 2, p + 6);
            let code = match parse_hex4(h) {
                Some(c) => c,
                None => {
                    return None;
                },
            };
            if 0xd800 <= code && code <= 0xdfff {
                return None;
            }
            let ghost mid = msg@;
            push_scalar(&mut msg, code);
            proof {
                let tail = rest.skip(p + 6);
                assert(tail =~= s@.skip(pos + p + 6));
                assert(forall|m: Seq<u8>| before + piece@ + encode_scalar(code) + m =~= msg@ + m);
                assert(forall|m: Seq<u8>| before + (piece@ + encode_scalar(code) + m) =~= msg@ + m);
            }
            pos = pos + p + 6;
        } else {
            let code = escape_code_of(e);
            push_scalar(&mut msg, code);
            proof {
                let tail = rest.skip(p + 2);
                assert(tail =~= s@.skip(pos + p + 2));
                assert(forall|m: Seq<u8>| before + (piece@ + encode_scalar(code) + m) =~= msg@ + m);
            }
            pos = pos + p + 2;
        }
    }
}

/// A string body never claims more bytes than it is given.
proof fn lemma_string_body_len(s: Seq<u8>)
    ensures
        string_body(s) matches Some((n, m)) ==> 0 < n <= s.len(),
    decreases s.len(),
{
    lemma_first_special(s);
    if let Some(i) = first_special(s) {
        if i + 2 <= s.len() {
            lemma_string_body_len(s.skip(i + 2));
        }
        if i + 6 <= s.len() {
            lemma_string_body_len(s.skip(i + 6));
        }
    }
}

/// The read entries agree with the spec: same ids, and each message is the
/// text its UTF-8 bytes encode.
pub open spec fn entries_match(v: Seq<(Vec<u8>, String)>, e: Seq<(Seq<u8>, Seq<u8>)>) -> bool {
    &&& v.len() == e.len()
    &&& forall|i: int|
        0 <= i < v.len() ==> (#[trigger] v[i]).0@ == e[i].0 && v[i].1@ == decode_utf8(e[i].1)
}

/// Reads every entry of the document, or `None` where the document breaks
/// the layout.
pub fn try_stupid_json(s: &str) -> (r: Option<Vec<(Vec<u8>, String)>>)
    ensures
        r is Some <==> document_entries(s.spec_bytes()) is Some,
        r matches Some(v) ==> entries_match(v@, document_entries(s.spec_bytes()).unwrap()),
{
    let bytes = s.as_bytes();
    let ghost b = bytes@;
    let len = bytes.len();
    let mut results: Vec<(Vec<u8>, String)> = Vec::new();
    let mut pos: usize = 0;
    let ghost mut done: Seq<(Seq<u8>, Seq<u8>)> = seq![];
    proof {
        assert(b.skip(0) =~= b);
        assert(forall|rest: Seq<(Seq<u8>, Seq<u8>)>| done + rest =~= rest);
    }
    loop
        invariant
            b == bytes@,
            b == s.spec_bytes(),
            len == b.len(),
            pos <= len,
            entries_match(results@, done),
            document_entries(b) == (match document_entries(b.skip(pos as int)) {
                None => None,
                Some(rest) => Some(done + rest),
            }),
        decreases len - pos,
    {
        let ghost rest = b.skip(pos as int);
        let cur = vstd::slice::slice_subrange(bytes, pos, len);
        proof {
            assert(cur@ =~= rest);
            lemma_first_quote(rest);
        }
        let ind = match find_quote(cur) {
            None => {
                proof {
                    assert(done + Seq::<(Seq<u8>, Seq<u8>)>::empty() =~= done);
                }
                return Some(results);
            },
            Some(i) => i,
        };
        if cur.len() - ind < 66 {
            return None;
        }
        let id = vstd::slice::slice_to_vec(vstd::slice::slice_subrange(cur, ind + 1, ind + 65));
        let r1 = vstd::slice::slice_subrange(cur, ind + 66, cur.len());
        proof {
            assert(r1@ =~= rest.skip(ind + 66));
            lemma_first_quote(r1@);
        }
        let q = match find_quote(r1) {
            None => {
                return None;
            },
            Some(q) => q,
        };
        let r2 = vstd::slice::slice_subrange(r1, q + 1, r1.len());
        proof {
            assert(r2@ =~= r1@.skip(q + 1));
            lemma_string_body_len(r2@);
        }
        let (n, message) = match get_str(r2) {
            None => {
                return None;
            },
            Some(x) => x,
        };
        let ghost entry = (id@, string_body(r2@).unwrap().1);
        let ghost prev = results@;
        results.push((id, message));
        proof {
            let next = r2@.skip(n as int);
            assert(next =~= b.skip(pos + ind + 66 + q + 1 + n));
            assert(forall|more: Seq<(Seq<u8>, Seq<u8>)>| done + (seq![entry] + more) =~= done.push(entry) + more);
            done = done.push(entry);
            assert(entries_match(results@, done)) by {
                assert forall|i: int| 0 <= i < results@.len() implies (#[trigger] results@[i]).0@
                    == done[i].0 && results@[i].1@ == decode_utf8(done[i].1) by {
                    if i < results@.len() - 1 {
                        assert(results@[i] == prev[i]);
                    }
                }
            }
        }
        pos = pos + ind + 66 + q + 1 + n;
    }
}

/// Reads every entry of a document that follows the layout.
pub fn stupid_json(s: &str) -> (r: Vec<(Vec<u8>, String)>)
    requires
        document_entries(s.spec_bytes()) is Some,
    ensures
        entries_match(r@, document_entries(s.spec_bytes()).unwrap()),
{
    match try_stupid_json(s) {
        Some(v) => v,
        None => {
            proof {
                assert(false);
            }
            Vec::new()
        },
    }
}

} // verus!
