//! Turning bytes into `String`s.
use vstd::prelude::*;
use vstd::utf8::{decode_utf8, pop_first_scalar, valid_utf8};

verus! {

/// Every byte is ASCII.
pub open spec fn all_ascii(b: Seq<u8>) -> bool {
    forall|i: int| 0 <= i < b.len() ==> #[trigger] b[i] <= 0x7f
}

/// The characters of an ASCII byte string.
pub open spec fn ascii_chars(b: Seq<u8>) -> Seq<char> {
    b.map_values(|x: u8| x as char)
}

/// `String::from_utf8`: as its documentation says, it succeeds exactly when
/// the bytes are valid UTF-8, and the string then holds the characters
/// those bytes encode.
#[verifier::external_body]
pub(crate) fn string_from_utf8(bytes: Vec<u8>) -> (r: Option<String>)
    ensures
        r is Some <==> valid_utf8(bytes@),
        r matches Some(s) ==> s@ == decode_utf8(bytes@),
{
    String::from_utf8(bytes).ok()
}

/// ASCII bytes are valid UTF-8 and decode to one character each.
pub proof fn lemma_ascii_utf8(b: Seq<u8>)
    requires
        all_ascii(b),
    ensures
        valid_utf8(b),
        decode_utf8(b) == ascii_chars(b),
    decreases b.len(),
{
    if b.len() > 0 {
        let x = b[0];
        assert(x <= 0x7f);
        assert(x & 0x7f == x) by (bit_vector)
            requires
                x <= 0x7f,
        ;
        let rest = pop_first_scalar(b);
        assert(rest =~= b.drop_first());
        assert(all_ascii(rest)) by {
            assert forall|i: int| 0 <= i < rest.len() implies #[trigger] rest[i] <= 0x7f by {
                assert(rest[i] == b[i + 1]);
            }
        }
        lemma_ascii_utf8(rest);
        assert(decode_utf8(b) =~= ascii_chars(b));
    } else {
        assert(decode_utf8(b) =~= ascii_chars(b));
    }
}

/// The string of an ASCII byte string.
pub fn ascii_string(bytes: Vec<u8>) -> (s: String)
    requires
        all_ascii(bytes@),
    ensures
        s@ == ascii_chars(bytes@),
{
    proof {
        lemma_ascii_utf8(bytes@);
    }
    match string_from_utf8(bytes) {
        Some(s) => s,
        None => {
            proof {
                assert(false);
            }
            String::new()
        },
    }
}

/// Encoding the characters of an ASCII byte string gives the bytes back.
pub proof fn lemma_ascii_encode(b: Seq<u8>)
    requires
        all_ascii(b),
    ensures
        vstd::utf8::encode_utf8(ascii_chars(b)) == b,
    decreases b.len(),
{
    let cs = ascii_chars(b);
    if b.len() > 0 {
        let x = b[0];
        let c = cs[0];
        assert(c == x as char);
        assert(c as u32 == x as u32);
        assert(x & 0x7f == x) by (bit_vector)
            requires
                x <= 0x7f,
        ;
        assert(((x as u32) & 0x7F) as u8 == x) by (bit_vector)
            requires
                x <= 0x7f,
        ;
        let rest = b.drop_first();
        assert(all_ascii(rest)) by {
            assert forall|i: int| 0 <= i < rest.len() implies #[trigger] rest[i] <= 0x7f by {
                assert(rest[i] == b[i + 1]);
            }
        }
        assert(cs.drop_first() =~= ascii_chars(rest));
        lemma_ascii_encode(rest);
        assert(vstd::utf8::encode_utf8(cs) =~= b);
    } else {
        assert(vstd::utf8::encode_utf8(cs) =~= b);
    }
}

} // verus!
