//! Facts about character boundaries in UTF-8 text that splitting strings needs.
use vstd::prelude::*;
use vstd::utf8::{
    is_char_boundary, length_of_first_scalar, pop_first_scalar, valid_first_scalar, valid_utf8,
    valid_utf8_split,
};

verus! {

/// The position right after an ASCII byte that starts a character is again
/// a character boundary.
pub proof fn lemma_boundary_after_ascii(bytes: Seq<u8>, i: int)
    requires
        valid_utf8(bytes),
        is_char_boundary(bytes, i),
        0 <= i < bytes.len(),
        bytes[i] <= 0x7f,
    ensures
        is_char_boundary(bytes, i + 1),
    decreases bytes.len(),
{
    assert(valid_first_scalar(bytes) && valid_utf8(pop_first_scalar(bytes)));
    let l = length_of_first_scalar(bytes);
    let rest = pop_first_scalar(bytes);
    assert(1 <= l <= bytes.len());
    assert(rest.len() == bytes.len() - l);
    if i == 0 {
        assert(l == 1);
        assert(is_char_boundary(rest, 0));
        assert(is_char_boundary(bytes, 1) == is_char_boundary(rest, 0));
    } else {
        assert(is_char_boundary(bytes, i) == is_char_boundary(rest, i - l));
        assert(i - l >= 0);
        assert(rest[i - l] == bytes[i]);
        lemma_boundary_after_ascii(rest, i - l);
        assert(is_char_boundary(bytes, i + 1) == is_char_boundary(rest, i + 1 - l));
    }
}

/// Every position in a run of ASCII bytes that begins at the start is a
/// character boundary.
pub proof fn lemma_boundary_after_ascii_run(bytes: Seq<u8>, k: int)
    requires
        valid_utf8(bytes),
        0 <= k <= bytes.len(),
        forall|j: int| 0 <= j < k ==> bytes[j] <= 0x7f,
    ensures
        is_char_boundary(bytes, k),
    decreases k,
{
    if k > 0 {
        lemma_boundary_after_ascii_run(bytes, k - 1);
        lemma_boundary_after_ascii(bytes, k - 1);
    }
}

/// A boundary of a text is also a boundary of any prefix that ends at a
/// boundary and contains it.
pub proof fn lemma_boundary_in_prefix(t: Seq<u8>, m: int, j: int)
    requires
        valid_utf8(t),
        is_char_boundary(t, m),
        0 <= j <= m,
        is_char_boundary(t, j),
    ensures
        valid_utf8(t.subrange(0, m)),
        is_char_boundary(t.subrange(0, m), j),
    decreases t.len(),
{
    valid_utf8_split(t, m);
    let p = t.subrange(0, m);
    if j > 0 {
        assert(valid_first_scalar(t) && valid_utf8(pop_first_scalar(t)));
        let l = length_of_first_scalar(t);
        let rest = pop_first_scalar(t);
        assert(rest.len() == t.len() - l);
        assert(is_char_boundary(t, j) == is_char_boundary(rest, j - l));
        assert(is_char_boundary(t, m) == is_char_boundary(rest, m - l));
        assert(j - l >= 0);
        assert(m - l >= 0);
        assert(p.len() > 0);
        assert(valid_first_scalar(p) && valid_utf8(pop_first_scalar(p)));
        assert(p[0] == t[0]);
        assert(length_of_first_scalar(p) == l);
        assert(pop_first_scalar(p) =~= rest.subrange(0, m - l));
        lemma_boundary_in_prefix(rest, m - l, j - l);
        assert(is_char_boundary(p, j) == is_char_boundary(pop_first_scalar(p), j - l));
    }
}

} // verus!
