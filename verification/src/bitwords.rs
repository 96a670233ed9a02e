//! Bit sets packed into 64-bit words: bit `i` is bit `i % 64` of word `i / 64`.
use vstd::prelude::*;

verus! {

/// Bit `p` of the word `w`.
pub open spec fn word_bit(w: u64, p: u64) -> bool {
    (w >> p) & 1 == 1
}

/// Bit `i` of a packed word sequence.
pub open spec fn packed_bit(words: Seq<u64>, i: int) -> bool {
    word_bit(words[i / 64], (i % 64) as u64)
}

/// The bits of a packed word sequence, `64 * len` of them.
pub open spec fn packed_bits(words: Seq<u64>) -> Seq<bool> {
    Seq::new((words.len() * 64) as nat, |i: int| packed_bit(words, i))
}

/// Testing bit `p` with a mask.
pub proof fn lemma_mask_test(w: u64, p: u64)
    requires
        p < 64,
    ensures
        (w & (1u64 << p) != 0) == word_bit(w, p),
{
    assert((w & (1u64 << p) != 0) == ((w >> p) & 1 == 1)) by (bit_vector)
        requires
            p < 64,
    ;
}

/// Setting bit `p` with a mask changes only that bit.
pub proof fn lemma_mask_set(w: u64, p: u64)
    requires
        p < 64,
    ensures
        forall|q: u64| q < 64 ==> #[trigger] word_bit(w | (1u64 << p), q) == (q == p || word_bit(w, q)),
{
    assert forall|q: u64| q < 64 implies #[trigger] word_bit(w | (1u64 << p), q) == (q == p
        || word_bit(w, q)) by {
        assert((((w | (1u64 << p)) >> q) & 1 == 1) == (q == p || (w >> q) & 1 == 1))
            by (bit_vector)
            requires
                p < 64,
                q < 64,
        ;
    }
}

/// The zero word has no bit set.
pub proof fn lemma_zero_word(q: u64)
    requires
        q < 64,
    ensures
        !word_bit(0, q),
{
    assert((0u64 >> q) & 1 == 0) by (bit_vector);
}

/// Setting bit `i` of a packed sequence.
pub proof fn lemma_packed_set(words: Seq<u64>, i: int)
    requires
        0 <= i < words.len() * 64,
    ensures
        packed_bits(
            words.update(i / 64, words[i / 64] | (1u64 << ((i % 64) as u64))),
        ) =~= packed_bits(words).update(i, true),
{
    let ind = i / 64;
    let pos = (i % 64) as u64;
    let nw = words.update(ind, words[ind] | (1u64 << pos));
    lemma_mask_set(words[ind], pos);
    assert forall|j: int| 0 <= j < words.len() * 64 implies #[trigger] packed_bit(nw, j)
        == (if j == i {
        true
    } else {
        packed_bit(words, j)
    }) by {
        if j / 64 == ind {
            assert(word_bit(words[ind] | (1u64 << pos), (j % 64) as u64) == ((j % 64) as u64
                == pos || word_bit(words[ind], (j % 64) as u64)));
            if j != i {
                assert((j % 64) != (i % 64)) by (nonlinear_arith)
                    requires
                        j / 64 == i / 64,
                        j != i,
                        0 <= j,
                        0 <= i,
                ;
            }
        } else {
            assert(j != i);
        }
    }
}

} // verus!
