//! Putting a chain of messages back in order: each message names the one
//! before it by carrying, as its id, the hex HMAC-SHA256 of its text keyed
//! by the id of the message before.
use vstd::prelude::*;
use vstd::utf8::encode_utf8;
use vstd::string::StringSliceAdditionalSpecFns;
use crypto::hmac::Hmac;
use crypto::mac::Mac;
use crypto::sha2::Sha256;
use crate::hm::same_bytes;

verus! {

/// The HMAC-SHA256 code of `msg` under `key`.
pub uninterp spec fn hmac_sha256_of(key: Seq<u8>, msg: Seq<u8>) -> Seq<u8>;

/// What a JSON text reads as, as a list of pairs of strings (`None` where
/// it is not such a list).
pub uninterp spec fn json_string_pairs(text: Seq<char>) -> Option<Seq<(Seq<char>, Seq<char>)>>;

/// Lengths below this are far beyond what the digest counts in bits.
pub const DIGEST_LIMIT: u64 = 0x0800_0000_0000_0000;

/// `crypto::hmac::Hmac::new(crypto::sha2::Sha256::new(), key)`, fed `msg`,
/// read out with `raw_result` into 32 bytes. Claimed: the bytes are the
/// HMAC-SHA256 code of `msg` under `key` (a name for what the crate
/// computes, a function of the two byte strings), and there are 32 of
/// them, the size of a SHA-256 digest. Inputs short enough that the
/// digest's bit counter cannot overflow (it panics then).
#[verifier::external_body]
fn hmac_sha256(key: &[u8], msg: &[u8]) -> (r: Vec<u8>)
    requires
        key@.len() < DIGEST_LIMIT,
        msg@.len() < DIGEST_LIMIT,
    ensures
        r@ == hmac_sha256_of(key@, msg@),
        r@.len() == 32,
{
    let mut h = Hmac::new(Sha256::new(), key);
    h.input(msg);
    let mut buf = [0u8; 32];
    h.raw_result(&mut buf);
    buf.to_vec()
}

/// The pairs of strings, as sequences of characters.
pub open spec fn pairs_view(v: Seq<(String, String)>) -> Seq<(Seq<char>, Seq<char>)> {
    v.map_values(|p: (String, String)| (p.0@, p.1@))
}

/// `serde_json::from_str::<Vec<(String, String)>>`, an error read as
/// `None`. Claimed: the result is what the text reads as (a name for
/// serde_json's reading, a function of the text alone).
#[verifier::external_body]
fn parse_string_pairs(text: &str) -> (r: Option<Vec<(String, String)>>)
    ensures
        match r {
            Some(v) => json_string_pairs(text@) == Some(pairs_view(v@)),
            None => json_string_pairs(text@) is None,
        },
{
    serde_json::from_str::<Vec<(String, String)>>(text).ok()
}

/// The lowercase hex digit of `n` (below 16).
pub open spec fn hex_digit(n: int) -> u8 {
    if n < 10 {
        (48 + n) as u8
    } else {
        (87 + n) as u8
    }
}

/// Bytes written as lowercase hex, two digits each, high digit first.
pub open spec fn hex_of(b: Seq<u8>) -> Seq<u8> {
    Seq::new(
        2 * b.len(),
        |i: int|
            if i % 2 == 0 {
                hex_digit((b[i / 2] / 16) as int)
            } else {
                hex_digit((b[i / 2] % 16) as int)
            },
    )
}

/// Bytes written as lowercase hex.
pub fn to_hex(b: &[u8]) -> (r: Vec<u8>)
    requires
        b@.len() < usize::MAX / 2,
    ensures
        r@ == hex_of(b@),
{
    let mut r: Vec<u8> = Vec::new();
    let mut i: usize = 0;
    while i < b.len()
        invariant
            i <= b@.len(),
            b@.len() < usize::MAX / 2,
            r@.len() == 2 * i,
            forall|k: int| 0 <= k < 2 * i ==> r@[k] == hex_of(b@)[k],
        decreases b@.len() - i,
    {
        let hi = b[i] / 16;
        let lo = b[i] % 16;
        let dh: u8 = if hi < 10 { 48 + hi } else { 87 + hi };
        let dl: u8 = if lo < 10 { 48 + lo } else { 87 + lo };
        r.push(dh);
        r.push(dl);
        proof {
            assert((2 * i) % 2 == 0 && (2 * i) / 2 == i);
            assert((2 * i + 1) % 2 == 1 && (2 * i + 1) / 2 == i);
        }
        i = i + 1;
    }
    proof {
        assert(r@ =~= hex_of(b@));
    }
    r
}

/// The bytes of a string.
pub open spec fn text_bytes(s: Seq<char>) -> Seq<u8> {
    encode_utf8(s)
}

/// Message `next` (an id and a text) follows message `prev`: its id is the
/// hex HMAC-SHA256 of its text keyed by the id of `prev`.
pub open spec fn follows(prev: (Seq<char>, Seq<char>), next: (Seq<char>, Seq<char>)) -> bool {
    text_bytes(next.0) == hex_of(hmac_sha256_of(text_bytes(prev.0), text_bytes(next.1)))
}

/// Every id and text is short enough to be digested.
pub open spec fn digestible(m: (Seq<char>, Seq<char>)) -> bool {
    text_bytes(m.0).len() < DIGEST_LIMIT && text_bytes(m.1).len() < DIGEST_LIMIT
}

/// Whether message `pair2` follows message `pair`.
pub fn is_suc(pair: &(String, String), pair2: &(String, String)) -> (r: bool)
    requires
        digestible(pair@),
        digestible(pair2@),
    ensures
        r == follows(pair@, pair2@),
{
    let key = pair.0.as_str().as_bytes();
    let msg = pair2.1.as_str().as_bytes();
    let code = hmac_sha256(key, msg);
    let hex = to_hex(code.as_slice());
    same_bytes(pair2.0.as_str().as_bytes(), hex.as_slice())
}

/// Two messages are the same: the same id and the same text.
pub open spec fn same_message(a: (Seq<char>, Seq<char>), b: (Seq<char>, Seq<char>)) -> bool {
    text_bytes(a.0) == text_bytes(b.0) && text_bytes(a.1) == text_bytes(b.1)
}

/// Message `i` is the first of the messages that are the same as it.
pub open spec fn first_of_kind(ms: Seq<(String, String)>, i: int) -> bool {
    forall|j: int| 0 <= j < i ==> !same_message(#[trigger] ms[j]@, ms[i]@)
}

/// Whether two messages are the same.
fn same_pair(a: &(String, String), b: &(String, String)) -> (r: bool)
    ensures
        r == same_message(a@, b@),
{
    same_bytes(a.0.as_str().as_bytes(), b.0.as_str().as_bytes()) && same_bytes(a.1.as_str().as_bytes(), b.1.as_str().as_bytes())
}

/// The messages, each kept once: the indices of the first of each kind, in
/// order.
pub fn message_pool(msgs: &Vec<(String, String)>) -> (r: Vec<usize>)
    ensures
        forall|k: int| 0 <= k < r@.len() ==> r@[k] < msgs@.len() && first_of_kind(msgs@, #[trigger] r@[k] as int),
        forall|k1: int, k2: int| 0 <= k1 < k2 < r@.len() ==> #[trigger] r@[k1] < #[trigger] r@[k2],
        forall|i: int| 0 <= i < msgs@.len() && first_of_kind(msgs@, i) ==> r@.contains(i as usize),
{
    let mut r: Vec<usize> = Vec::new();
    let mut i: usize = 0;
    while i < msgs.len()
        invariant
            i <= msgs@.len(),
            forall|k: int| 0 <= k < r@.len() ==> r@[k] < i && first_of_kind(msgs@, #[trigger] r@[k] as int),
            forall|k1: int, k2: int| 0 <= k1 < k2 < r@.len() ==> #[trigger] r@[k1] < #[trigger] r@[k2],
            forall|q: int| 0 <= q < i && first_of_kind(msgs@, q) ==> r@.contains(q as usize),
        decreases msgs@.len() - i,
    {
        let mut seen = false;
        let mut j: usize = 0;
        while j < i
            invariant
                j <= i < msgs@.len(),
                seen == exists|q: int| 0 <= q < j && same_message(#[trigger] msgs@[q]@, msgs@[i as int]@),
            decreases i - j,
        {
            if same_pair(&msgs[j], &msgs[i]) {
                seen = true;
            }
            j = j + 1;
        }
        let ghost r0 = r@;
        if !seen {
            r.push(i);
            proof {
                assert forall|q: int| 0 <= q < i + 1 && first_of_kind(msgs@, q) implies r@.contains(q as usize) by {
                    if q < i {
                        let k = choose|k: int| 0 <= k < r0.len() && r0[k] == q as usize;
                        assert(r@[k] == q as usize);
                    } else {
                        assert(r@[r0.len() as int] == i);
                    }
                }
            }
        } else {
            proof {
                assert(!first_of_kind(msgs@, i as int));
            }
        }
        i = i + 1;
    }
    r
}

/// Takes out of `pool` the first message that `msgs[target]` follows.
pub fn get_prev(pool: &mut Vec<usize>, msgs: &Vec<(String, String)>, target: usize) -> (r: Option<usize>)
    requires
        target < msgs@.len(),
        forall|i: int| 0 <= i < msgs@.len() ==> digestible(#[trigger] msgs@[i]@),
        forall|k: int| 0 <= k < old(pool)@.len() ==> #[trigger] old(pool)@[k] < msgs@.len(),
    ensures
        match r {
            Some(p) => exists|pos: int|
                0 <= pos < old(pool)@.len() && #[trigger] old(pool)@[pos] == p && final(pool)@ == old(pool)@.remove(pos)
                    && follows(msgs@[p as int]@, msgs@[target as int]@) && forall|q: int| 0 <= q < pos ==> !follows(
                    #[trigger] msgs@[old(pool)@[q] as int]@,
                    msgs@[target as int]@,
                ),
            None => final(pool)@ == old(pool)@ && forall|q: int| 0 <= q < old(pool)@.len() ==> !follows(
                #[trigger] msgs@[old(pool)@[q] as int]@,
                msgs@[target as int]@,
            ),
        },
{
    let mut k: usize = 0;
    while k < pool.len()
        invariant
            k <= pool@.len(),
            pool@ == old(pool)@,
            target < msgs@.len(),
            forall|i: int| 0 <= i < msgs@.len() ==> digestible(#[trigger] msgs@[i]@),
            forall|q: int| 0 <= q < pool@.len() ==> #[trigger] pool@[q] < msgs@.len(),
            forall|q: int| 0 <= q < k ==> !follows(#[trigger] msgs@[pool@[q] as int]@, msgs@[target as int]@),
        decreases pool@.len() - k,
    {
        let p = pool[k];
        if is_suc(&msgs[p], &msgs[target]) {
            pool.remove(k);
            return Some(p);
        }
        k = k + 1;
    }
    None
}

/// Takes out of `pool` the first message that follows `msgs[source]`.
pub fn get_next(pool: &mut Vec<usize>, msgs: &Vec<(String, String)>, source: usize) -> (r: Option<usize>)
    requires
        source < msgs@.len(),
        forall|i: int| 0 <= i < msgs@.len() ==> digestible(#[trigger] msgs@[i]@),
        forall|k: int| 0 <= k < old(pool)@.len() ==> #[trigger] old(pool)@[k] < msgs@.len(),
    ensures
        match r {
            Some(p) => exists|pos: int|
                0 <= pos < old(pool)@.len() && #[trigger] old(pool)@[pos] == p && final(pool)@ == old(pool)@.remove(pos)
                    && follows(msgs@[source as int]@, msgs@[p as int]@) && forall|q: int| 0 <= q < pos ==> !follows(
                    msgs@[source as int]@,
                    #[trigger] msgs@[old(pool)@[q] as int]@,
                ),
            None => final(pool)@ == old(pool)@ && forall|q: int| 0 <= q < old(pool)@.len() ==> !follows(
                msgs@[source as int]@,
                #[trigger] msgs@[old(pool)@[q] as int]@,
            ),
        },
{
    let mut k: usize = 0;
    while k < pool.len()
        invariant
            k <= pool@.len(),
            pool@ == old(pool)@,
            source < msgs@.len(),
            forall|i: int| 0 <= i < msgs@.len() ==> digestible(#[trigger] msgs@[i]@),
            forall|q: int| 0 <= q < pool@.len() ==> #[trigger] pool@[q] < msgs@.len(),
            forall|q: int| 0 <= q < k ==> !follows(msgs@[source as int]@, #[trigger] msgs@[pool@[q] as int]@),
        decreases pool@.len() - k,
    {
        let p = pool[k];
        if is_suc(&msgs[source], &msgs[p]) {
            pool.remove(k);
            return Some(p);
        }
        k = k + 1;
    }
    None
}

/// The first message with id `start`, if any.
pub open spec fn first_with_id(msgs: Seq<(String, String)>, start: Seq<u8>, i: int) -> bool {
    &&& 0 <= i < msgs.len()
    &&& text_bytes(msgs[i]@.0) == start
    &&& forall|j: int| 0 <= j < i ==> text_bytes((#[trigger] msgs[j])@.0) != start
}

/// Each message of `v` is followed by the next one.
pub open spec fn chained(msgs: Seq<(String, String)>, v: Seq<usize>) -> bool {
    forall|k: int| 0 <= k < v.len() - 1 ==> follows(msgs[#[trigger] v[k] as int]@, msgs[v[k + 1] as int]@)
}

/// Puts the messages around the one with id `start` in order: from the
/// start, the messages it follows are taken out of the pool of messages one
/// by one going back, then those that follow it going forward; the result
/// lists them in chain order (as indices into `msgs`). `None` where no
/// message has id `start`.
pub fn reassemble(msgs: &Vec<(String, String)>, start: &[u8]) -> (r: Option<Vec<usize>>)
    requires
        forall|i: int| 0 <= i < msgs@.len() ==> digestible(#[trigger] msgs@[i]@),
    ensures
        r is None <==> forall|i: int| 0 <= i < msgs@.len() ==> text_bytes((#[trigger] msgs@[i])@.0) != start@,
        r matches Some(v) ==> {
            &&& v@.len() >= 1
            &&& forall|k: int| 0 <= k < v@.len() ==> #[trigger] v@[k] < msgs@.len()
            &&& exists|k: int| 0 <= k < v@.len() && first_with_id(msgs@, start@, #[trigger] v@[k] as int)
            &&& chained(msgs@, v@)
            &&& forall|i: int| 0 <= i < msgs@.len() && first_of_kind(msgs@, i) && !v@.contains(i as usize) ==> {
                &&& !follows(msgs@[i]@, msgs@[v@[0] as int]@)
                &&& !follows(msgs@[v@.last() as int]@, msgs@[i]@)
            }
        },
{
    let mut s: usize = 0;
    let mut found = false;
    while s < msgs.len() && !found
        invariant
            s <= msgs@.len(),
            found ==> s < msgs@.len() && text_bytes(msgs@[s as int]@.0) == start@,
            forall|j: int| 0 <= j < s ==> text_bytes((#[trigger] msgs@[j])@.0) != start@,
        decreases msgs@.len() - s + (if found { 0int } else { 1int }),
    {
        let id = msgs[s].0.as_str();
        proof {
            assert(id.spec_bytes() == text_bytes(msgs@[s as int]@.0));
        }
        if same_bytes(id.as_bytes(), start) {
            found = true;
        } else {
            s = s + 1;
        }
    }
    if !found {
        return None;
    }
    assert(first_with_id(msgs@, start@, s as int));
    let mut pool = message_pool(msgs);
    // back from the start
    let mut back: Vec<usize> = Vec::new();
    back.push(s);
    let mut cur = s;
    let mut going = true;
    while going
        invariant
            forall|i: int| 0 <= i < msgs@.len() ==> digestible(#[trigger] msgs@[i]@),
            forall|k: int| 0 <= k < pool@.len() ==> #[trigger] pool@[k] < msgs@.len(),
            forall|k: int| 0 <= k < back@.len() ==> #[trigger] back@[k] < msgs@.len(),
            back@.len() >= 1,
            back@[0] == s,
            cur == back@.last(),
            cur < msgs@.len(),
            forall|k: int| 0 <= k < back@.len() - 1 ==> follows(msgs@[back@[k + 1] as int]@, msgs@[#[trigger] back@[k] as int]@),
            forall|i: int| 0 <= i < msgs@.len() && first_of_kind(msgs@, i) && !back@.contains(i as usize) ==> pool@.contains(i as usize),
            !going ==> forall|q: int| 0 <= q < pool@.len() ==> !follows(#[trigger] msgs@[pool@[q] as int]@, msgs@[cur as int]@),
        decreases pool@.len() + (if going { 1int } else { 0int }),
    {
        let ghost pool0 = pool@;
        let ghost back0 = back@;
        match get_prev(&mut pool, msgs, cur) {
            Some(p) => {
                back.push(p);
                proof {
                    let pos = choose|pos: int|
                        0 <= pos < pool0.len() && #[trigger] pool0[pos] == p && pool@ == pool0.remove(pos) && follows(
                            msgs@[p as int]@,
                            msgs@[cur as int]@,
                        ) && forall|q: int| 0 <= q < pos ==> !follows(#[trigger] msgs@[pool0[q] as int]@, msgs@[cur as int]@);
                    assert(back@[back0.len() - 1] == cur);
                    assert forall|i: int| 0 <= i < msgs@.len() && first_of_kind(msgs@, i) && !back@.contains(i as usize) implies pool@.contains(i as usize) by {
                        assert(!back0.contains(i as usize)) by {
                            if back0.contains(i as usize) {
                                let k = choose|k: int| 0 <= k < back0.len() && back0[k] == i as usize;
                                assert(back@[k] == i as usize);
                            }
                        }
                        let k = choose|k: int| 0 <= k < pool0.len() && pool0[k] == i as usize;
                        if k < pos {
                            assert(pool@[k] == i as usize);
                        } else if k > pos {
                            assert(pool@[k - 1] == i as usize);
                        } else {
                            assert(back@[back0.len() as int] == i as usize);
                        }
                    }
                }
                cur = p;
            },
            None => {
                going = false;
            },
        }
    }
    // the chain so far, in order
    let mut chain: Vec<usize> = Vec::new();
    let mut k: usize = back.len();
    while k > 0
        invariant
            k <= back@.len(),
            chain@.len() == back@.len() - k,
            forall|j: int| 0 <= j < chain@.len() ==> chain@[j] == back@[back@.len() - 1 - j],
        decreases k,
    {
        k = k - 1;
        chain.push(back[k]);
    }
    proof {
        assert forall|i: usize| chain@.contains(i) <==> back@.contains(i) by {
            if chain@.contains(i) {
                let j = choose|j: int| 0 <= j < chain@.len() && chain@[j] == i;
                assert(back@[back@.len() - 1 - j] == i);
            }
            if back@.contains(i) {
                let j = choose|j: int| 0 <= j < back@.len() && back@[j] == i;
                assert(chain@[back@.len() - 1 - j] == i);
            }
        }
        assert(chain@[chain@.len() - 1] == s);
        assert(chained(msgs@, chain@)) by {
            assert forall|j: int| 0 <= j < chain@.len() - 1 implies follows(msgs@[#[trigger] chain@[j] as int]@, msgs@[chain@[j + 1] as int]@) by {
                let b = back@.len() - 1 - j;
                assert(chain@[j] == back@[b]);
                assert(chain@[j + 1] == back@[b - 1]);
                assert(follows(msgs@[back@[(b - 1) + 1] as int]@, msgs@[back@[b - 1] as int]@));
            }
        }
    }
    // forward from the start
    let ghost head = chain@[0];
    cur = s;
    going = true;
    while going
        invariant
            forall|i: int| 0 <= i < msgs@.len() ==> digestible(#[trigger] msgs@[i]@),
            forall|k: int| 0 <= k < pool@.len() ==> #[trigger] pool@[k] < msgs@.len(),
            forall|k: int| 0 <= k < chain@.len() ==> #[trigger] chain@[k] < msgs@.len(),
            chain@.len() >= 1,
            chain@[0] == head,
            cur == chain@.last(),
            cur < msgs@.len(),
            exists|k: int| 0 <= k < chain@.len() && first_with_id(msgs@, start@, #[trigger] chain@[k] as int),
            chained(msgs@, chain@),
            forall|i: int| 0 <= i < msgs@.len() && first_of_kind(msgs@, i) && !chain@.contains(i as usize) ==> pool@.contains(i as usize),
            forall|q: int| 0 <= q < pool@.len() ==> !follows(#[trigger] msgs@[pool@[q] as int]@, msgs@[head as int]@),
            !going ==> forall|q: int| 0 <= q < pool@.len() ==> !follows(msgs@[cur as int]@, #[trigger] msgs@[pool@[q] as int]@),
        decreases pool@.len() + (if going { 1int } else { 0int }),
    {
        let ghost pool0 = pool@;
        let ghost chain0 = chain@;
        match get_next(&mut pool, msgs, cur) {
            Some(p) => {
                chain.push(p);
                proof {
                    let pos = choose|pos: int|
                        0 <= pos < pool0.len() && #[trigger] pool0[pos] == p && pool@ == pool0.remove(pos) && follows(
                            msgs@[cur as int]@,
                            msgs@[p as int]@,
                        ) && forall|q: int| 0 <= q < pos ==> !follows(msgs@[cur as int]@, #[trigger] msgs@[pool0[q] as int]@);
                    assert(chain@[chain0.len() - 1] == cur);
                    let kk = choose|kk: int| 0 <= kk < chain0.len() && first_with_id(msgs@, start@, #[trigger] chain0[kk] as int);
                    assert(chain@[kk] == chain0[kk]);
                    assert(chained(msgs@, chain@)) by {
                        assert forall|j: int| 0 <= j < chain@.len() - 1 implies follows(msgs@[#[trigger] chain@[j] as int]@, msgs@[chain@[j + 1] as int]@) by {
                            if j < chain0.len() - 1 {
                                assert(chain@[j] == chain0[j] && chain@[j + 1] == chain0[j + 1]);
                            }
                        }
                    }
                    assert forall|q: int| 0 <= q < pool@.len() implies !follows(#[trigger] msgs@[pool@[q] as int]@, msgs@[head as int]@) by {
                        if q < pos {
                            assert(pool@[q] == pool0[q]);
                        } else {
                            assert(pool@[q] == pool0[q + 1]);
                        }
                    }
                    assert forall|i: int| 0 <= i < msgs@.len() && first_of_kind(msgs@, i) && !chain@.contains(i as usize) implies pool@.contains(i as usize) by {
                        assert(!chain0.contains(i as usize)) by {
                            if chain0.contains(i as usize) {
                                let k = choose|k: int| 0 <= k < chain0.len() && chain0[k] == i as usize;
                                assert(chain@[k] == i as usize);
                            }
                        }
                        let k = choose|k: int| 0 <= k < pool0.len() && pool0[k] == i as usize;
                        if k < pos {
                            assert(pool@[k] == i as usize);
                        } else if k > pos {
                            assert(pool@[k - 1] == i as usize);
                        } else {
                            assert(chain@[chain0.len() as int] == i as usize);
                        }
                    }
                }
                cur = p;
            },
            None => {
                going = false;
            },
        }
    }
    proof {
        assert forall|i: int| 0 <= i < msgs@.len() && first_of_kind(msgs@, i) && !chain@.contains(i as usize) implies {
            &&& !follows(msgs@[i]@, msgs@[chain@[0] as int]@)
            &&& !follows(msgs@[chain@.last() as int]@, msgs@[i]@)
        } by {
            let q = choose|q: int| 0 <= q < pool@.len() && pool@[q] == i as usize;
            assert(!follows(msgs@[pool@[q] as int]@, msgs@[head as int]@));
            assert(!follows(msgs@[cur as int]@, msgs@[pool@[q] as int]@));
        }
    }
    Some(chain)
}

/// Some message that is the same as message `i` is the first of its kind.
proof fn lemma_first_of_kind_exists(ms: Seq<(String, String)>, i: int)
    requires
        0 <= i < ms.len(),
    ensures
        exists|j: int| 0 <= j <= i && first_of_kind(ms, j) && #[trigger] same_message(ms[j]@, ms[i]@),
    decreases i,
{
    if !first_of_kind(ms, i) {
        let j = choose|j: int| 0 <= j < i && same_message(#[trigger] ms[j]@, ms[i]@);
        lemma_first_of_kind_exists(ms, j);
        let k = choose|k: int| 0 <= k <= j && first_of_kind(ms, k) && #[trigger] same_message(ms[k]@, ms[j]@);
        assert(same_message(ms[k]@, ms[i]@));
    } else {
        assert(same_message(ms[i]@, ms[i]@));
    }
}

/// Every message can be digested and one has id `start`.
pub open spec fn chain_possible(ps: Seq<(Seq<char>, Seq<char>)>, start: Seq<u8>) -> bool {
    &&& forall|i: int| 0 <= i < ps.len() ==> digestible(#[trigger] ps[i])
    &&& exists|i: int| 0 <= i < ps.len() && text_bytes((#[trigger] ps[i]).0) == start
}

/// `cv` is a chain of messages of `ps` through one with id `start`, each
/// followed by the next, that no other message of `ps` extends at either
/// end.
pub open spec fn chain_ok(ps: Seq<(Seq<char>, Seq<char>)>, cv: Seq<(Seq<char>, Seq<char>)>, start: Seq<u8>) -> bool {
    &&& cv.len() >= 1
    &&& forall|k: int| 0 <= k < cv.len() ==> exists|i: int| 0 <= i < ps.len() && ps[i] == #[trigger] cv[k]
    &&& exists|k: int| 0 <= k < cv.len() && text_bytes((#[trigger] cv[k]).0) == start
    &&& forall|k: int| 0 <= k < cv.len() - 1 ==> follows(#[trigger] cv[k], cv[k + 1])
    &&& forall|i: int| 0 <= i < ps.len() && (forall|k: int| 0 <= k < cv.len() ==> !same_message(ps[i], #[trigger] cv[k])) ==> {
        &&& !follows(ps[i], cv[0])
        &&& !follows(cv.last(), ps[i])
    }
}

/// Reads a JSON list of messages (pairs of id and text) and puts the
/// messages around the one with id `start` in chain order. `None` where
/// the text is not such a list, where no message has id `start`, or where a
/// message is too long to digest.
pub fn chain_from_json(input: &str, start: &str) -> (r: Option<Vec<(String, String)>>)
    ensures
        json_string_pairs(input@) is None ==> r is None,
        json_string_pairs(input@) is Some && chain_possible(json_string_pairs(input@).unwrap(), text_bytes(start@)) ==> r is Some,
        r matches Some(c) ==> json_string_pairs(input@) is Some && chain_ok(
            json_string_pairs(input@).unwrap(),
            pairs_view(c@),
            text_bytes(start@),
        ),
{
    let msgs = match parse_string_pairs(input) {
        Some(v) => v,
        None => return None,
    };
    let ghost ps = pairs_view(msgs@);
    let mut i: usize = 0;
    while i < msgs.len()
        invariant
            i <= msgs@.len(),
            ps == pairs_view(msgs@),
            json_string_pairs(input@) == Some(ps),
            forall|j: int| 0 <= j < i ==> digestible(#[trigger] msgs@[j]@),
        decreases msgs@.len() - i,
    {
        let id = msgs[i].0.as_str();
        let text = msgs[i].1.as_str();
        proof {
            assert(id.spec_bytes() == text_bytes(msgs@[i as int]@.0));
            assert(text.spec_bytes() == text_bytes(msgs@[i as int]@.1));
            assert(ps[i as int] == msgs@[i as int]@);
        }
        if id.as_bytes().len() as u64 >= DIGEST_LIMIT || text.as_bytes().len() as u64 >= DIGEST_LIMIT {
            proof {
                assert(!digestible(ps[i as int]));
            }
            return None;
        }
        i = i + 1;
    }
    let start_bytes = start.as_bytes();
    let order = match reassemble(&msgs, start_bytes) {
        Some(v) => v,
        None => {
            proof {
                assert forall|i: int| 0 <= i < ps.len() implies text_bytes((#[trigger] ps[i]).0) != text_bytes(start@) by {
                    assert(ps[i] == msgs@[i]@);
                }
            }
            return None;
        },
    };
    let mut c: Vec<(String, String)> = Vec::new();
    let mut k: usize = 0;
    while k < order.len()
        invariant
            k <= order@.len(),
            forall|q: int| 0 <= q < order@.len() ==> #[trigger] order@[q] < msgs@.len(),
            c@.len() == k,
            forall|q: int| 0 <= q < k ==> (#[trigger] c@[q])@ == msgs@[order@[q] as int]@,
        decreases order@.len() - k,
    {
        let m = &msgs[order[k]];
        c.push((m.0.clone(), m.1.clone()));
        k = k + 1;
    }
    proof {
        assert forall|q: int| 0 <= q < c@.len() implies exists|i: int| 0 <= i < ps.len() && ps[i] == (#[trigger] c@[q])@ by {
            assert(ps[order@[q] as int] == msgs@[order@[q] as int]@);
        }
        let kk = choose|kk: int| 0 <= kk < order@.len() && first_with_id(msgs@, text_bytes(start@), #[trigger] order@[kk] as int);
        assert(text_bytes(c@[kk]@.0) == text_bytes(start@));
        assert forall|q: int| 0 <= q < c@.len() - 1 implies follows((#[trigger] c@[q])@, c@[q + 1]@) by {
            assert(follows(msgs@[order@[q] as int]@, msgs@[order@[q + 1] as int]@));
        }
        assert forall|i: int| 0 <= i < ps.len() && (forall|q: int| 0 <= q < c@.len() ==> !same_message(ps[i], #[trigger] c@[q]@)) implies {
            &&& !follows(ps[i], c@[0]@)
            &&& !follows(c@.last()@, ps[i])
        } by {
            lemma_first_of_kind_exists(msgs@, i);
            let j = choose|j: int| 0 <= j <= i && first_of_kind(msgs@, j) && #[trigger] same_message(msgs@[j]@, msgs@[i]@);
            assert(ps[i] == msgs@[i]@);
            assert(!order@.contains(j as usize)) by {
                if order@.contains(j as usize) {
                    let q = choose|q: int| 0 <= q < order@.len() && order@[q] == j as usize;
                    assert(c@[q]@ == msgs@[j]@);
                    assert(same_message(ps[i], c@[q]@));
                }
            }
            assert(!follows(msgs@[j]@, msgs@[order@[0] as int]@));
            assert(!follows(msgs@[order@.last() as int]@, msgs@[j]@));
            assert(c@[c@.len() - 1]@ == msgs@[order@.last() as int]@);
        }
        let cv = pairs_view(c@);
        assert forall|q: int| 0 <= q < cv.len() implies exists|i: int| 0 <= i < ps.len() && ps[i] == #[trigger] cv[q] by {
            assert(cv[q] == c@[q]@);
            assert(exists|i: int| 0 <= i < ps.len() && ps[i] == (#[trigger] c@[q])@);
        }
        assert(text_bytes(cv[kk].0) == text_bytes(start@));
        assert forall|q: int| 0 <= q < cv.len() - 1 implies follows(#[trigger] cv[q], cv[q + 1]) by {
            assert(cv[q] == c@[q]@ && cv[q + 1] == c@[q + 1]@);
            assert(follows((c@[q])@, c@[q + 1]@));
        }
        assert forall|i: int| 0 <= i < ps.len() && (forall|q: int| 0 <= q < cv.len() ==> !same_message(ps[i], #[trigger] cv[q])) implies {
            &&& !follows(ps[i], cv[0])
            &&& !follows(cv.last(), ps[i])
        } by {
            assert forall|q: int| 0 <= q < c@.len() implies !same_message(ps[i], #[trigger] c@[q]@) by {
                assert(cv[q] == c@[q]@);
            }
            assert(cv[0] == c@[0]@);
            assert(cv.last() == c@.last()@);
        }
        assert(chain_ok(ps, cv, text_bytes(start@)));
    }
    Some(c)
}

/// The value of a lowercase hex digit.
pub open spec fn hex_digit_value(c: u8) -> int {
    if 48 <= c <= 57 {
        c - 48
    } else {
        c - 87
    }
}

/// Hex text is twice as long, uses only the digits `0`-`9` and `a`-`f`,
/// and reads back: the two digits at `2 i` and `2 i + 1` give byte `i` as
/// high and low half.
pub proof fn lemma_hex_reads_back(b: Seq<u8>)
    ensures
        hex_of(b).len() == 2 * b.len(),
        forall|i: int| 0 <= i < hex_of(b).len() ==> (48 <= #[trigger] hex_of(b)[i] <= 57 || 97 <= hex_of(b)[i] <= 102),
        forall|i: int|
            0 <= i < b.len() ==> 16 * hex_digit_value(#[trigger] hex_of(b)[2 * i]) + hex_digit_value(hex_of(b)[2 * i + 1])
                == b[i],
{
    let h = hex_of(b);
    assert forall|i: int| 0 <= i < h.len() implies (48 <= #[trigger] h[i] <= 57 || 97 <= h[i] <= 102) by {
        let x = b[i / 2];
        assert(x / 16 < 16 && x % 16 < 16);
    }
    assert forall|i: int| 0 <= i < b.len() implies 16 * hex_digit_value(#[trigger] h[2 * i]) + hex_digit_value(h[2 * i + 1])
        == b[i] by {
        let x = b[i];
        assert((2 * i) / 2 == i && (2 * i) % 2 == 0);
        assert((2 * i + 1) / 2 == i && (2 * i + 1) % 2 == 1);
        assert(hex_digit_value(hex_digit((x / 16) as int)) == x / 16);
        assert(hex_digit_value(hex_digit((x % 16) as int)) == x % 16);
        assert(16 * (x / 16) + x % 16 == x);
    }
}

} // verus!
