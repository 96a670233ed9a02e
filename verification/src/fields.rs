//! Reading a line of whitespace-separated unsigned integers.
use vstd::prelude::*;
use vstd::string::StringSliceAdditionalSpecFns;
use crate::decimal::{parse_u64, u64_text_ok, unsigned_text_value};
use crate::text::{all_ascii, ascii_string, lemma_ascii_encode};

verus! {

/// A whitespace character, as `char::is_whitespace` documents it: the
/// characters with the Unicode `White_Space` property.
pub open spec fn is_space(c: char) -> bool {
    let u = c as u32;
    ||| 9 <= u <= 13
    ||| u == 0x20
    ||| u == 0x85
    ||| u == 0xa0
    ||| u == 0x1680
    ||| 0x2000 <= u <= 0x200a
    ||| u == 0x2028
    ||| u == 0x2029
    ||| u == 0x202f
    ||| u == 0x205f
    ||| u == 0x3000
}

/// Whether `c` is whitespace.
fn is_space_exec(c: char) -> (r: bool)
    ensures
        r == is_space(c),
{
    let u = c as u32;
    (9 <= u && u <= 13) || u == 0x20 || u == 0x85 || u == 0xa0 || u == 0x1680 || (0x2000 <= u && u <= 0x200a) || u
        == 0x2028 || u == 0x2029 || u == 0x202f || u == 0x205f || u == 0x3000
}

/// The maximal runs of non-whitespace characters of `b`, in order.
pub open spec fn fields(b: Seq<char>) -> Seq<Seq<char>>
    decreases b.len(),
{
    if b.len() == 0 {
        Seq::empty()
    } else {
        let f = fields(b.drop_last());
        let c = b.last();
        if is_space(c) {
            f
        } else if b.len() == 1 || is_space(b[b.len() - 2]) {
            f.push(seq![c])
        } else {
            f.update(f.len() - 1, f.last().push(c))
        }
    }
}

proof fn lemma_fields_nonempty(b: Seq<char>)
    ensures
        b.len() > 0 && !is_space(b.last()) ==> fields(b).len() > 0,
        forall|i: int| 0 <= i < fields(b).len() ==> (#[trigger] fields(b)[i]).len() > 0,
    decreases b.len(),
{
    if b.len() > 0 {
        let p = b.drop_last();
        lemma_fields_nonempty(p);
        let f = fields(p);
        let g = fields(b);
        if b.len() >= 2 && !is_space(b[b.len() - 2]) {
            assert(p.last() == b[b.len() - 2]);
        }
        assert forall|i: int| 0 <= i < g.len() implies (#[trigger] g[i]).len() > 0 by {
            if i < f.len() {
                assert(f[i].len() > 0);
            }
        }
    }
}

/// The characters of `line`, in order.
fn chars_of(line: &str) -> (r: Vec<char>)
    ensures
        r@ == line@,
{
    let mut r: Vec<char> = Vec::new();
    for c in it: line.chars()
        invariant
            r@ == it.seq().take(it.index() as int),
    {
        r.push(c);
    }
    r
}

/// The fields of `b`.
pub fn split_fields(b: &Vec<char>) -> (r: Vec<Vec<char>>)
    ensures
        r@.len() == fields(b@).len(),
        forall|i: int| 0 <= i < r@.len() ==> (#[trigger] r@[i])@ == fields(b@)[i],
{
    let mut r: Vec<Vec<char>> = Vec::new();
    let mut cur: Vec<char> = Vec::new();
    let mut i: usize = 0;
    while i < b.len()
        invariant
            i <= b@.len(),
            ({
                let f = fields(b@.take(i as int));
                &&& (cur@.len() == 0 ==> r@.len() == f.len() && forall|q: int| 0 <= q < f.len() ==> (#[trigger] r@[q])@ == f[q])
                &&& (cur@.len() > 0 ==> r@.len() + 1 == f.len() && cur@ == f.last() && forall|q: int| 0 <= q < r@.len() ==> (#[trigger] r@[q])@ == f[q])
                &&& (cur@.len() > 0 <==> (i > 0 && !is_space(b@[i - 1])))
            }),
        decreases b@.len() - i,
    {
        proof {
            assert(b@.take(i + 1).drop_last() =~= b@.take(i as int));
            lemma_fields_nonempty(b@.take(i as int));
            if i > 0 {
                assert(b@.take(i + 1)[i - 1] == b@[i - 1]);
            }
        }
        let c = b[i];
        if is_space_exec(c) {
            if cur.len() > 0 {
                let ghost r0 = r@;
                let done = cur;
                r.push(done);
                cur = Vec::new();
                proof {
                    assert forall|q: int| 0 <= q < r@.len() implies (#[trigger] r@[q])@ == fields(b@.take(i + 1))[q] by {
                        if q < r0.len() {
                            assert(r@[q] == r0[q]);
                        }
                    }
                }
            }
        } else {
            let ghost c0 = cur@;
            cur.push(c);
            proof {
                let f0 = fields(b@.take(i as int));
                let f1 = fields(b@.take(i + 1));
                if c0.len() > 0 {
                    assert(f1 == f0.update(f0.len() - 1, f0.last().push(c)));
                    assert forall|q: int| 0 <= q < r@.len() implies (#[trigger] r@[q])@ == f1[q] by {}
                } else {
                    assert(f1 == f0.push(seq![c]));
                    assert(cur@ =~= seq![c]);
                    assert forall|q: int| 0 <= q < r@.len() implies (#[trigger] r@[q])@ == f1[q] by {}
                }
            }
        }
        i = i + 1;
    }
    proof {
        assert(b@.take(i as int) =~= b@);
    }
    if cur.len() > 0 {
        let ghost r0 = r@;
        r.push(cur);
        proof {
            assert forall|q: int| 0 <= q < r@.len() implies (#[trigger] r@[q])@ == fields(b@)[q] by {
                if q < r0.len() {
                    assert(r@[q] == r0[q]);
                }
            }
        }
    }
    r
}

/// The bytes of characters that are all ASCII.
pub open spec fn ascii_bytes(f: Seq<char>) -> Seq<u8> {
    f.map_values(|c: char| (c as u32) as u8)
}

/// A field that `u64::from_str` accepts: ASCII, an optional `+` and one or
/// more digits, of a value that fits in a `u64` (text with any other
/// character is refused).
pub open spec fn field_ok(f: Seq<char>) -> bool {
    &&& forall|k: int| 0 <= k < f.len() ==> (#[trigger] f[k] as u32) < 0x80
    &&& u64_text_ok(ascii_bytes(f))
}

/// The numbers a line of fields reads as, where every field is unsigned
/// decimal text (optionally after `+`) of a value that fits in a `u64`.
pub open spec fn ints_of(fs: Seq<Seq<char>>) -> Option<Seq<u64>> {
    if forall|i: int| 0 <= i < fs.len() ==> field_ok(#[trigger] fs[i]) {
        Some(Seq::new(fs.len(), |i: int| unsigned_text_value(ascii_bytes(fs[i])) as u64))
    } else {
        None
    }
}

/// The ASCII bytes of a field whose characters are all ASCII; `None` where
/// one is not.
fn field_bytes(f: &Vec<char>) -> (r: Option<Vec<u8>>)
    ensures
        (forall|k: int| 0 <= k < f@.len() ==> (#[trigger] f@[k] as u32) < 0x80) <==> r is Some,
        r matches Some(v) ==> v@ == ascii_bytes(f@) && forall|k: int| 0 <= k < v@.len() ==> #[trigger] v@[k] as u32 == f@[k] as u32,
{
    let mut v: Vec<u8> = Vec::new();
    let mut i: usize = 0;
    while i < f.len()
        invariant
            i <= f@.len(),
            v@.len() == i,
            forall|k: int| 0 <= k < i ==> (#[trigger] f@[k] as u32) < 0x80,
            forall|k: int| 0 <= k < i ==> #[trigger] v@[k] == (f@[k] as u32) as u8 && v@[k] as u32 == f@[k] as u32,
        decreases f@.len() - i,
    {
        let c = f[i];
        let u = c as u32;
        if u >= 0x80 {
            return None;
        }
        let b = u as u8;
        assert(b as u32 == u) by (bit_vector)
            requires
                u < 0x80,
                b == u as u8,
        ;
        v.push(b);
        i = i + 1;
    }
    proof {
        assert(v@ =~= ascii_bytes(f@));
    }
    Some(v)
}

/// The unsigned integers of a line, separated by whitespace (in the sense
/// of `char::is_whitespace`); `None` where a field is not such a number.
pub fn parse_ints(line: &str) -> (r: Option<Vec<u64>>)
    ensures
        match ints_of(fields(line@)) {
            Some(v) => r matches Some(x) && x@ == v,
            None => r is None,
        },
{
    let cs = chars_of(line);
    let fs = split_fields(&cs);
    let ghost f = fields(line@);
    let mut out: Vec<u64> = Vec::new();
    let mut i: usize = 0;
    while i < fs.len()
        invariant
            cs@ == line@,
            f == fields(line@),
            fs@.len() == f.len(),
            forall|q: int| 0 <= q < fs@.len() ==> (#[trigger] fs@[q])@ == f[q],
            i <= fs@.len(),
            out@.len() == i,
            forall|q: int| 0 <= q < i ==> field_ok(#[trigger] f[q]),
            forall|q: int| 0 <= q < i ==> #[trigger] out@[q] == unsigned_text_value(ascii_bytes(f[q])) as u64,
        decreases fs@.len() - i,
    {
        let tok = match field_bytes(&fs[i]) {
            Some(t) => t,
            None => {
                proof {
                    assert(!field_ok(f[i as int]));
                }
                return None;
            },
        };
        proof {
            assert(all_ascii(tok@)) by {
                assert forall|q: int| 0 <= q < tok@.len() implies #[trigger] tok@[q] <= 0x7f by {
                    assert((f[i as int][q] as u32) < 0x80);
                    assert(tok@[q] as u32 == f[i as int][q] as u32);
                }
            }
            lemma_ascii_encode(tok@);
        }
        let s = ascii_string(tok);
        match parse_u64(s.as_str()) {
            Ok(v) => {
                out.push(v);
            },
            Err(_) => {
                proof {
                    assert(!field_ok(f[i as int]));
                }
                return None;
            },
        }
        i = i + 1;
    }
    proof {
        assert(out@ =~= Seq::new(f.len(), |q: int| unsigned_text_value(ascii_bytes(f[q])) as u64));
    }
    Some(out)
}

} // verus!
