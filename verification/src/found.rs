//! Bytes where they were put.

use crate::bytes::{
    le16, le32, le64, of16, of32, of64, utf8, what_was_written_is_read16,
    what_was_written_is_read32, what_was_written_is_read64,
};
use crate::fields::{first_zero, name_at, terminated};
use vstd::prelude::*;
use vstd::utf8::{encode_scalar, encode_utf8_decode_utf8, encode_utf8_valid_utf8};

verus! {

/// Whether `p` stands at `at` in `b`.
pub open spec fn has(b: Seq<u8>, at: int, p: Seq<u8>) -> bool {
    &&& 0 <= at
    &&& at + p.len() <= b.len()
    &&& b.subrange(at, at + p.len()) == p
}

pub proof fn lemma_has(a: Seq<u8>, p: Seq<u8>, c: Seq<u8>)
    ensures
        has(a + p + c, a.len() as int, p),
{
    assert((a + p + c).subrange(a.len() as int, a.len() as int + p.len()) =~= p);
}

pub proof fn lemma_has_split(b: Seq<u8>, at: int, x: Seq<u8>, y: Seq<u8>)
    requires
        has(b, at, x + y),
    ensures
        has(b, at, x),
        has(b, at + x.len(), y),
{
    let s = b.subrange(at, at + (x + y).len());
    assert(b.subrange(at, at + x.len()) =~= s.subrange(0, x.len() as int));
    assert(s.subrange(0, x.len() as int) =~= x);
    assert(b.subrange(at + x.len(), at + x.len() + y.len()) =~= s.subrange(
        x.len() as int,
        (x + y).len() as int,
    ));
    assert(s.subrange(x.len() as int, (x + y).len() as int) =~= y);
}

/// What stands in a part stands in the whole.
pub proof fn lemma_has_within(b: Seq<u8>, at: int, p: Seq<u8>, off: int, q: Seq<u8>)
    requires
        has(b, at, p),
        has(p, off, q),
    ensures
        has(b, at + off, q),
{
    let x = b.subrange(at + off, at + off + q.len());
    assert(x =~= q) by {
        assert forall|i: int| 0 <= i < q.len() implies #[trigger] x[i] == q[i] by {
            assert(b.subrange(at, at + p.len())[off + i] == b[at + off + i]);
            assert(p.subrange(off, off + q.len())[i] == p[off + i]);
        }
    }
}

pub proof fn lemma_has16(b: Seq<u8>, at: int, w: u16)
    requires
        has(b, at, le16(w)),
    ensures
        of16(b, at) == w,
{
    let a = b.subrange(0, at);
    let c = b.subrange(at + 2, b.len() as int);
    assert(b =~= a + b.subrange(at, at + 2) + c);
    what_was_written_is_read16(a, w, c);
}

pub proof fn lemma_has32(b: Seq<u8>, at: int, w: u32)
    requires
        has(b, at, le32(w)),
    ensures
        of32(b, at) == w,
{
    let a = b.subrange(0, at);
    let c = b.subrange(at + 4, b.len() as int);
    assert(b =~= a + b.subrange(at, at + 4) + c);
    what_was_written_is_read32(a, w, c);
}

pub proof fn lemma_has64(b: Seq<u8>, at: int, w: u64)
    requires
        has(b, at, le64(w)),
    ensures
        of64(b, at) == w,
{
    let a = b.subrange(0, at);
    let c = b.subrange(at + 8, b.len() as int);
    assert(b =~= a + b.subrange(at, at + 8) + c);
    what_was_written_is_read64(a, w, c);
}

/// Whether bytes hold no zero.
pub open spec fn no_zero(b: Seq<u8>) -> bool {
    forall|i: int| 0 <= i < b.len() ==> #[trigger] b[i] != 0
}

/// Whether a text holds no null character.
pub open spec fn no_null(s: Seq<char>) -> bool {
    forall|i: int| 0 <= i < s.len() ==> (#[trigger] s[i]) as u32 != 0
}

proof fn lemma_scalar_no_zero(v: u32)
    requires
        v != 0,
    ensures
        no_zero(encode_scalar(v)),
{
    assert((0x80u8 | (v & 0x3F) as u8) != 0 && (0x80u8 | ((v >> 6) & 0x3F) as u8) != 0 && (0x80u8
        | ((v >> 12) & 0x3F) as u8) != 0 && (0xC0u8 | ((v >> 6) & 0x1F) as u8) != 0 && (0xE0u8 | ((
    v >> 12) & 0x0F) as u8) != 0 && (0xF0u8 | ((v >> 18) & 0x7) as u8) != 0 && (v <= 0x7f ==> v
        != 0 ==> (v & 0x7F) as u8 != 0)) by (bit_vector);
}

/// The bytes of a text hold a zero only where the text holds a null character.
pub proof fn lemma_no_zero(s: Seq<char>)
    requires
        no_null(s),
    ensures
        no_zero(utf8(s)),
    decreases s.len(),
{
    if s.len() > 0 {
        let rest = s.drop_first();
        assert forall|i: int| 0 <= i < rest.len() implies (#[trigger] rest[i]) as u32 != 0 by {
            assert(rest[i] == s[i + 1]);
        }
        lemma_no_zero(rest);
        assert(s[0] as u32 != 0);
        lemma_scalar_no_zero(s[0] as u32);
    }
}

proof fn lemma_first_zero(b: Seq<u8>, at: int, n: int)
    requires
        0 <= at,
        0 <= n,
        at + n < b.len(),
        b[at + n] == 0,
        forall|i: int| at <= i < at + n ==> #[trigger] b[i] != 0,
    ensures
        first_zero(b, at) == Some(at + n),
    decreases n,
{
    if n > 0 {
        assert(b[at] != 0);
        lemma_first_zero(b, at + 1, n - 1);
    }
}

/// What a reader of terminated names makes of a text: it ends before its first null character.
pub open spec fn cut(s: Seq<char>) -> Seq<char>
    decreases s.len(),
{
    if s.len() == 0 || s[0] as u32 == 0 {
        Seq::empty()
    } else {
        seq![s[0]] + cut(s.drop_first())
    }
}

/// A text is cut to a start of it that holds no null character, and is left as it is where it holds
/// none.
pub proof fn a_text_is_cut_at_its_null(s: Seq<char>)
    ensures
        no_null(cut(s)),
        cut(s).len() <= s.len(),
        s.subrange(0, cut(s).len() as int) == cut(s),
        no_null(s) ==> cut(s) == s,
        cut(s).len() < s.len() ==> s[cut(s).len() as int] as u32 == 0,
    decreases s.len(),
{
    if s.len() > 0 && s[0] as u32 != 0 {
        let rest = s.drop_first();
        let c = cut(rest);
        a_text_is_cut_at_its_null(rest);
        assert(cut(s) == seq![s[0]] + c);
        assert forall|i: int| 0 <= i < cut(s).len() implies (#[trigger] cut(s)[i]) as u32 != 0 by {
            if i > 0 {
                assert(cut(s)[i] == c[i - 1]);
            }
        }
        assert(s.subrange(0, cut(s).len() as int) =~= cut(s)) by {
            assert forall|i: int| 0 <= i < cut(s).len() implies s[i] == cut(s)[i] by {
                if i > 0 {
                    assert(rest.subrange(0, c.len() as int)[i - 1] == c[i - 1]);
                }
            }
        }
        if no_null(s) {
            assert forall|i: int| 0 <= i < rest.len() implies (#[trigger] rest[i]) as u32 != 0 by {
                assert(rest[i] == s[i + 1]);
            }
            assert(seq![s[0]] + rest =~= s);
        }
        if cut(s).len() < s.len() {
            assert(rest[c.len() as int] == s[c.len() as int + 1]);
        }
    } else {
        assert(s.subrange(0, 0) =~= Seq::<char>::empty());
        if no_null(s) {
            assert(s =~= Seq::<char>::empty());
        }
    }
}

proof fn lemma_cut_bytes(s: Seq<char>)
    ensures
        utf8(cut(s)).len() + 1 <= utf8(s).len() + 1,
        (utf8(s) + seq![0u8]).subrange(0, utf8(cut(s)).len() as int + 1) == utf8(cut(s)) + seq![0u8],
    decreases s.len(),
{
    let all = utf8(s) + seq![0u8];
    if s.len() == 0 {
        assert(all.subrange(0, 1) =~= utf8(cut(s)) + seq![0u8]);
    } else if s[0] as u32 == 0 {
        assert((0u32 & 0x7F) as u8 == 0) by (bit_vector);
        assert(encode_scalar(0)[0] == 0);
        assert(utf8(s) == encode_scalar(0) + utf8(s.drop_first()));
        assert(all.subrange(0, 1) =~= utf8(cut(s)) + seq![0u8]);
    } else {
        let rest = s.drop_first();
        let c = cut(s);
        lemma_cut_bytes(rest);
        assert(c.drop_first() =~= cut(rest));
        assert(c[0] == s[0]);
        let first = encode_scalar(s[0] as u32);
        assert(utf8(c) == first + utf8(cut(rest)));
        assert(utf8(s) == first + utf8(rest));
        let tail = utf8(rest) + seq![0u8];
        let part = tail.subrange(0, utf8(cut(rest)).len() as int + 1);
        assert(all =~= first + tail);
        assert(all.subrange(0, utf8(c).len() as int + 1) =~= first + part);
        assert(first + (utf8(cut(rest)) + seq![0u8]) =~= utf8(c) + seq![0u8]);
    }
}

/// Where a text stands with its zero behind it, so does what it is cut to.
pub proof fn lemma_cut_stands(b: Seq<u8>, at: int, s: Seq<char>)
    requires
        has(b, at, utf8(s) + seq![0u8]),
    ensures
        has(b, at, utf8(cut(s)) + seq![0u8]),
{
    lemma_cut_bytes(s);
    let all = utf8(s) + seq![0u8];
    let part = utf8(cut(s)) + seq![0u8];
    assert(b.subrange(at, at + part.len()) =~= b.subrange(at, at + all.len()).subrange(
        0,
        part.len() as int,
    ));
}

/// A name that stands in a table with its zero behind it is read back.
pub proof fn lemma_name(what: Seq<char>, b: Seq<u8>, at: nat, s: Seq<char>)
    requires
        no_null(s),
        has(b, at as int, utf8(s) + seq![0u8]),
    ensures
        name_at(what, b, at) == Ok::<Seq<char>, Seq<char>>(s),
{
    let u = utf8(s);
    let from = at as int;
    lemma_no_zero(s);
    lemma_has_split(b, from, u, seq![0u8]);
    assert(b[from + u.len()] == 0) by {
        assert(b.subrange(from + u.len(), from + u.len() + 1)[0] == 0);
    }
    assert forall|i: int| from <= i < from + u.len() implies #[trigger] b[i] != 0 by {
        assert(b.subrange(from, from + u.len())[i - from] == b[i]);
        assert(u[i - from] != 0);
    }
    lemma_first_zero(b, from, u.len() as int);
    assert(terminated(b, from) == u);
    encode_utf8_valid_utf8(s);
    encode_utf8_decode_utf8(s);
}

} // verus!
