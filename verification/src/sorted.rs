//! Lists of messages, in order and each once.

use crate::bytes::utf8;
use crate::fields::{comes_before, earlier};
use crate::text::{own, same, texts};
use vstd::prelude::*;
use vstd::utf8::encode_utf8_decode_utf8;

verus! {

/// Whether a text is before another: by its bytes.
pub open spec fn precedes(a: Seq<char>, b: Seq<char>) -> bool {
    earlier(utf8(a), utf8(b), 0)
}

proof fn lemma_chain(a: Seq<u8>, b: Seq<u8>, c: Seq<u8>, i: int)
    requires
        0 <= i,
        earlier(a, b, i),
        earlier(b, c, i),
    ensures
        earlier(a, c, i),
    decreases c.len() - i,
{
    if i < a.len() && i < b.len() && i < c.len() && a[i] == b[i] && b[i] == c[i] {
        lemma_chain(a, b, c, i + 1);
    }
}

proof fn lemma_one_way(a: Seq<u8>, b: Seq<u8>, i: int)
    requires
        0 <= i <= a.len(),
        i <= b.len(),
        forall|k: int| 0 <= k < i ==> a[k] == b[k],
    ensures
        a != b ==> earlier(a, b, i) != earlier(b, a, i),
        a == b ==> !earlier(a, b, i),
    decreases b.len() - i,
{
    if i < a.len() && i < b.len() {
        if a[i] == b[i] {
            lemma_one_way(a, b, i + 1);
        }
    } else if i == a.len() && i == b.len() {
        assert(a =~= b);
    }
}

/// The order of texts is total: of two that differ, one is before the other and not both.
pub proof fn texts_are_ordered(a: Seq<char>, b: Seq<char>)
    ensures
        a != b ==> precedes(a, b) != precedes(b, a),
        a == b ==> !precedes(a, b),
{
    encode_utf8_decode_utf8(a);
    encode_utf8_decode_utf8(b);
    lemma_one_way(utf8(a), utf8(b), 0);
}

/// A text before one that is before a third is before the third.
pub proof fn the_order_of_texts_carries_on(a: Seq<char>, b: Seq<char>, c: Seq<char>)
    requires
        precedes(a, b),
        precedes(b, c),
    ensures
        precedes(a, c),
{
    lemma_chain(utf8(a), utf8(b), utf8(c), 0);
}

/// Whether texts are in order, each once.
pub open spec fn ascending(v: Seq<Seq<char>>) -> bool {
    forall|i: int, j: int| 0 <= i < j < v.len() ==> precedes(#[trigger] v[i], #[trigger] v[j])
}

fn insert(v: &mut Vec<String>, s: &str)
    requires
        ascending(texts(old(v)@)),
    ensures
        ascending(texts(final(v)@)),
        forall|t: Seq<char>| #[trigger]
            texts(final(v)@).contains(t) <==> texts(old(v)@).contains(t) || t == s@,
{
    let ghost before = texts(v@);
    let mut i: usize = 0;
    while i < v.len() && comes_before(v[i].as_str(), s)
        invariant
            i <= v.len(),
            *v == *old(v),
            before == texts(v@),
            forall|k: int| 0 <= k < i ==> precedes(#[trigger] before[k], s@),
        decreases v.len() - i,
    {
        assert(before[i as int] == v[i as int]@);
        i = i + 1;
    }
    if i < v.len() && same(v[i].as_str(), s) {
        assert(before[i as int] == s@);
        return;
    }
    proof {
        assert forall|k: int| i <= k < before.len() implies precedes(s@, #[trigger] before[k]) by {
            assert(before[i as int] == v[i as int]@);
            texts_are_ordered(s@, before[i as int]);
            if k > i {
                the_order_of_texts_carries_on(s@, before[i as int], before[k]);
            }
        }
    }
    v.insert(i, own(s));
    proof {
        let after = texts(v@);
        assert(after =~= before.insert(i as int, s@));
        assert forall|a: int, b: int| 0 <= a < b < after.len() implies precedes(
            #[trigger] after[a],
            #[trigger] after[b],
        ) by {
            let pa = if a < i {
                a
            } else {
                a - 1
            };
            let pb = if b < i {
                b
            } else {
                b - 1
            };
            if a != i {
                assert(after[a] == before[pa]);
            }
            if b != i {
                assert(after[b] == before[pb]);
            }
        }
        assert forall|t: Seq<char>| #[trigger]
            after.contains(t) <==> before.contains(t) || t == s@ by {
            if after.contains(t) {
                let k = choose|k: int| 0 <= k < after.len() && after[k] == t;
                if k < i {
                    assert(before[k] == t);
                } else if k > i {
                    assert(before[k - 1] == t);
                }
            }
            if before.contains(t) {
                let k = choose|k: int| 0 <= k < before.len() && before[k] == t;
                if k < i {
                    assert(after[k] == t);
                } else {
                    assert(after[k + 1] == t);
                }
            }
            if t == s@ {
                assert(after[i as int] == t);
            }
        }
    }
}

/// The texts of a list in order, each once.
pub fn tidy(v: &Vec<String>) -> (r: Vec<String>)
    ensures
        ascending(texts(r@)),
        forall|t: Seq<char>| #[trigger] texts(r@).contains(t) <==> texts(v@).contains(t),
{
    let mut out: Vec<String> = Vec::new();
    assert(texts(out@) =~= Seq::empty());
    let ghost all = texts(v@);
    let mut i: usize = 0;
    while i < v.len()
        invariant
            i <= v.len(),
            all == texts(v@),
            ascending(texts(out@)),
            forall|t: Seq<char>| #[trigger]
                texts(out@).contains(t) <==> all.subrange(0, i as int).contains(t),
        decreases v.len() - i,
    {
        insert(&mut out, v[i].as_str());
        proof {
            let a = all.subrange(0, i as int);
            let b = all.subrange(0, i + 1);
            assert(b =~= a.push(v[i as int]@));
            assert forall|t: Seq<char>| b.contains(t) <==> a.contains(t) || t == v[i as int]@ by {
                if b.contains(t) {
                    let k = choose|k: int| 0 <= k < b.len() && b[k] == t;
                    if k < a.len() {
                        assert(a[k] == t);
                    }
                }
                if a.contains(t) {
                    let k = choose|k: int| 0 <= k < a.len() && a[k] == t;
                    assert(b[k] == t);
                }
                if t == v[i as int]@ {
                    assert(b[i as int] == t);
                }
            }
        }
        i = i + 1;
    }
    assert(all.subrange(0, v.len() as int) =~= all);
    out
}

} // verus!
