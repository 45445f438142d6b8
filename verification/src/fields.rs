//! Fields of an object file, read with their bounds.

use crate::bytes::{get16, get32, get64, lossy, read_text, of16, of32, of64, part};
use crate::text::{hex, join3, wide_hex_of};
use crate::sorted::{texts_are_ordered, the_order_of_texts_carries_on};
use vstd::prelude::*;

verus! {

/// A result and what it is of, with errors as texts.
pub open spec fn agree<T>(r: Result<T, String>, s: Result<T, Seq<char>>) -> bool {
    match r {
        Ok(x) => s == Ok::<T, Seq<char>>(x),
        Err(e) => s == Err::<T, Seq<char>>(e@),
    }
}

/// What a field past the end of an object reports.
pub open spec fn short(what: Seq<char>, o: nat) -> Seq<char> {
    what + " object ends before offset "@ + hex(o)
}

/// What a field past the end of an object reports.
pub fn truncated(what: &str, o: u128) -> (r: String)
    ensures
        r@ == short(what@, o as nat),
{
    let at: String = wide_hex_of(o);
    join3(what, " object ends before offset ", at.as_str())
}

/// Two bytes at `o`.
pub open spec fn field16(what: Seq<char>, b: Seq<u8>, o: nat) -> Result<u16, Seq<char>> {
    if o + 2 <= b.len() {
        Ok(of16(b, o as int))
    } else {
        Err(short(what, o))
    }
}

/// Four bytes at `o`.
pub open spec fn field32(what: Seq<char>, b: Seq<u8>, o: nat) -> Result<u32, Seq<char>> {
    if o + 4 <= b.len() {
        Ok(of32(b, o as int))
    } else {
        Err(short(what, o))
    }
}

/// Eight bytes at `o`.
pub open spec fn field64(what: Seq<char>, b: Seq<u8>, o: nat) -> Result<u64, Seq<char>> {
    if o + 8 <= b.len() {
        Ok(of64(b, o as int))
    } else {
        Err(short(what, o))
    }
}

/// `n` bytes at `o`.
pub open spec fn span(what: Seq<char>, b: Seq<u8>, o: nat, n: nat) -> Result<Seq<u8>, Seq<char>> {
    if o + n <= b.len() {
        Ok(b.subrange(o as int, (o + n) as int))
    } else {
        Err(short(what, o))
    }
}

/// The index of the first zero byte from `i` on.
pub open spec fn first_zero(b: Seq<u8>, i: int) -> Option<int>
    decreases b.len() - i,
{
    if i < 0 || i >= b.len() {
        None
    } else if b[i] == 0 {
        Some(i)
    } else {
        first_zero(b, i + 1)
    }
}

/// The bytes from `at` up to the zero that ends them; none where none does.
pub open spec fn terminated(b: Seq<u8>, at: int) -> Seq<u8> {
    match first_zero(b, at) {
        Some(e) => b.subrange(at, e),
        None => Seq::empty(),
    }
}

/// The name at `at` in a string table.
pub open spec fn name_at(what: Seq<char>, b: Seq<u8>, at: nat) -> Result<Seq<char>, Seq<char>> {
    if at <= b.len() {
        Ok(read_text(terminated(b, at as int)))
    } else {
        Err(short(what, at))
    }
}

/// Two bytes at `o`.
pub fn read16(what: &str, b: &[u8], o: u128) -> (r: Result<u16, String>)
    requires
        o <= u128::MAX - 2,
    ensures
        agree(r, field16(what@, b@, o as nat)),
{
    if o + 2 <= b.len() as u128 {
        Ok(get16(b, o as usize))
    } else {
        Err(truncated(what, o))
    }
}

/// Four bytes at `o`.
pub fn read32(what: &str, b: &[u8], o: u128) -> (r: Result<u32, String>)
    requires
        o <= u128::MAX - 4,
    ensures
        agree(r, field32(what@, b@, o as nat)),
{
    if o + 4 <= b.len() as u128 {
        Ok(get32(b, o as usize))
    } else {
        Err(truncated(what, o))
    }
}

/// Eight bytes at `o`.
pub fn read64(what: &str, b: &[u8], o: u128) -> (r: Result<u64, String>)
    requires
        o <= u128::MAX - 8,
    ensures
        agree(r, field64(what@, b@, o as nat)),
{
    if o + 8 <= b.len() as u128 {
        Ok(get64(b, o as usize))
    } else {
        Err(truncated(what, o))
    }
}

/// `n` bytes at `o`.
pub fn read_span(what: &str, b: &[u8], o: u64, n: u64) -> (r: Result<Vec<u8>, String>)
    ensures
        match r {
            Ok(v) => span(what@, b@, o as nat, n as nat) == Ok::<Seq<u8>, Seq<char>>(v@),
            Err(e) => span(what@, b@, o as nat, n as nat) == Err::<Seq<u8>, Seq<char>>(e@),
        },
{
    let end: u128 = o as u128 + n as u128;
    if end <= b.len() as u128 {
        Ok(part(b, o as usize, end as usize))
    } else {
        Err(truncated(what, o as u128))
    }
}

/// The bytes from `at` up to the zero that ends them; none where none does.
pub fn until_zero(b: &[u8], at: usize) -> (r: Vec<u8>)
    requires
        at <= b@.len(),
    ensures
        r@ == terminated(b@, at as int),
{
    let mut i: usize = at;
    while i < b.len()
        invariant
            at <= i <= b@.len(),
            first_zero(b@, at as int) == first_zero(b@, i as int),
        decreases b@.len() - i,
    {
        if b[i] == 0 {
            return part(b, at, i);
        }
        i = i + 1;
    }
    Vec::new()
}

/// The name at `at` in a string table.
pub fn read_name(what: &str, b: &[u8], at: u128) -> (r: Result<String, String>)
    ensures
        match r {
            Ok(s) => name_at(what@, b@, at as nat) == Ok::<Seq<char>, Seq<char>>(s@),
            Err(e) => name_at(what@, b@, at as nat) == Err::<Seq<char>, Seq<char>>(e@),
        },
{
    if at <= b.len() as u128 {
        let raw: Vec<u8> = until_zero(b, at as usize);
        Ok(lossy(raw.as_slice()))
    } else {
        Err(truncated(what, at))
    }
}

/// Whether bytes come before others in the order of a dictionary, from byte `i` on.
pub open spec fn earlier(a: Seq<u8>, b: Seq<u8>, i: int) -> bool
    decreases b.len() - i,
{
    if i < 0 || i >= b.len() {
        false
    } else if i >= a.len() {
        true
    } else if a[i] != b[i] {
        a[i] < b[i]
    } else {
        earlier(a, b, i + 1)
    }
}

/// Whether a text comes before another, byte for byte.
pub fn comes_before(a: &str, b: &str) -> (r: bool)
    ensures
        r == earlier(crate::bytes::utf8(a@), crate::bytes::utf8(b@), 0),
{
    let x: &[u8] = a.as_bytes();
    let y: &[u8] = b.as_bytes();
    let mut i: usize = 0;
    while i < y.len()
        invariant
            i <= y@.len(),
            i <= x@.len(),
            x@ == crate::bytes::utf8(a@),
            y@ == crate::bytes::utf8(b@),
            earlier(x@, y@, i as int) == earlier(x@, y@, 0),
        decreases y@.len() - i,
    {
        if i >= x.len() {
            return true;
        }
        if x[i] != y[i] {
            return x[i] < y[i];
        }
        i = i + 1;
    }
    false
}

/// A name and the bytes it stands for.
pub struct Extent {
    pub name: String,
    pub start: u64,
    pub end: u64,
}

/// A name and the bytes it stands for, as a value.
pub struct Ev {
    pub name: Seq<char>,
    pub start: u64,
    pub end: u64,
}

impl View for Extent {
    type V = Ev;

    open spec fn view(&self) -> Ev {
        Ev { name: self.name@, start: self.start, end: self.end }
    }
}

/// Extents, as values.
pub open spec fn extents(v: Seq<Extent>) -> Seq<Ev> {
    v.map_values(|e: Extent| e@)
}

/// Whether an extent comes before another: by its start, and then by its name.
pub open spec fn sooner(a: Ev, b: Ev) -> bool {
    a.start < b.start || a.start == b.start && earlier(
        crate::bytes::utf8(a.name),
        crate::bytes::utf8(b.name),
        0,
    )
}

/// Extents with one more, behind every one that it does not come before.
pub open spec fn inserted(v: Seq<Ev>, x: Ev) -> Seq<Ev>
    decreases v.len(),
{
    if v.len() > 0 && sooner(x, v.last()) {
        inserted(v.drop_last(), x).push(v.last())
    } else {
        v.push(x)
    }
}

proof fn lemma_inserted(v: Seq<Ev>, x: Ev, j: int)
    requires
        0 <= j <= v.len(),
        forall|k: int| j <= k < v.len() ==> sooner(x, #[trigger] v[k]),
        j > 0 ==> !sooner(x, v[j - 1]),
    ensures
        inserted(v, x) == v.insert(j, x),
    decreases v.len(),
{
    if j < v.len() {
        assert(sooner(x, v[v.len() - 1]));
        let w = v.drop_last();
        assert forall|k: int| j <= k < w.len() implies sooner(x, #[trigger] w[k]) by {
            assert(w[k] == v[k]);
        }
        lemma_inserted(w, x, j);
        assert(inserted(v, x) =~= v.insert(j, x));
    } else {
        assert(inserted(v, x) =~= v.insert(j, x));
    }
}

/// Puts an extent behind every one that it does not come before.
pub fn insert_extent(v: &mut Vec<Extent>, x: Extent)
    ensures
        extents(final(v)@) == inserted(extents(old(v)@), x@),
{
    let mut j: usize = v.len();
    while j > 0
        invariant
            j <= v.len(),
            v@ == old(v)@,
            forall|k: int| j <= k < v.len() ==> sooner(x@, #[trigger] extents(v@)[k]),
        ensures
            j <= v.len(),
            v@ == old(v)@,
            forall|k: int| j <= k < v.len() ==> sooner(x@, #[trigger] extents(v@)[k]),
            j > 0 ==> !sooner(x@, extents(v@)[j - 1]),
        decreases j,
    {
        let e: &Extent = &v[j - 1];
        assert(extents(v@)[j - 1] == e@);
        if !(x.start < e.start || x.start == e.start && comes_before(
            x.name.as_str(),
            e.name.as_str(),
        )) {
            break;
        }
        j = j - 1;
    }
    proof {
        lemma_inserted(extents(v@), x@, j as int);
    }
    let ghost before = v@;
    let ghost y = x@;
    v.insert(j, x);
    assert(extents(v@) =~= extents(before).insert(j as int, y));
}

/// Whether extents stand in order: by their starts, and then by their names.
pub open spec fn in_order(v: Seq<Ev>) -> bool {
    forall|i: int, j: int| 0 <= i < j < v.len() ==> !sooner(#[trigger] v[j], #[trigger] v[i])
}

/// Of two extents at most one comes before the other, and what comes before one comes before all
/// that this one does not follow.
pub proof fn extents_are_ordered(x: Ev, a: Ev, b: Ev)
    ensures
        !(sooner(a, b) && sooner(b, a)),
        sooner(x, a) && !sooner(b, a) ==> sooner(x, b),
{
    texts_are_ordered(a.name, b.name);
    if sooner(x, a) && !sooner(b, a) && x.start == a.start && a.start == b.start {
        if a.name != b.name {
            the_order_of_texts_carries_on(x.name, a.name, b.name);
        }
    }
}

/// An insertion keeps the order, and adds the one extent.
pub proof fn an_insertion_keeps_the_order(v: Seq<Ev>, x: Ev)
    requires
        in_order(v),
    ensures
        in_order(inserted(v, x)),
        inserted(v, x).to_multiset() == v.to_multiset().insert(x),
        inserted(v, x).len() == v.len() + 1,
        forall|i: int|
            0 <= i < inserted(v, x).len() ==> #[trigger] inserted(v, x)[i] == x || v.contains(
                inserted(v, x)[i],
            ),
    decreases v.len(),
{
    broadcast use vstd::seq_lib::group_to_multiset_ensures;

    let t = inserted(v, x);
    if v.len() > 0 && sooner(x, v.last()) {
        let w = v.drop_last();
        assert(in_order(w)) by {
            assert forall|i: int, j: int| 0 <= i < j < w.len() implies !sooner(
                #[trigger] w[j],
                #[trigger] w[i],
            ) by {
                assert(!sooner(v[j], v[i]));
            }
        }
        an_insertion_keeps_the_order(w, x);
        let r = inserted(w, x);
        assert(v =~= w.push(v.last()));
        assert(t == r.push(v.last()));
        assert forall|i: int| 0 <= i < r.len() implies !sooner(v.last(), #[trigger] r[i]) by {
            if r[i] == x {
                extents_are_ordered(x, x, v.last());
            } else {
                let k = choose|k: int| 0 <= k < w.len() && w[k] == r[i];
                assert(!sooner(v[v.len() - 1], v[k]));
            }
        }
        assert forall|i: int, j: int| 0 <= i < j < t.len() implies !sooner(
            #[trigger] t[j],
            #[trigger] t[i],
        ) by {
            if j < r.len() {
                assert(t[i] == r[i] && t[j] == r[j]);
            } else {
                assert(t[i] == r[i]);
            }
        }
        assert forall|i: int| 0 <= i < t.len() implies #[trigger] t[i] == x || v.contains(t[i]) by {
            if i < r.len() {
                assert(t[i] == r[i]);
                if r[i] != x {
                    let k = choose|k: int| 0 <= k < w.len() && w[k] == r[i];
                    assert(v[k] == t[i]);
                }
            } else {
                assert(v[v.len() - 1] == t[i]);
            }
        }
        assert(t.to_multiset() =~= v.to_multiset().insert(x));
    } else {
        assert forall|i: int| 0 <= i < t.len() implies #[trigger] t[i] == x || v.contains(t[i]) by {
            if i < v.len() {
                assert(v[i] == t[i]);
            }
        }
        assert forall|i: int, j: int| 0 <= i < j < t.len() implies !sooner(
            #[trigger] t[j],
            #[trigger] t[i],
        ) by {
            if j < v.len() {
                assert(!sooner(v[j], v[i]));
            } else {
                let n = v.len() - 1;
                if i < n {
                    assert(!sooner(v[n], v[i]));
                }
                extents_are_ordered(x, v[i], v.last());
            }
        }
    }
}

} // verus!
