//! What sorting a list comes to: every element once, in the order of the step, and elements that the
//! step calls equal in the order that they were in.

use crate::copies::{copied, Frame};
use crate::grown::{
    adds, adds_addk, adds_br_lt, adds_clamp, adds_dab, adds_elem_load, adds_elem_store, adds_fresh,
    adds_imm_to, adds_jump, adds_load_disc, adds_mv, adds_new_elems, adds_place, adds_rc_block,
    adds_retain_counted, adds_sort_merge, adds_test_b, adds_test_k, adds_thunk_call,
};
use crate::lists::{Block, Thk, GREATER, STAGE_ROOM, STAGE_WORD};
use crate::machine::{
    adds_words, arm_is_a_twin, byte_beside_put, clear, copy_of, extended, hole, loaded, loaded_word,
    made, makes_blocks, moves_elements, op_da, stored, word, word_beside_copied, word_beside_put,
    word_of_copied, word_of_put, Run, St,
};
use crate::owning::{
    a_walk_counts_each_owned_block_once, carries, not_spare, op_give, sits, tag_number, walks,
};
use crate::select::{narrow, Env, Helper, Item, Sel, H, V};
use crate::text::decimal;
use vstd::prelude::*;

verus! {

// ---------------------------------------------------------------------------
// Orders
// ---------------------------------------------------------------------------

/// What a step answers of two elements: zero where the first is less, one where they are equal, and
/// two where it is greater.
pub type Order = spec_fn(Seq<u8>, Seq<u8>) -> int;

/// Whether a step is a total preorder.
pub open spec fn preorder(o: Order) -> bool {
    &&& forall|x: Seq<u8>, y: Seq<u8>| 0 <= #[trigger] o(x, y) <= 2
    &&& forall|x: Seq<u8>, y: Seq<u8>| (#[trigger] o(x, y) == 0) == (o(y, x) == 2)
    &&& forall|x: Seq<u8>, y: Seq<u8>, z: Seq<u8>|
        #![trigger o(x, y), o(y, z)]
        o(x, y) != 2 && o(y, z) != 2 ==> o(x, z) != 2
}

/// Whether the element at one position comes before that at another: it is less, or they are equal
/// and it was first.
pub open spec fn first(o: Order, src: Seq<Seq<u8>>, i: int, j: int) -> bool {
    o(src[i], src[j]) == 0 || (o(src[i], src[j]) == 1 && i < j)
}

proof fn lemma_first_on(o: Order, src: Seq<Seq<u8>>, i: int, j: int, k: int)
    requires
        preorder(o),
        first(o, src, i, j),
        first(o, src, j, k),
    ensures
        first(o, src, i, k),
{
    let x = src[i];
    let y = src[j];
    let z = src[k];
    assert(o(x, z) != 2);
    if o(x, z) == 1 {
        assert(o(z, x) == 1) by {
            assert(0 <= o(z, x) <= 2);
            assert((o(z, x) == 0) == (o(x, z) == 2));
            assert((o(x, z) == 0) == (o(z, x) == 2));
        }
        if o(x, y) == 0 {
            assert(o(y, x) == 2);
            assert(o(y, z) != 2 && o(z, x) != 2);
            assert(o(y, x) != 2);
        }
        if o(y, z) == 0 {
            assert(o(z, y) == 2);
            assert(o(z, x) != 2 && o(x, y) != 2);
            assert(o(z, y) != 2);
        }
    }
}

/// Whether positions from `lo` to `hi` are all there, in order.
pub open spec fn run_ok(o: Order, src: Seq<Seq<u8>>, a: Seq<int>, lo: int, hi: int) -> bool {
    &&& forall|i: int| lo <= i < hi ==> lo <= #[trigger] a[i] < hi
    &&& forall|i: int, j: int|
        lo <= i < j < hi ==> first(o, src, #[trigger] a[i], #[trigger] a[j])
}

/// Where two runs of `a` are being merged into `b`: `li` of the one and `ri` of the other is next.
spec fn merging(
    o: Order,
    src: Seq<Seq<u8>>,
    a: Seq<int>,
    b: Seq<int>,
    lo: int,
    mid: int,
    hi: int,
    li: int,
    ri: int,
) -> bool {
    let out = li + ri - mid;
    &&& 0 <= lo <= li <= mid <= ri <= hi <= a.len()
    &&& a.len() == b.len()
    &&& run_ok(o, src, a, lo, mid)
    &&& run_ok(o, src, a, mid, hi)
    &&& run_ok_part(o, src, b, lo, out, hi)
    &&& forall|k: int, p: int|
        #![trigger b[k], a[p]]
        lo <= k < out && li <= p < mid ==> first(o, src, b[k], a[p])
    &&& forall|k: int, p: int|
        #![trigger b[k], a[p]]
        lo <= k < out && ri <= p < hi ==> first(o, src, b[k], a[p])
}

/// A run as far as it is filled.
spec fn run_ok_part(o: Order, src: Seq<Seq<u8>>, a: Seq<int>, lo: int, out: int, hi: int) -> bool {
    &&& forall|i: int| lo <= i < out ==> lo <= #[trigger] a[i] < hi
    &&& forall|i: int, j: int|
        lo <= i < j < out ==> first(o, src, #[trigger] a[i], #[trigger] a[j])
}

/// The left element is next: all of it is there, and the right one is not before it.
proof fn lemma_take_left(
    o: Order,
    src: Seq<Seq<u8>>,
    a: Seq<int>,
    b: Seq<int>,
    lo: int,
    mid: int,
    hi: int,
    li: int,
    ri: int,
)
    requires
        preorder(o),
        merging(o, src, a, b, lo, mid, hi, li, ri),
        li < mid,
        ri < hi ==> o(src[a[li]], src[a[ri]]) != 2,
    ensures
        merging(o, src, a, b.update(li + ri - mid, a[li]), lo, mid, hi, li + 1, ri),
{
    let out = li + ri - mid;
    let c = b.update(out, a[li]);
    assert forall|k: int, p: int|
        #![trigger c[k], a[p]]
        lo <= k < out + 1 && ri <= p < hi implies first(o, src, c[k], a[p]) by {
        if k == out {
            assert(0 <= o(src[a[li]], src[a[ri]]) <= 2);
            assert(first(o, src, a[li], a[ri]));
            if p > ri {
                lemma_first_on(o, src, a[li], a[ri], a[p]);
            }
        } else {
            assert(c[k] == b[k]);
        }
    }
    assert forall|k: int, p: int|
        #![trigger c[k], a[p]]
        lo <= k < out + 1 && li + 1 <= p < mid implies first(o, src, c[k], a[p]) by {
        if k < out {
            assert(c[k] == b[k]);
        }
    }
    assert forall|i: int, j: int| lo <= i < j < out + 1 implies first(
        o,
        src,
        #[trigger] c[i],
        #[trigger] c[j],
    ) by {
        assert(c[i] == b[i]);
        if j < out {
            assert(c[j] == b[j]);
        }
    }
    assert forall|i: int| lo <= i < out + 1 implies lo <= #[trigger] c[i] < hi by {
        if i < out {
            assert(c[i] == b[i]);
        }
    }
}

/// The right element is next: the left one is greater, or there is none.
proof fn lemma_take_right(
    o: Order,
    src: Seq<Seq<u8>>,
    a: Seq<int>,
    b: Seq<int>,
    lo: int,
    mid: int,
    hi: int,
    li: int,
    ri: int,
)
    requires
        preorder(o),
        merging(o, src, a, b, lo, mid, hi, li, ri),
        ri < hi,
        li < mid ==> o(src[a[li]], src[a[ri]]) == 2,
    ensures
        merging(o, src, a, b.update(li + ri - mid, a[ri]), lo, mid, hi, li, ri + 1),
{
    let out = li + ri - mid;
    let c = b.update(out, a[ri]);
    assert forall|k: int, p: int|
        #![trigger c[k], a[p]]
        lo <= k < out + 1 && li <= p < mid implies first(o, src, c[k], a[p]) by {
        if k == out {
            assert((o(src[a[ri]], src[a[li]]) == 0) == (o(src[a[li]], src[a[ri]]) == 2));
            assert(first(o, src, a[ri], a[li]));
            if p > li {
                lemma_first_on(o, src, a[ri], a[li], a[p]);
            }
        } else {
            assert(c[k] == b[k]);
        }
    }
    assert forall|k: int, p: int|
        #![trigger c[k], a[p]]
        lo <= k < out + 1 && ri + 1 <= p < hi implies first(o, src, c[k], a[p]) by {
        if k < out {
            assert(c[k] == b[k]);
        }
    }
    assert forall|i: int, j: int| lo <= i < j < out + 1 implies first(
        o,
        src,
        #[trigger] c[i],
        #[trigger] c[j],
    ) by {
        assert(c[i] == b[i]);
        if j < out {
            assert(c[j] == b[j]);
        }
    }
    assert forall|i: int| lo <= i < out + 1 implies lo <= #[trigger] c[i] < hi by {
        if i < out {
            assert(c[i] == b[i]);
        }
    }
}

/// The end of the run of width `w` at `lo`.
pub open spec fn run_end(lo: int, w: int, n: int) -> int {
    if lo + w < n {
        lo + w
    } else {
        n
    }
}

/// Whether the runs of width `w` below `upto` are in order.
#[verifier::opaque]
spec fn runs_ok(o: Order, src: Seq<Seq<u8>>, a: Seq<int>, w: int, n: int, upto: int) -> bool {
    forall|k: int|
        0 <= k && (#[trigger] (k * w)) < upto ==> run_ok(o, src, a, k * w, run_end(k * w, w, n))
}

// ---------------------------------------------------------------------------
// The frame and the blocks of a sort
// ---------------------------------------------------------------------------

/// A sort: the run that it is part of, the list and the step, what the step answers, and what a walk
/// of an element rests on.
pub struct Job {
    pub r: Run,
    pub e: Env,
    pub x: Block,
    pub c: Thk,
    pub o: Order,
    pub hs: Seq<Helper>,
    pub base: u64,
    pub deep: nat,
    pub lim: int,
}

/// The operation that calls a closure.
pub open spec fn op_step(fslot: u64, base: u64) -> Item {
    Item::Stencil {
        key: "calli"@,
        binds: seq![
            (H::A, V::I(fslot)),
            (H::N, V::I(base)),
            (H::P, V::I(base)),
            (H::Cont0, V::Fall),
        ],
    }
}

/// Bytes of memory.
pub open spec fn bytes_at(m: Frame, a: int, n: int) -> Seq<u8> {
    Seq::new(n as nat, |k: int| m(a + k))
}

/// Whether what was in use still is, and holds what it held.
pub open spec fn heap_kept(st: St, after: St) -> bool {
    forall|x: int| #[trigger] (st.used)(x) ==> (after.used)(x) && (after.heap)(x) == (st.heap)(x)
}

/// A call of the step, once its environment is handed over, leaves what the step answers of its two
/// arguments. It changes nothing of the frame of its caller nor of what is in use.
pub open spec fn answers(j: Job) -> bool {
    forall|st: St|
        st.at(j.c.env) == st.at((j.c.fslot + 8) as u64) ==> ({
            let after = #[trigger] (j.r.m.does)(op_step(j.c.fslot as u64, j.c.base), st);
            &&& after.stopped == st.stopped
            &&& heap_kept(st, after)
            &&& forall|x: int| x < j.c.base ==> #[trigger] (after.frame)(x) == (st.frame)(x)
            &&& tag_number(
                after.frame,
                j.c.ret as int,
                j.e.layout(j.c.ret_ty).tag()->0 as int,
            ) == (j.o)(
                bytes_at(st.frame, j.c.params[0] as int, j.x.size as int),
                bytes_at(st.frame, j.c.params[1] as int, j.x.size as int),
            )
        })
}

impl Job {
    /// The bytes that an element takes in the frame.
    pub open spec fn room(self) -> int {
        if self.x.size < 8 {
            8
        } else {
            self.x.size as int
        }
    }

    /// Where an element is staged.
    pub open spec fn stage(self) -> u64 {
        self.e.word(STAGE_WORD as int)
    }

    /// Whether an element at an offset can be retained there.
    pub open spec fn retains(self, at: u64) -> bool {
        self.e.owns(self.x.elem) && !self.e.sw.no_counts ==> {
            &&& sits(self.e.prog.tables, self.x.elem, at as int, self.deep, self.lim)
            &&& forall|s: Sel| (#[trigger] s.walk_rc(self.e, self.x.elem, at, true, 0)).1 is None
        }
    }

    /// What a sort rests on: a machine that does what its operations ask for, the step a total
    /// preorder, an element no wider than the distance of two, and places in the frame that are
    /// apart.
    pub open spec fn able(self) -> bool {
        let e = self.e;
        let c = self.c;
        &&& walks(self.r, e, self.hs, self.base, self.lim)
        &&& adds_words(self.r.m)
        &&& moves_elements(self.r.m)
        &&& makes_blocks(self.r.m)
        &&& answers(self)
        &&& preorder(self.o)
        &&& self.hs.len() <= usize::MAX
        &&& self.lim <= u64::MAX
        &&& 0 < self.x.size <= self.x.stride
        &&& self.x.size <= STAGE_ROOM
        &&& c.params.len() == 2
        &&& self.stage() + STAGE_ROOM <= c.base
        &&& c.base <= c.params[0]
        &&& c.base <= c.params[1]
        &&& c.base <= c.env
        &&& c.base <= c.ret
        &&& c.params[0] + self.room() <= u64::MAX
        &&& c.params[1] + self.room() <= u64::MAX
        &&& c.env + 8 <= u64::MAX
        &&& c.ret + 8 <= u64::MAX
        &&& clear(c.params[0] as int, self.room(), c.params[1] as int, self.room())
        &&& clear(c.params[0] as int, self.room(), c.env as int, 8)
        &&& clear(c.params[1] as int, self.room(), c.env as int, 8)
        &&& self.x.at + 16 <= e.scratch
        &&& c.fslot + 16 <= e.scratch
        &&& e.layout(c.ret_ty).tag() matches Some(tag) && (tag == 1 || tag == 2 || tag == 4 || tag
            == 8)
        &&& self.retains(self.stage())
        &&& self.retains(c.params[0])
        &&& self.retains(c.params[1])
    }
}

/// Word `k` of the loop of a sort.
pub open spec fn local(e: Env, k: int) -> u64 {
    e.word(32 + k)
}

/// Whether a byte of the frame is one that a sort keeps count with, or is below its words.
spec fn watched(e: Env, x: int) -> bool {
    x < e.scratch || (local(e, 0) <= x < local(e, 14))
}

/// Whether a frame is another as far as a sort looks.
spec fn quiet(e: Env, a: Frame, b: Frame) -> bool {
    forall|x: int| #[trigger] watched(e, x) ==> b(x) == a(x)
}

/// Whether a state is another with `v` in word `k` of the loop, as far as a sort looks: all the same
/// where there is no such word.
spec fn turns(e: Env, st: St, after: St, k: int, v: u64) -> bool {
    &&& forall|i: int|
        0 <= i < 14 ==> #[trigger] after.at(local(e, i)) == if i == k {
            v
        } else {
            st.at(local(e, i))
        }
    &&& forall|x: int| x < e.scratch ==> #[trigger] (after.frame)(x) == (st.frame)(x)
}

proof fn lemma_at_same(a: St, b: St, x: u64)
    requires
        forall|k: int| 0 <= k < 8 ==> #[trigger] (b.frame)(x + k) == (a.frame)(x + k),
    ensures
        b.at(x) == a.at(x),
{
    reveal(word);
    assert(Seq::new(8, |i: int| (b.frame)(x + i)) =~= Seq::new(8, |i: int| (a.frame)(x + i)));
}

proof fn lemma_quiet(e: Env, st: St, after: St)
    requires
        quiet(e, st.frame, after.frame),
    ensures
        turns(e, st, after, -1, 0),
{
    assert forall|i: int| 0 <= i < 14 implies #[trigger] after.at(local(e, i)) == st.at(
        local(e, i),
    ) by {
        assert forall|k: int| 0 <= k < 8 implies #[trigger] (after.frame)(local(e, i) + k) == (
        st.frame)(local(e, i) + k) by {
            assert(watched(e, local(e, i) + k));
        }
        lemma_at_same(st, after, local(e, i));
    }
    assert forall|x: int| x < e.scratch implies #[trigger] (after.frame)(x) == (st.frame)(x) by {
        assert(watched(e, x));
    }
}

proof fn lemma_turns(e: Env, st: St, after: St, k: int, v: u64)
    requires
        0 <= k < 14,
        quiet(e, st.with(local(e, k), v).frame, after.frame),
    ensures
        turns(e, st, after, k, v),
{
    broadcast use {word_of_put, word_beside_put, byte_beside_put};

    let mid = st.with(local(e, k), v);
    lemma_quiet(e, mid, after);
    assert forall|i: int| 0 <= i < 14 implies #[trigger] after.at(local(e, i)) == if i == k {
        v
    } else {
        st.at(local(e, i))
    } by {
        assert(after.at(local(e, i)) == mid.at(local(e, i)));
    }
    assert forall|x: int| x < e.scratch implies #[trigger] (after.frame)(x) == (st.frame)(x) by {
        assert((after.frame)(x) == (mid.frame)(x));
    }
}

/// A word of the loop copied to another.
proof fn lemma_mv_local(j: Job, s: Sel, k: int, from: int, st: St) -> (after: St)
    requires
        j.able(),
        0 <= k < 14,
        0 <= from < 15,
        k != from,
        j.r.has(s.mv(local(j.e, k), local(j.e, from), 8)),
    ensures
        j.r.goes(
            s.ops.len() as int,
            st,
            s.mv(local(j.e, k), local(j.e, from), 8).ops.len() as int,
            after,
        ),
        after == (St { frame: after.frame, ..st }),
        turns(j.e, st, after, k, st.at(local(j.e, from))),
        after.at(local(j.e, 14)) == st.at(local(j.e, 14)),
{
    broadcast use {word_of_copied, word_beside_copied};

    let d = local(j.e, k);
    let a = local(j.e, from);
    j.r.lemma_mv(s, d, a, 8, st);
    let after = st.moved(d, a, 8);
    after
}

/// A sum of two words of the loop.
proof fn lemma_add_local(j: Job, s: Sel, k: int, a: int, b: int, st: St) -> (after: St)
    requires
        j.able(),
        0 <= k < 14,
        0 <= a < 14,
        0 <= b < 14,
        st.at(local(j.e, a)) + st.at(local(j.e, b)) <= u64::MAX,
        j.r.has(s.dab("bin/add/u64/ff/f"@, local(j.e, k), local(j.e, a), local(j.e, b))),
    ensures
        j.r.goes(
            s.ops.len() as int,
            st,
            s.dab(
                "bin/add/u64/ff/f"@,
                local(j.e, k),
                local(j.e, a),
                local(j.e, b),
            ).ops.len() as int,
            after,
        ),
        after == (St { frame: after.frame, ..st }),
        turns(
            j.e,
            st,
            after,
            k,
            (st.at(local(j.e, a)) + st.at(local(j.e, b))) as u64,
        ),
{
    let d = local(j.e, k);
    let v = (st.at(local(j.e, a)) + st.at(local(j.e, b))) as u64;
    j.r.lemma_add_words(s, d, local(j.e, a), local(j.e, b), st);
    let after = st.with(d, v);
    lemma_turns(j.e, st, after, k, v);
    after
}

/// One more in a word of the loop.
proof fn lemma_step_local(j: Job, s: Sel, k: int, st: St) -> (after: St)
    requires
        j.able(),
        0 <= k < 14,
        st.at(local(j.e, k)) < u64::MAX,
        j.r.has(s.addk(j.e, local(j.e, k), local(j.e, k), 1)),
    ensures
        j.r.goes(
            s.ops.len() as int,
            st,
            s.addk(j.e, local(j.e, k), local(j.e, k), 1).ops.len() as int,
            after,
        ),
        after == (St { frame: after.frame, ..st }),
        turns(j.e, st, after, k, (st.at(local(j.e, k)) + 1) as u64),
        forall|x: int|
            j.stage() <= x ==> #[trigger] (after.frame)(x) == (st.frame)(x),
{
    let e = j.e;
    let d = local(e, k);
    let after = j.r.lemma_addk(s, e, d, d, 1, st);
    assert forall|i: int| 0 <= i < 14 implies #[trigger] after.at(local(e, i)) == if i == k {
        (st.at(d) + 1) as u64
    } else {
        st.at(local(e, i))
    } by {
        if i != k {
            lemma_at_same(st, after, local(e, i));
        }
    }
    after
}

/// Zero or another literal into a word of the loop.
proof fn lemma_imm_local(j: Job, s: Sel, k: int, v: u64, st: St) -> (after: St)
    requires
        j.able(),
        0 <= k < 14,
        j.r.has(s.imm_to(local(j.e, k), v)),
    ensures
        j.r.goes(
            s.ops.len() as int,
            st,
            s.imm_to(local(j.e, k), v).ops.len() as int,
            after,
        ),
        after == (St { frame: after.frame, ..st }),
        turns(j.e, st, after, k, v),
{
    j.r.lemma_imm(s, local(j.e, k), v, st);
    let after = st.with(local(j.e, k), v);
    lemma_turns(j.e, st, after, k, v);
    after
}

/// A test of two words of the loop.
proof fn lemma_lt_local(j: Job, s: Sel, a: int, b: int, l: usize, st: St) -> (after: St)
    requires
        j.able(),
        0 <= a < 14,
        0 <= b < 14,
        j.r.has(s.br_lt(j.e, local(j.e, a), local(j.e, b), V::Fall, V::Blk(l), H::T)),
    ensures
        j.r.goes(
            s.ops.len() as int,
            st,
            if st.at(local(j.e, a)) < st.at(local(j.e, b)) {
                s.br_lt(
                    j.e,
                    local(j.e, a),
                    local(j.e, b),
                    V::Fall,
                    V::Blk(l),
                    H::T,
                ).ops.len() as int
            } else {
                (j.r.at)(l)
            },
            after,
        ),
        after == (St { frame: after.frame, ..st }),
        turns(j.e, st, after, -1, 0),
{
    let e = j.e;
    let after = j.r.lemma_br_lt(s, e, local(e, a), local(e, b), V::Fall, V::Blk(l), H::T, st);
    lemma_quiet(e, st, after);
    after
}

/// An element of a block, as bytes.
#[verifier::opaque]
pub open spec fn item(h: Frame, q: int, stride: int, size: int, i: int) -> Seq<u8> {
    bytes_at(h, q + i * stride, size)
}

/// An element into a place behind the words of a sort.
proof fn lemma_load(j: Job, s: Sel, d: u64, a: u64, i: u64, st: St) -> (after: St)
    requires
        j.able(),
        j.stage() <= d,
        d + j.room() <= u64::MAX,
        a + 8 <= j.stage(),
        i + 8 <= j.stage(),
        j.r.has(s.elem_load(j.e, d, a, i, j.x.stride as u64, j.x.size as u64)),
    ensures
        j.r.goes(
            s.ops.len() as int,
            st,
            s.elem_load(j.e, d, a, i, j.x.stride as u64, j.x.size as u64).ops.len() as int,
            after,
        ),
        after == (St { frame: after.frame, ..st }),
        turns(j.e, st, after, -1, 0),
        bytes_at(after.frame, d as int, j.x.size as int) == item(
            st.heap,
            st.at(a) as int,
            j.x.stride as int,
            j.x.size as int,
            st.at(i) as int,
        ),
        forall|x: int|
            (x < d || d + j.room() <= x) ==> #[trigger] (after.frame)(x) == (st.frame)(x),
{
    let stride = j.x.stride as u64;
    let size = j.x.size as u64;
    j.r.lemma_elem_load(s, j.e, d, a, i, stride, size, st);
    let b = copy_of(st, a, i, stride, size);
    let after = if size < 8 {
        loaded_word(st, d, b)
    } else {
        loaded(st, d, b)
    };
    lemma_quiet(j.e, st, after);
    reveal(item);
    assert(bytes_at(after.frame, d as int, size as int) =~= bytes_at(
        st.heap,
        st.at(a) + st.at(i) * (j.x.stride as int),
        size as int,
    ));
    after
}

/// A staged element into a block.
proof fn lemma_store(j: Job, s: Sel, a: u64, i: u64, st: St) -> (after: St)
    requires
        j.able(),
        j.r.has(s.elem_store(j.e, j.stage(), a, i, j.x.stride as u64, j.x.size as u64)),
    ensures
        j.r.goes(
            s.ops.len() as int,
            st,
            s.elem_store(
                j.e,
                j.stage(),
                a,
                i,
                j.x.stride as u64,
                j.x.size as u64,
            ).ops.len() as int,
            after,
        ),
        after == (St { heap: after.heap, ..st }),
        item(
            after.heap,
            st.at(a) as int,
            j.x.stride as int,
            j.x.size as int,
            st.at(i) as int,
        ) == bytes_at(st.frame, j.stage() as int, j.x.size as int),
        ({
            let at = st.at(a) + st.at(i) * (j.x.stride as int);
            forall|x: int|
                (x < at || at + j.x.size <= x) ==> #[trigger] (after.heap)(x) == (st.heap)(x)
        }),
{
    let stride = j.x.stride as u64;
    let size = j.x.size as u64;
    j.r.lemma_elem_store(s, j.e, j.stage(), a, i, stride, size, st);
    let b = copy_of(st, a, i, stride, size);
    let after = stored(st, j.stage(), b);
    reveal(item);
    assert(bytes_at(after.heap, b.at, size as int) =~= bytes_at(
        st.frame,
        j.stage() as int,
        size as int,
    ));
    after
}

/// An element retained in the frame.
proof fn lemma_retain(j: Job, s: Sel, at: u64, st: St) -> (after: St)
    requires
        j.able(),
        j.stage() <= at,
        j.retains(at),
        carries(j.r, j.hs, s.retain_counted(j.e, j.x.elem, at)),
    ensures
        j.r.goes(
            s.ops.len() as int,
            st,
            s.retain_counted(j.e, j.x.elem, at).ops.len() as int,
            after,
        ),
        after == (St { frame: after.frame, log: after.log, ..st }),
        turns(j.e, st, after, -1, 0),
        forall|x: int| j.stage() <= x ==> #[trigger] (after.frame)(x) == (st.frame)(x),
{
    let e = j.e;
    if e.owns(j.x.elem) && !e.sw.no_counts {
        let after = a_walk_counts_each_owned_block_once(
            j.r,
            e,
            j.hs,
            j.base,
            s,
            j.x.elem,
            at,
            true,
            j.deep,
            j.lim,
            st,
        );
        assert forall|x: int| #[trigger] watched(e, x) implies (after.frame)(x) == (st.frame)(x) by {
            assert(not_spare(e, x));
            assert((st.frame)(x) == (after.frame)(x));
        }
        assert forall|x: int| j.stage() <= x implies #[trigger] (after.frame)(x) == (st.frame)(
            x,
        ) by {
            assert(not_spare(e, x));
            assert((st.frame)(x) == (after.frame)(x));
        }
        lemma_quiet(e, st, after);
        after
    } else {
        j.r.lemma_stays(s.ops.len() as int, st);
        st
    }
}

/// A call of the step on the elements at its two parameters.
proof fn lemma_call(j: Job, s: Sel, st: St) -> (after: St)
    requires
        j.able(),
        j.r.has(s.thunk_call(j.c)),
    ensures
        j.r.goes(s.ops.len() as int, st, s.thunk_call(j.c).ops.len() as int, after),
        turns(j.e, st, after, -1, 0),
        after.stopped == st.stopped,
        heap_kept(st, after),
        tag_number(
            after.frame,
            j.c.ret as int,
            j.e.layout(j.c.ret_ty).tag()->0 as int,
        ) == (j.o)(
            bytes_at(st.frame, j.c.params[0] as int, j.x.size as int),
            bytes_at(st.frame, j.c.params[1] as int, j.x.size as int),
        ),
{
    broadcast use {word_of_copied, word_beside_copied};

    let c = j.c;
    let from = (c.fslot + 8) as u64;
    let t = s.mv(c.env, from, 8);
    let o = op_step(c.fslot as u64, c.base);
    let u = t.call_ptr(c.fslot as u64, c.base);
    assert(s.thunk_call(c) == u);
    assert(u == t.add(o));
    reveal_with_fuel(hole, 6);
    j.r.lemma_add(t, o, st);
    j.r.lemma_mv(s, c.env, from, 8, st);
    let mid = st.moved(c.env, from, 8);
    j.r.lemma_add(t, o, mid);
    let after = (j.r.m.does)(o, mid);
    j.r.lemma_on(s.ops.len() as int, st, t.ops.len() as int, mid, u.ops.len() as int, after);
    let size = j.x.size as int;
    assert(bytes_at(mid.frame, c.params[0] as int, size) =~= bytes_at(
        st.frame,
        c.params[0] as int,
        size,
    ));
    assert(bytes_at(mid.frame, c.params[1] as int, size) =~= bytes_at(
        st.frame,
        c.params[1] as int,
        size,
    ));
    lemma_quiet(j.e, st, after);
    assert forall|x: int| #[trigger] (st.used)(x) implies (after.used)(x) && (after.heap)(x) == (
    st.heap)(x) by {
        assert((mid.used)(x));
    }
    after
}

/// The answer of the step read and tested.
proof fn lemma_answer(j: Job, s: Sel, right: usize, st: St) -> (after: St)
    requires
        j.able(),
        j.r.has(
            s.load_disc(j.e.layout(j.c.ret_ty), j.c.ret, j.e.word(47)).test_k(
                j.e.arm("brcmp/eq/u64/fi"@, H::T),
                j.e.word(47),
                GREATER,
                V::Blk(right),
                V::Fall,
            ),
        ),
    ensures
        j.r.goes(
            s.ops.len() as int,
            st,
            if tag_number(
                st.frame,
                j.c.ret as int,
                j.e.layout(j.c.ret_ty).tag()->0 as int,
            ) == 2 {
                (j.r.at)(right)
            } else {
                s.load_disc(j.e.layout(j.c.ret_ty), j.c.ret, j.e.word(47)).ops.len() as int + 1
            },
            after,
        ),
        after == (St { frame: after.frame, ..st }),
        turns(j.e, st, after, -1, 0),
{
    broadcast use arm_is_a_twin;

    let e = j.e;
    let l = e.layout(j.c.ret_ty);
    let tag = l.tag()->0;
    let w = tag as u64;
    let d = e.word(47);
    let at = j.c.ret;
    let key = e.arm("brcmp/eq/u64/fi"@, H::T);
    let t = s.load_disc(l, at, d);
    assert(t == s.load_w(d, at, w));
    let mid = if narrow(w) {
        St { frame: extended(st.frame, d as int, st.frame, at as int, w as int), ..st }
    } else {
        st.moved(d, at, 8)
    };
    j.r.lemma_test_k(t, key, d, GREATER, V::Blk(right), V::Fall, mid);
    if narrow(w) {
        let o = op_da("loadu/"@ + decimal(w as nat), d, at);
        assert(t == s.add(o));
        reveal_with_fuel(hole, 5);
        j.r.lemma_add(s, o, st);
    } else {
        j.r.lemma_mv(s, d, at, 8, st);
    }
    let n = tag as int;
    let number = tag_number(st.frame, at as int, n);
    assert(mid.at(d) == number) by {
        reveal(word);
        assert(Seq::new(8, |i: int| (mid.frame)(d + i)) =~= Seq::new(
            8,
            |i: int|
                if i < n {
                    (st.frame)(at + i)
                } else {
                    0u8
                },
        ));
    }
    lemma_quiet(e, st, mid);
    j.r.lemma_on(
        s.ops.len() as int,
        st,
        t.ops.len() as int,
        mid,
        if number == 2 {
            (j.r.at)(right)
        } else {
            t.ops.len() as int + 1
        },
        mid,
    );
    mid
}

// ---------------------------------------------------------------------------
// One merge
// ---------------------------------------------------------------------------

/// The selections along a merge.
struct Merge {
    pub s0: Sel,
    pub s1: Sel,
    pub s2: Sel,
    pub s3: Sel,
    pub s4: Sel,
    pub s5: Sel,
    pub s6: Sel,
    pub s7: Sel,
    pub s8: Sel,
    pub s9: Sel,
    pub s10: Sel,
    pub s11: Sel,
    pub s12: Sel,
    pub s13: Sel,
    pub s14: Sel,
    pub s15: Sel,
    pub s16: Sel,
    pub s17: Sel,
    pub s18: Sel,
    pub s19: Sel,
    pub s20: Sel,
    pub s21: Sel,
    pub s22: Sel,
    pub s23: Sel,
    pub s24: Sel,
    pub merge: usize,
    pub merged: usize,
    pub left: usize,
    pub right: usize,
    pub took: usize,
}

spec fn merge_at(j: Job, s: Sel) -> Merge {
    let e = j.e;
    let stride = j.x.stride as u64;
    let size = j.x.size as u64;
    let a = local(e, 4);
    let b = local(e, 5);
    let lo = local(e, 7);
    let mid = local(e, 8);
    let hi = local(e, 9);
    let li = local(e, 10);
    let ri = local(e, 11);
    let out = local(e, 12);
    let p0 = j.c.params[0];
    let p1 = j.c.params[1];
    let s0 = s.mv(li, lo, 8).mv(ri, mid, 8).mv(out, lo, 8);
    let merge = s0.next();
    let merged = s0.fresh().next();
    let left = s0.fresh().fresh().next();
    let right = s0.fresh().fresh().fresh().next();
    let took = s0.fresh().fresh().fresh().fresh().next();
    let s1 = s0.fresh().fresh().fresh().fresh().fresh();
    let s2 = s1.place(merge);
    let s3 = s2.br_lt(e, out, hi, V::Fall, V::Blk(merged), H::T);
    let s4 = s3.br_lt(e, li, mid, V::Fall, V::Blk(right), H::T);
    let s5 = s4.br_lt(e, ri, hi, V::Fall, V::Blk(left), H::T);
    let s6 = s5.elem_load(e, p0, a, li, stride, size);
    let s7 = s6.elem_load(e, p1, a, ri, stride, size);
    let s8 = s7.retain_counted(e, j.x.elem, p0);
    let s9 = s8.retain_counted(e, j.x.elem, p1);
    let s10 = s9.thunk_call(j.c);
    let s11 = s10.load_disc(e.layout(j.c.ret_ty), j.c.ret, e.word(47));
    let s12 = s11.test_k(
        e.arm("brcmp/eq/u64/fi"@, H::T),
        e.word(47),
        GREATER,
        V::Blk(right),
        V::Fall,
    );
    let s13 = s12.place(left);
    let s14 = s13.elem_load(e, j.stage(), a, li, stride, size);
    let s15 = s14.addk(e, li, li, 1);
    let s16 = s15.jump(V::Blk(took));
    let s17 = s16.place(right);
    let s18 = s17.elem_load(e, j.stage(), a, ri, stride, size);
    let s19 = s18.addk(e, ri, ri, 1);
    let s20 = s19.place(took);
    let s21 = s20.elem_store(e, j.stage(), b, out, stride, size);
    let s22 = s21.addk(e, out, out, 1);
    let s23 = s22.jump(V::Blk(merge));
    let s24 = s23.place(merged);
    Merge {
        s0, s1, s2, s3, s4, s5, s6, s7, s8, s9, s10, s11, s12, s13, s14, s15, s16, s17, s18, s19, s20, s21, s22, s23, s24,
        merge,
        merged,
        left,
        right,
        took,
    }
}

/// Whether a run has every selection along a merge.
spec fn merge_there(j: Job, m: Merge) -> bool {
    let r = j.r;
    let hs = j.hs;
    &&& carries(r, hs, m.s0)
    &&& carries(r, hs, m.s1)
    &&& carries(r, hs, m.s2)
    &&& carries(r, hs, m.s3)
    &&& carries(r, hs, m.s4)
    &&& carries(r, hs, m.s5)
    &&& carries(r, hs, m.s6)
    &&& carries(r, hs, m.s7)
    &&& carries(r, hs, m.s8)
    &&& carries(r, hs, m.s9)
    &&& carries(r, hs, m.s10)
    &&& carries(r, hs, m.s11)
    &&& carries(r, hs, m.s12)
    &&& carries(r, hs, m.s13)
    &&& carries(r, hs, m.s14)
    &&& carries(r, hs, m.s15)
    &&& carries(r, hs, m.s16)
    &&& carries(r, hs, m.s17)
    &&& carries(r, hs, m.s18)
    &&& carries(r, hs, m.s19)
    &&& carries(r, hs, m.s20)
    &&& carries(r, hs, m.s21)
    &&& carries(r, hs, m.s22)
    &&& carries(r, hs, m.s23)
    &&& carries(r, hs, m.s24)
}

proof fn lemma_merge_there(j: Job, s: Sel)
    requires
        carries(j.r, j.hs, s.sort_merge(j.e, j.x, j.c)),
    ensures
        s.sort_merge(j.e, j.x, j.c) == merge_at(j, s).s24,
        merge_there(j, merge_at(j, s)),
        carries(j.r, j.hs, s),
        carries(j.r, j.hs, s.mv(local(j.e, 10), local(j.e, 7), 8)),
        carries(
            j.r,
            j.hs,
            s.mv(local(j.e, 10), local(j.e, 7), 8).mv(local(j.e, 11), local(j.e, 8), 8),
        ),
{
    broadcast use {crate::owning::lemma_carries, adds_place, adds_br_lt, adds_elem_load,
        adds_retain_counted, adds_thunk_call, adds_load_disc, adds_test_k, adds_addk, adds_jump,
        adds_elem_store, adds_fresh, adds_mv};

    let m = merge_at(j, s);
    assert(s.sort_merge(j.e, j.x, j.c) == m.s24);
    assert(carries(j.r, j.hs, m.s24));
}

/// The blocks of a sort: how many elements, what they are, and where the source, the result and the
/// scratch are.
pub struct Trio {
    pub n: int,
    pub src: Seq<Seq<u8>>,
    pub qs: int,
    pub qd: int,
    pub qt: int,
}

/// Whether a block is in use.
pub open spec fn in_use(j: Job, n: int, st: St, q: int) -> bool {
    forall|x: int| q <= x < q + n * (j.x.stride as int) ==> #[trigger] (st.used)(x)
}

/// What stays through a sort: the three blocks are in use and apart, the source holds its elements,
/// and the words of the loop say how many there are and where the other two blocks are.
spec fn steady(j: Job, t: Trio, st: St) -> bool {
    let bytes = t.n * (j.x.stride as int);
    &&& t.src.len() == t.n
    &&& 0 <= t.n <= 0x3fff_ffff_ffff_ffff
    &&& in_use(j, t.n, st, t.qs)
    &&& in_use(j, t.n, st, t.qd)
    &&& in_use(j, t.n, st, t.qt)
    &&& clear(t.qs, bytes, t.qd, bytes)
    &&& clear(t.qs, bytes, t.qt, bytes)
    &&& clear(t.qd, bytes, t.qt, bytes)
    &&& st.at(local(j.e, 0)) == t.n
    &&& st.at(local(j.e, 1)) == t.qd
    &&& st.at(local(j.e, 2)) == t.qt
    &&& st.at(j.x.at as u64) == t.qs
    &&& forall|i: int|
        0 <= i < t.n ==> #[trigger] item(
            st.heap,
            t.qs,
            j.x.stride as int,
            j.x.size as int,
            i,
        ) == t.src[i]
}

/// Whether a block holds, as far as `upto`, the elements of the source at some positions.
spec fn filled(j: Job, t: Trio, st: St, q: int, a: Seq<int>, upto: int) -> bool {
    &&& a.len() == t.n
    &&& forall|i: int|
        0 <= i < upto ==> 0 <= #[trigger] a[i] < t.n && item(
            st.heap,
            q,
            j.x.stride as int,
            j.x.size as int,
            i,
        ) == t.src[a[i]]
}

proof fn lemma_spots(i: int, k: int, stride: int)
    requires
        0 <= i < k,
        0 <= stride,
    ensures
        i * stride + stride <= k * stride,
        0 <= i * stride,
{
    assert(i * stride + stride <= k * stride) by (nonlinear_arith)
        requires
            0 <= i < k,
            0 <= stride,
    ;
    assert(0 <= i * stride) by (nonlinear_arith)
        requires
            0 <= i,
            0 <= stride,
    ;
}

/// An element whose bytes are the same is the same.
proof fn lemma_item(j: Job, a: Frame, b: Frame, q: int, i: int)
    requires
        ({
            let at = q + i * (j.x.stride as int);
            forall|x: int| at <= x < at + j.x.size ==> #[trigger] b(x) == a(x)
        }),
    ensures
        item(b, q, j.x.stride as int, j.x.size as int, i) == item(
            a,
            q,
            j.x.stride as int,
            j.x.size as int,
            i,
        ),
{
    reveal(item);
    let at = q + i * (j.x.stride as int);
    assert(bytes_at(b, at, j.x.size as int) =~= bytes_at(a, at, j.x.size as int));
}

/// What is in use keeps its elements.
proof fn lemma_kept(j: Job, n: int, st: St, after: St, q: int)
    requires
        j.able(),
        in_use(j, n, st, q),
        heap_kept(st, after),
    ensures
        in_use(j, n, after, q),
        forall|i: int|
            0 <= i < n ==> #[trigger] item(
                after.heap,
                q,
                j.x.stride as int,
                j.x.size as int,
                i,
            ) == item(st.heap, q, j.x.stride as int, j.x.size as int, i),
{
    assert forall|x: int| q <= x < q + n * (j.x.stride as int) implies #[trigger] (after.used)(x) by {
        assert((st.used)(x));
    }
    assert forall|i: int| 0 <= i < n implies #[trigger] item(
        after.heap,
        q,
        j.x.stride as int,
        j.x.size as int,
        i,
    ) == item(st.heap, q, j.x.stride as int, j.x.size as int, i) by {
        lemma_spots(i, n, j.x.stride as int);
        let at = q + i * (j.x.stride as int);
        assert forall|x: int| at <= x < at + j.x.size implies #[trigger] (after.heap)(x) == (
        st.heap)(x) by {
            assert((st.used)(x));
        }
        lemma_item(j, st.heap, after.heap, q, i);
    }
}

/// Storing one element leaves the others of the block, and those of other blocks.
proof fn lemma_stored(j: Job, n: int, st: St, after: St, q: int, k: int)
    requires
        j.able(),
        0 <= k < n,
        ({
            let at = q + k * (j.x.stride as int);
            forall|x: int|
                (x < at || at + j.x.size <= x) ==> #[trigger] (after.heap)(x) == (st.heap)(x)
        }),
    ensures
        forall|i: int|
            0 <= i < n && i != k ==> #[trigger] item(
                after.heap,
                q,
                j.x.stride as int,
                j.x.size as int,
                i,
            ) == item(st.heap, q, j.x.stride as int, j.x.size as int, i),
        forall|p: int, i: int|
            0 <= i < n && clear(p, n * (j.x.stride as int), q, n * (j.x.stride as int))
                ==> #[trigger] item(after.heap, p, j.x.stride as int, j.x.size as int, i) == item(
                st.heap,
                p,
                j.x.stride as int,
                j.x.size as int,
                i,
            ),
{
    let stride = j.x.stride as int;
    let size = j.x.size as int;
    lemma_spots(k, n, stride);
    assert forall|i: int| 0 <= i < n && i != k implies #[trigger] item(
        after.heap,
        q,
        stride,
        size,
        i,
    ) == item(st.heap, q, stride, size, i) by {
        if i < k {
            lemma_spots(i, k, stride);
        } else {
            lemma_spots(k, i, stride);
        }
        lemma_item(j, st.heap, after.heap, q, i);
    }
    assert forall|p: int, i: int|
        0 <= i < n && clear(p, n * stride, q, n * stride) implies #[trigger] item(
        after.heap,
        p,
        stride,
        size,
        i,
    ) == item(st.heap, p, stride, size, i) by {
        lemma_spots(i, n, stride);
        lemma_item(j, st.heap, after.heap, p, i);
    }
}

/// Steps that turn no block and none of the first three words of the loop keep what stays.
proof fn lemma_steady(j: Job, t: Trio, st: St, after: St, k: int, v: u64)
    requires
        j.able(),
        steady(j, t, st),
        turns(j.e, st, after, k, v),
        k < 0 || k > 2,
        heap_kept(st, after),
    ensures
        steady(j, t, after),
        forall|q: int, a: Seq<int>, upto: int|
            #![trigger filled(j, t, after, q, a, upto)]
            upto <= t.n && in_use(j, t.n, st, q) && filled(j, t, st, q, a, upto) ==> filled(
                j,
                t,
                after,
                q,
                a,
                upto,
            ),
{
    lemma_kept(j, t.n, st, after, t.qs);
    lemma_kept(j, t.n, st, after, t.qd);
    lemma_kept(j, t.n, st, after, t.qt);
    lemma_at_same(st, after, j.x.at as u64);
    assert(after.at(local(j.e, 0)) == st.at(local(j.e, 0)));
    assert(after.at(local(j.e, 1)) == st.at(local(j.e, 1)));
    assert(after.at(local(j.e, 2)) == st.at(local(j.e, 2)));
    assert forall|q: int, a: Seq<int>, upto: int|
        #![trigger filled(j, t, after, q, a, upto)]
        upto <= t.n && in_use(j, t.n, st, q) && filled(j, t, st, q, a, upto) implies filled(
        j,
        t,
        after,
        q,
        a,
        upto,
    ) by {
        lemma_kept(j, t.n, st, after, q);
    }
}

/// Where a merge is: its words, its two blocks, and what they hold.
spec fn at_merge(
    j: Job,
    t: Trio,
    st: St,
    qa: int,
    qb: int,
    a: Seq<int>,
    b: Seq<int>,
    lo: int,
    mid: int,
    hi: int,
    li: int,
    ri: int,
) -> bool {
    &&& steady(j, t, st)
    &&& (qa == t.qd && qb == t.qt) || (qa == t.qt && qb == t.qd)
    &&& st.at(local(j.e, 4)) == qa
    &&& st.at(local(j.e, 5)) == qb
    &&& st.at(local(j.e, 8)) == mid
    &&& st.at(local(j.e, 9)) == hi
    &&& st.at(local(j.e, 10)) == li
    &&& st.at(local(j.e, 11)) == ri
    &&& st.at(local(j.e, 12)) == li + ri - mid
    &&& hi <= t.n
    &&& merging(j.o, t.src, a, b, lo, mid, hi, li, ri)
    &&& filled(j, t, st, qa, a, t.n)
    &&& filled(j, t, st, qb, b, li + ri - mid)
}

/// What a merge leaves alone: the words that the passes keep count with.
spec fn passed(e: Env, st: St, after: St) -> bool {
    &&& after.at(local(e, 3)) == st.at(local(e, 3))
    &&& after.at(local(e, 6)) == st.at(local(e, 6))
    &&& after.at(local(e, 7)) == st.at(local(e, 7))
    &&& after.stopped == st.stopped
    &&& forall|x: int| x < e.scratch ==> #[trigger] (after.frame)(x) == (st.frame)(x)
}

/// From the test of a merge to where it takes an element: the right one where there is no left one or
/// the step says that the left one is greater, and the left one otherwise.
proof fn lemma_pick(
    j: Job,
    t: Trio,
    s: Sel,
    st: St,
    qa: int,
    qb: int,
    a: Seq<int>,
    b: Seq<int>,
    lo: int,
    mid: int,
    hi: int,
    li: int,
    ri: int,
) -> (r: (St, bool))
    requires
        j.able(),
        merge_there(j, merge_at(j, s)),
        at_merge(j, t, st, qa, qb, a, b, lo, mid, hi, li, ri),
        li + ri - mid < hi,
    ensures
        at_merge(j, t, r.0, qa, qb, a, b, lo, mid, hi, li, ri),
        passed(j.e, st, r.0),
        !r.1 ==> li < mid && (ri < hi ==> (j.o)(t.src[a[li]], t.src[a[ri]]) != 2) && j.r.goes(
            merge_at(j, s).s1.ops.len() as int,
            st,
            merge_at(j, s).s13.ops.len() as int,
            r.0,
        ),
        r.1 ==> ri < hi && (li < mid ==> (j.o)(t.src[a[li]], t.src[a[ri]]) == 2) && j.r.goes(
            merge_at(j, s).s1.ops.len() as int,
            st,
            merge_at(j, s).s17.ops.len() as int,
            r.0,
        ),
{
    let e = j.e;
    let r = j.r;
    let m = merge_at(j, s);
    let pc = m.s1.ops.len() as int;
    r.lemma_place(m.s1, m.merge, st);
    r.lemma_place(m.s12, m.left, st);
    r.lemma_place(m.s16, m.right, st);
    let st3 = lemma_lt_local(j, m.s2, 12, 9, m.merged, st);
    lemma_steady(j, t, st, st3, -1, 0);
    r.lemma_on(pc, st, m.s2.ops.len() as int, st, m.s3.ops.len() as int, st3);
    assert(at_merge(j, t, st3, qa, qb, a, b, lo, mid, hi, li, ri));
    let st4 = lemma_lt_local(j, m.s3, 10, 8, m.right, st3);
    lemma_steady(j, t, st3, st4, -1, 0);
    assert(at_merge(j, t, st4, qa, qb, a, b, lo, mid, hi, li, ri));
    if li >= mid {
        r.lemma_on(pc, st, m.s3.ops.len() as int, st3, m.s16.ops.len() as int, st4);
        r.lemma_place(m.s16, m.right, st4);
        r.lemma_on(pc, st, m.s16.ops.len() as int, st4, m.s17.ops.len() as int, st4);
        (st4, true)
    } else {
        r.lemma_on(pc, st, m.s3.ops.len() as int, st3, m.s4.ops.len() as int, st4);
        let st5 = lemma_lt_local(j, m.s4, 11, 9, m.left, st4);
        lemma_steady(j, t, st4, st5, -1, 0);
        assert(at_merge(j, t, st5, qa, qb, a, b, lo, mid, hi, li, ri));
        if ri >= hi {
            r.lemma_on(pc, st, m.s4.ops.len() as int, st4, m.s12.ops.len() as int, st5);
            r.lemma_place(m.s12, m.left, st5);
            r.lemma_on(pc, st, m.s12.ops.len() as int, st5, m.s13.ops.len() as int, st5);
            (st5, false)
        } else {
            r.lemma_on(pc, st, m.s4.ops.len() as int, st4, m.s5.ops.len() as int, st5);
            let (end, right) = lemma_ask(j, t, s, st5, qa, qb, a, b, lo, mid, hi, li, ri);
            if right {
                r.lemma_on(pc, st, m.s5.ops.len() as int, st5, m.s16.ops.len() as int, end);
                r.lemma_place(m.s16, m.right, end);
                r.lemma_on(pc, st, m.s16.ops.len() as int, end, m.s17.ops.len() as int, end);
            } else {
                r.lemma_on(pc, st, m.s5.ops.len() as int, st5, m.s12.ops.len() as int, end);
                r.lemma_place(m.s12, m.left, end);
                r.lemma_on(pc, st, m.s12.ops.len() as int, end, m.s13.ops.len() as int, end);
            }
            (end, right)
        }
    }
}

/// The step asked about the two elements that are next.
proof fn lemma_ask(
    j: Job,
    t: Trio,
    s: Sel,
    st: St,
    qa: int,
    qb: int,
    a: Seq<int>,
    b: Seq<int>,
    lo: int,
    mid: int,
    hi: int,
    li: int,
    ri: int,
) -> (r: (St, bool))
    requires
        j.able(),
        merge_there(j, merge_at(j, s)),
        at_merge(j, t, st, qa, qb, a, b, lo, mid, hi, li, ri),
        (j.r.at)(merge_at(j, s).right) == merge_at(j, s).s16.ops.len(),
        li < mid,
        ri < hi,
    ensures
        at_merge(j, t, r.0, qa, qb, a, b, lo, mid, hi, li, ri),
        passed(j.e, st, r.0),
        r.1 == ((j.o)(t.src[a[li]], t.src[a[ri]]) == 2),
        j.r.goes(
            merge_at(j, s).s5.ops.len() as int,
            st,
            if r.1 {
                merge_at(j, s).s16.ops.len() as int
            } else {
                merge_at(j, s).s12.ops.len() as int
            },
            r.0,
        ),
{
    let e = j.e;
    let r = j.r;
    let m = merge_at(j, s);
    let pc = m.s5.ops.len() as int;
    let p0 = j.c.params[0];
    let p1 = j.c.params[1];
    let size = j.x.size as int;
    let la = local(e, 4);
    let st6 = lemma_load(j, m.s5, p0, la, local(e, 10), st);
    lemma_steady(j, t, st, st6, -1, 0);
    assert(at_merge(j, t, st6, qa, qb, a, b, lo, mid, hi, li, ri));
    let st7 = lemma_load(j, m.s6, p1, la, local(e, 11), st6);
    lemma_steady(j, t, st6, st7, -1, 0);
    assert(at_merge(j, t, st7, qa, qb, a, b, lo, mid, hi, li, ri));
    let st8 = lemma_retain(j, m.s7, p0, st7);
    lemma_steady(j, t, st7, st8, -1, 0);
    assert(at_merge(j, t, st8, qa, qb, a, b, lo, mid, hi, li, ri));
    let st9 = lemma_retain(j, m.s8, p1, st8);
    lemma_steady(j, t, st8, st9, -1, 0);
    assert(at_merge(j, t, st9, qa, qb, a, b, lo, mid, hi, li, ri));
    let st10 = lemma_call(j, m.s9, st9);
    lemma_steady(j, t, st9, st10, -1, 0);
    assert(at_merge(j, t, st10, qa, qb, a, b, lo, mid, hi, li, ri));
    let st12 = lemma_answer(j, m.s10, m.right, st10);
    lemma_steady(j, t, st10, st12, -1, 0);
    assert(at_merge(j, t, st12, qa, qb, a, b, lo, mid, hi, li, ri));
    assert(bytes_at(st9.frame, p0 as int, size) =~= bytes_at(st6.frame, p0 as int, size));
    assert(bytes_at(st9.frame, p1 as int, size) =~= bytes_at(st7.frame, p1 as int, size));
    assert(bytes_at(st6.frame, p0 as int, size) == t.src[a[li]]);
    assert(bytes_at(st7.frame, p1 as int, size) == t.src[a[ri]]);
    r.lemma_on(pc, st, m.s6.ops.len() as int, st6, m.s7.ops.len() as int, st7);
    r.lemma_on(pc, st, m.s7.ops.len() as int, st7, m.s8.ops.len() as int, st8);
    r.lemma_on(pc, st, m.s8.ops.len() as int, st8, m.s9.ops.len() as int, st9);
    r.lemma_on(pc, st, m.s9.ops.len() as int, st9, m.s10.ops.len() as int, st10);
    let right = (j.o)(t.src[a[li]], t.src[a[ri]]) == 2;
    assert(m.s12.ops.len() == m.s11.ops.len() + 1);
    r.lemma_on(
        pc,
        st,
        m.s10.ops.len() as int,
        st10,
        if right {
            m.s16.ops.len() as int
        } else {
            m.s12.ops.len() as int
        },
        st12,
    );
    (st12, right)
}

/// From where a merge takes the left element, or the right one, to its next test.
proof fn lemma_take(
    j: Job,
    t: Trio,
    s: Sel,
    st: St,
    qa: int,
    qb: int,
    a: Seq<int>,
    b: Seq<int>,
    lo: int,
    mid: int,
    hi: int,
    li: int,
    ri: int,
    right: bool,
) -> (after: St)
    requires
        j.able(),
        merge_there(j, merge_at(j, s)),
        at_merge(j, t, st, qa, qb, a, b, lo, mid, hi, li, ri),
        !right ==> li < mid && (ri < hi ==> (j.o)(t.src[a[li]], t.src[a[ri]]) != 2),
        right ==> ri < hi && (li < mid ==> (j.o)(t.src[a[li]], t.src[a[ri]]) == 2),
    ensures
        j.r.goes(
            if right {
                merge_at(j, s).s17.ops.len() as int
            } else {
                merge_at(j, s).s13.ops.len() as int
            },
            st,
            merge_at(j, s).s1.ops.len() as int,
            after,
        ),
        at_merge(
            j,
            t,
            after,
            qa,
            qb,
            a,
            b.update(
                li + ri - mid,
                if right {
                    a[ri]
                } else {
                    a[li]
                },
            ),
            lo,
            mid,
            hi,
            if right {
                li
            } else {
                li + 1
            },
            if right {
                ri + 1
            } else {
                ri
            },
        ),
        passed(j.e, st, after),
{
    let e = j.e;
    let r = j.r;
    let m = merge_at(j, s);
    let out = li + ri - mid;
    let from = if right {
        ri
    } else {
        li
    };
    let k: int = if right {
        11
    } else {
        10
    };
    let s0 = if right {
        m.s17
    } else {
        m.s13
    };
    let s1 = if right {
        m.s18
    } else {
        m.s14
    };
    let s2 = if right {
        m.s19
    } else {
        m.s15
    };
    let pc = s0.ops.len() as int;
    let stride = j.x.stride as int;
    let size = j.x.size as int;
    r.lemma_place(m.s19, m.took, st);
    r.lemma_place(m.s1, m.merge, st);
    // The element is staged.
    let st1 = lemma_load(j, s0, j.stage(), local(e, 4), local(e, k), st);
    lemma_steady(j, t, st, st1, -1, 0);
    assert(bytes_at(st1.frame, j.stage() as int, size) == t.src[a[from]]);
    // Its run is one further.
    let st2 = lemma_step_local(j, s1, k, st1);
    lemma_steady(j, t, st1, st2, k, (st1.at(local(e, k)) + 1) as u64);
    assert(bytes_at(st2.frame, j.stage() as int, size) =~= bytes_at(
        st1.frame,
        j.stage() as int,
        size,
    ));
    r.lemma_on(pc, st, s1.ops.len() as int, st1, s2.ops.len() as int, st2);
    if right {
        r.lemma_place(m.s19, m.took, st2);
        r.lemma_on(pc, st, m.s19.ops.len() as int, st2, m.s20.ops.len() as int, st2);
    } else {
        r.lemma_jump(m.s15, V::Blk(m.took), st2);
        r.lemma_on(pc, st, m.s15.ops.len() as int, st2, m.s19.ops.len() as int, st2);
        r.lemma_place(m.s19, m.took, st2);
        r.lemma_on(pc, st, m.s19.ops.len() as int, st2, m.s20.ops.len() as int, st2);
    }
    assert(filled(j, t, st1, qa, a, t.n) && filled(j, t, st1, qb, b, out));
    assert(filled(j, t, st2, qa, a, t.n) && filled(j, t, st2, qb, b, out));
    // It is stored.
    let st3 = lemma_store(j, m.s20, local(e, 5), local(e, 12), st2);
    assert(st2.at(local(e, 5)) == qb && st2.at(local(e, 12)) == out);
    assert forall|i: int| 0 <= i < 14 implies #[trigger] st3.at(local(e, i)) == st2.at(
        local(e, i),
    ) by {}
    r.lemma_on(pc, st, m.s20.ops.len() as int, st2, m.s21.ops.len() as int, st3);
    lemma_stored(j, t.n, st2, st3, qb, out);
    let c = b.update(out, a[from]);
    assert(filled(j, t, st3, qa, a, t.n));
    assert(filled(j, t, st3, qb, c, out + 1)) by {
        assert forall|i: int| 0 <= i < out + 1 implies 0 <= #[trigger] c[i] < t.n && item(
            st3.heap,
            qb,
            stride,
            size,
            i,
        ) == t.src[c[i]] by {
            if i < out {
                assert(c[i] == b[i]);
            }
        }
    }
    assert(steady(j, t, st3)) by {
        assert(st3.used == st2.used);
        assert forall|i: int| 0 <= i < t.n implies #[trigger] item(
            st3.heap,
            t.qs,
            stride,
            size,
            i,
        ) == t.src[i] by {
            assert(item(st2.heap, t.qs, stride, size, i) == t.src[i]);
        }
    }
    // The result is one further.
    let st4 = lemma_step_local(j, m.s21, 12, st3);
    lemma_steady(j, t, st3, st4, 12, (st3.at(local(e, 12)) + 1) as u64);
    r.lemma_on(pc, st, m.s21.ops.len() as int, st3, m.s22.ops.len() as int, st4);
    r.lemma_jump(m.s22, V::Blk(m.merge), st4);
    r.lemma_on(pc, st, m.s22.ops.len() as int, st4, m.s1.ops.len() as int, st4);
    if right {
        lemma_take_right(j.o, t.src, a, b, lo, mid, hi, li, ri);
    } else {
        lemma_take_left(j.o, t.src, a, b, lo, mid, hi, li, ri);
    }
    assert(filled(j, t, st4, qa, a, t.n));
    assert(filled(j, t, st4, qb, c, out + 1));
    st4
}

/// A merge from one of its tests to its end.
proof fn lemma_merge_loop(
    j: Job,
    t: Trio,
    s: Sel,
    st: St,
    qa: int,
    qb: int,
    a: Seq<int>,
    b: Seq<int>,
    lo: int,
    mid: int,
    hi: int,
    li: int,
    ri: int,
) -> (r: (St, Seq<int>))
    requires
        j.able(),
        merge_there(j, merge_at(j, s)),
        at_merge(j, t, st, qa, qb, a, b, lo, mid, hi, li, ri),
    ensures
        at_merge(j, t, r.0, qa, qb, a, r.1, lo, mid, hi, mid, hi),
        passed(j.e, st, r.0),
        j.r.goes(
            merge_at(j, s).s1.ops.len() as int,
            st,
            merge_at(j, s).s24.ops.len() as int,
            r.0,
        ),
        forall|i: int| 0 <= i < lo ==> #[trigger] r.1[i] == b[i],
    decreases hi - (li + ri - mid),
{
    let r = j.r;
    let m = merge_at(j, s);
    let pc = m.s1.ops.len() as int;
    let out = li + ri - mid;
    if out >= hi {
        r.lemma_place(m.s1, m.merge, st);
        r.lemma_place(m.s23, m.merged, st);
        let st1 = lemma_lt_local(j, m.s2, 12, 9, m.merged, st);
        lemma_steady(j, t, st, st1, -1, 0);
        r.lemma_on(pc, st, m.s2.ops.len() as int, st, m.s23.ops.len() as int, st1);
        r.lemma_place(m.s23, m.merged, st1);
        r.lemma_on(pc, st, m.s23.ops.len() as int, st1, m.s24.ops.len() as int, st1);
        assert(at_merge(j, t, st1, qa, qb, a, b, lo, mid, hi, li, ri));
        (st1, b)
    } else {
        let (st1, right) = lemma_pick(j, t, s, st, qa, qb, a, b, lo, mid, hi, li, ri);
        let at = if right {
            m.s17
        } else {
            m.s13
        };
        let st2 = lemma_take(j, t, s, st1, qa, qb, a, b, lo, mid, hi, li, ri, right);
        r.lemma_on(pc, st, at.ops.len() as int, st1, pc, st2);
        let c = b.update(
            out,
            if right {
                a[ri]
            } else {
                a[li]
            },
        );
        let (l2, r2) = if right {
            (li, ri + 1)
        } else {
            (li + 1, ri)
        };
        let (end, d) = lemma_merge_loop(j, t, s, st2, qa, qb, a, c, lo, mid, hi, l2, r2);
        r.lemma_on(pc, st, pc, st2, m.s24.ops.len() as int, end);
        assert forall|i: int| 0 <= i < lo implies #[trigger] d[i] == b[i] by {
            assert(d[i] == c[i]);
        }
        (end, d)
    }
}

/// A merge of two adjacent runs leaves one run in order, and what is below it as it was.
proof fn lemma_merge(
    j: Job,
    t: Trio,
    s: Sel,
    st: St,
    qa: int,
    qb: int,
    a: Seq<int>,
    b: Seq<int>,
    lo: int,
    mid: int,
    hi: int,
) -> (r: (St, Seq<int>))
    requires
        j.able(),
        carries(j.r, j.hs, s.sort_merge(j.e, j.x, j.c)),
        steady(j, t, st),
        (qa == t.qd && qb == t.qt) || (qa == t.qt && qb == t.qd),
        st.at(local(j.e, 4)) == qa,
        st.at(local(j.e, 5)) == qb,
        st.at(local(j.e, 7)) == lo,
        st.at(local(j.e, 8)) == mid,
        st.at(local(j.e, 9)) == hi,
        lo <= mid <= hi <= t.n,
        run_ok(j.o, t.src, a, lo, mid),
        run_ok(j.o, t.src, a, mid, hi),
        filled(j, t, st, qa, a, t.n),
        filled(j, t, st, qb, b, lo),
    ensures
        j.r.goes(
            s.ops.len() as int,
            st,
            s.sort_merge(j.e, j.x, j.c).ops.len() as int,
            r.0,
        ),
        steady(j, t, r.0),
        r.0.at(local(j.e, 4)) == qa,
        r.0.at(local(j.e, 5)) == qb,
        passed(j.e, st, r.0),
        filled(j, t, r.0, qa, a, t.n),
        filled(j, t, r.0, qb, r.1, hi),
        run_ok(j.o, t.src, r.1, lo, hi),
        forall|i: int| 0 <= i < lo ==> #[trigger] r.1[i] == b[i],
{
    let e = j.e;
    let r = j.r;
    lemma_merge_there(j, s);
    let m = merge_at(j, s);
    let u = s.mv(local(e, 10), local(e, 7), 8);
    let v = u.mv(local(e, 11), local(e, 8), 8);
    let pc = s.ops.len() as int;
    let st1 = lemma_mv_local(j, s, 10, 7, st);
    lemma_steady(j, t, st, st1, 10, st.at(local(e, 7)));
    let st2 = lemma_mv_local(j, u, 11, 8, st1);
    lemma_steady(j, t, st1, st2, 11, st1.at(local(e, 8)));
    let st3 = lemma_mv_local(j, v, 12, 7, st2);
    lemma_steady(j, t, st2, st3, 12, st2.at(local(e, 7)));
    r.lemma_on(pc, st, u.ops.len() as int, st1, v.ops.len() as int, st2);
    r.lemma_on(pc, st, v.ops.len() as int, st2, m.s0.ops.len() as int, st3);
    assert(filled(j, t, st1, qa, a, t.n) && filled(j, t, st1, qb, b, lo));
    assert(filled(j, t, st2, qa, a, t.n) && filled(j, t, st2, qb, b, lo));
    assert(filled(j, t, st3, qa, a, t.n) && filled(j, t, st3, qb, b, lo));
    assert(at_merge(j, t, st3, qa, qb, a, b, lo, mid, hi, lo, mid));
    let (end, d) = lemma_merge_loop(j, t, s, st3, qa, qb, a, b, lo, mid, hi, lo, mid);
    r.lemma_on(pc, st, m.s0.ops.len() as int, st3, m.s24.ops.len() as int, end);
    (end, d)
}

// ---------------------------------------------------------------------------
// The passes
// ---------------------------------------------------------------------------

/// The selections along the passes.
struct Passes {
    pub s0: Sel,
    pub s1: Sel,
    pub s2: Sel,
    pub s3: Sel,
    pub s4: Sel,
    pub s5: Sel,
    pub s6: Sel,
    pub s7: Sel,
    pub s8: Sel,
    pub s9: Sel,
    pub s10: Sel,
    pub s11: Sel,
    pub s12: Sel,
    pub s13: Sel,
    pub s14: Sel,
    pub s15: Sel,
    pub s16: Sel,
    pub s17: Sel,
    pub s18: Sel,
    pub s19: Sel,
    pub s20: Sel,
    pub s21: Sel,
    pub s22: Sel,
    pub t1: Sel,
    pub t2: Sel,
    pub wide: usize,
    pub sorted: usize,
    pub runs: usize,
    pub swap: usize,
}

spec fn passes_at(j: Job, s: Sel) -> Passes {
    let e = j.e;
    let n = local(e, 0);
    let w = local(e, 3);
    let a = local(e, 4);
    let b = local(e, 5);
    let span = local(e, 6);
    let lo = local(e, 7);
    let mid = local(e, 8);
    let hi = local(e, 9);
    let one = local(e, 14);
    let add = "bin/add/u64/ff/f"@;
    let t1 = s.imm_to(w, 1);
    let t2 = t1.mv(a, local(e, 1), 8);
    let s0 = t2.mv(b, local(e, 2), 8);
    let wide = s0.next();
    let sorted = s0.fresh().next();
    let s1 = s0.fresh().fresh();
    let s2 = s1.place(wide);
    let s3 = s2.br_lt(e, w, n, V::Fall, V::Blk(sorted), H::T);
    let s4 = s3.dab(add, span, w, w);
    let s5 = s4.imm_to(lo, 0);
    let runs = s5.next();
    let swap = s5.fresh().next();
    let s6 = s5.fresh().fresh();
    let s7 = s6.place(runs);
    let s8 = s7.br_lt(e, lo, n, V::Fall, V::Blk(swap), H::T);
    let s9 = s8.dab(add, mid, lo, w);
    let s10 = s9.clamp(e, mid, n);
    let s11 = s10.dab(add, hi, lo, span);
    let s12 = s11.clamp(e, hi, n);
    let s13 = s12.sort_merge(e, j.x, j.c);
    let s14 = s13.dab(add, lo, lo, span);
    let s15 = s14.jump(V::Blk(runs));
    let s16 = s15.place(swap);
    let s17 = s16.mv(one, a, 8);
    let s18 = s17.mv(a, b, 8);
    let s19 = s18.mv(b, one, 8);
    let s20 = s19.mv(w, span, 8);
    let s21 = s20.jump(V::Blk(wide));
    let s22 = s21.place(sorted);
    Passes {
        s0, s1, s2, s3, s4, s5, s6, s7, s8, s9, s10, s11, s12, s13, s14, s15, s16, s17, s18, s19, s20, s21, s22,
        t1,
        t2,
        wide,
        sorted,
        runs,
        swap,
    }
}

/// Whether a run has every selection along the passes.
spec fn passes_there(j: Job, p: Passes) -> bool {
    let r = j.r;
    let hs = j.hs;
    &&& carries(r, hs, p.s0)
    &&& carries(r, hs, p.s1)
    &&& carries(r, hs, p.s2)
    &&& carries(r, hs, p.s3)
    &&& carries(r, hs, p.s4)
    &&& carries(r, hs, p.s5)
    &&& carries(r, hs, p.s6)
    &&& carries(r, hs, p.s7)
    &&& carries(r, hs, p.s8)
    &&& carries(r, hs, p.s9)
    &&& carries(r, hs, p.s10)
    &&& carries(r, hs, p.s11)
    &&& carries(r, hs, p.s12)
    &&& carries(r, hs, p.s13)
    &&& carries(r, hs, p.s14)
    &&& carries(r, hs, p.s15)
    &&& carries(r, hs, p.s16)
    &&& carries(r, hs, p.s17)
    &&& carries(r, hs, p.s18)
    &&& carries(r, hs, p.s19)
    &&& carries(r, hs, p.s20)
    &&& carries(r, hs, p.s21)
    &&& carries(r, hs, p.s22)
    &&& carries(r, hs, p.t1)
    &&& carries(r, hs, p.t2)
}

proof fn lemma_passes_there(j: Job, s: Sel)
    requires
        carries(j.r, j.hs, s.sort_passes(j.e, j.x, j.c)),
    ensures
        s.sort_passes(j.e, j.x, j.c) == passes_at(j, s).s22,
        passes_there(j, passes_at(j, s)),
        carries(j.r, j.hs, s),
{
    broadcast use {crate::owning::lemma_carries, adds_place, adds_br_lt, adds_dab, adds_clamp,
        adds_sort_merge, adds_jump, adds_imm_to, adds_fresh, adds_mv};

    let p = passes_at(j, s);
    assert(s.sort_passes(j.e, j.x, j.c) == p.s22);
    assert(carries(j.r, j.hs, p.s22));
}

/// A word of the loop brought down to another.
proof fn lemma_clamp(j: Job, s: Sel, k: int, n: int, st: St) -> (after: St)
    requires
        j.able(),
        0 <= k < 14,
        0 <= n < 14,
        k != n,
        j.r.has(s.clamp(j.e, local(j.e, k), local(j.e, n))),
    ensures
        j.r.goes(
            s.ops.len() as int,
            st,
            s.clamp(j.e, local(j.e, k), local(j.e, n)).ops.len() as int,
            after,
        ),
        after == (St { frame: after.frame, ..st }),
        turns(
            j.e,
            st,
            after,
            k,
            if st.at(local(j.e, k)) < st.at(local(j.e, n)) {
                st.at(local(j.e, k))
            } else {
                st.at(local(j.e, n))
            },
        ),
{
    broadcast use {arm_is_a_twin, adds_mv};

    let e = j.e;
    let r = j.r;
    let d = local(e, k);
    let l = local(e, n);
    let ok = s.next();
    let key = e.arm("brcmp/lt/u64/ff"@, H::T);
    let s0 = s.fresh();
    let s1 = s0.test_b(key, d, l, V::Blk(ok), V::Fall);
    let s2 = s1.mv(d, l, 8);
    let s3 = s2.place(ok);
    assert(s.clamp(e, d, l) == s3);
    r.lemma_place(s2, ok, st);
    reveal(adds);
    assert(r.has(s1));
    r.lemma_test_b(s0, key, d, l, V::Blk(ok), V::Fall, st);
    let pc = s.ops.len() as int;
    if st.at(d) < st.at(l) {
        r.lemma_on(pc, st, s2.ops.len() as int, st, s3.ops.len() as int, st);
        st
    } else {
        let after = lemma_mv_local(j, s1, k, n, st);
        r.lemma_on(pc, st, s1.ops.len() as int, st, s2.ops.len() as int, after);
        r.lemma_place(s2, ok, after);
        r.lemma_on(pc, st, s2.ops.len() as int, after, s3.ops.len() as int, after);
        after
    }
}

/// Where a pass is: run `k` of those twice as wide is next.
spec fn at_runs(
    j: Job,
    t: Trio,
    st: St,
    qa: int,
    qb: int,
    a: Seq<int>,
    b: Seq<int>,
    w: int,
    k: int,
) -> bool {
    let span = 2 * w;
    &&& steady(j, t, st)
    &&& (qa == t.qd && qb == t.qt) || (qa == t.qt && qb == t.qd)
    &&& 1 <= w < t.n
    &&& 0 <= k
    &&& st.at(local(j.e, 3)) == w
    &&& st.at(local(j.e, 4)) == qa
    &&& st.at(local(j.e, 5)) == qb
    &&& st.at(local(j.e, 6)) == span
    &&& st.at(local(j.e, 7)) == k * span
    &&& filled(j, t, st, qa, a, t.n)
    &&& runs_ok(j.o, t.src, a, w, t.n, t.n)
    &&& filled(j, t, st, qb, b, run_end(k * span, 0, t.n))
    &&& runs_ok(j.o, t.src, b, span, t.n, k * span)
}

/// The two runs that are next.
proof fn lemma_two_runs(o: Order, src: Seq<Seq<u8>>, a: Seq<int>, w: int, n: int, k: int)
    requires
        runs_ok(o, src, a, w, n, n),
        1 <= w,
        0 <= k,
        k * (2 * w) < n,
    ensures
        ({
            let lo = k * (2 * w);
            let mid = run_end(lo, w, n);
            let hi = run_end(lo, 2 * w, n);
            lo <= mid <= hi <= n && run_ok(o, src, a, lo, mid) && run_ok(o, src, a, mid, hi)
        }),
{
    reveal(runs_ok);
    let lo = k * (2 * w);
    assert((2 * k) * w == lo && (2 * k + 1) * w == lo + w) by (nonlinear_arith)
        requires
            lo == k * (2 * w),
    ;
    assert(run_ok(o, src, a, (2 * k) * w, run_end((2 * k) * w, w, n)));
    if lo + w < n {
        assert(run_ok(o, src, a, (2 * k + 1) * w, run_end((2 * k + 1) * w, w, n)));
    }
}

/// One run more.
proof fn lemma_run_more(
    o: Order,
    src: Seq<Seq<u8>>,
    b: Seq<int>,
    c: Seq<int>,
    span: int,
    n: int,
    k: int,
)
    requires
        1 <= span,
        0 <= k,
        k * span < n,
        runs_ok(o, src, b, span, n, k * span),
        forall|i: int| 0 <= i < k * span ==> #[trigger] c[i] == b[i],
        run_ok(o, src, c, k * span, run_end(k * span, span, n)),
    ensures
        runs_ok(o, src, c, span, n, (k + 1) * span),
{
    reveal(runs_ok);
    assert forall|m: int| 0 <= m && (#[trigger] (m * span)) < (k + 1) * span implies run_ok(
        o,
        src,
        c,
        m * span,
        run_end(m * span, span, n),
    ) by {
        assert(m <= k) by (nonlinear_arith)
            requires
                m * span < (k + 1) * span,
                1 <= span,
        ;
        if m < k {
            assert(m * span + span <= k * span && 0 <= m * span) by (nonlinear_arith)
                requires
                    0 <= m < k,
                    1 <= span,
            ;
            let lo = m * span;
            let hi = run_end(lo, span, n);
            assert(run_ok(o, src, b, lo, hi));
            assert forall|i: int| lo <= i < hi implies lo <= #[trigger] c[i] < hi by {
                assert(c[i] == b[i]);
            }
            assert forall|i: int, l: int| lo <= i < l < hi implies first(
                o,
                src,
                #[trigger] c[i],
                #[trigger] c[l],
            ) by {
                assert(c[i] == b[i]);
                assert(c[l] == b[l]);
            }
        }
    }
}

/// How far a number falls short of another.
spec fn short(n: int, at: int) -> int {
    if at < n {
        n - at
    } else {
        0
    }
}

/// One pass from one of its tests to its end.
#[verifier::rlimit(40)]
proof fn lemma_runs_loop(
    j: Job,
    t: Trio,
    s: Sel,
    st: St,
    qa: int,
    qb: int,
    a: Seq<int>,
    b: Seq<int>,
    w: int,
    k: int,
) -> (r: (St, Seq<int>))
    requires
        j.able(),
        passes_there(j, passes_at(j, s)),
        at_runs(j, t, st, qa, qb, a, b, w, k),
    ensures
        j.r.goes(
            passes_at(j, s).s6.ops.len() as int,
            st,
            passes_at(j, s).s16.ops.len() as int,
            r.0,
        ),
        steady(j, t, r.0),
        r.0.at(local(j.e, 4)) == qa,
        r.0.at(local(j.e, 5)) == qb,
        r.0.at(local(j.e, 6)) == 2 * w,
        r.0.stopped == st.stopped,
        forall|x: int| x < j.e.scratch ==> #[trigger] (r.0.frame)(x) == (st.frame)(x),
        filled(j, t, r.0, qb, r.1, t.n),
        runs_ok(j.o, t.src, r.1, 2 * w, t.n, t.n),
    decreases short(t.n, k * (2 * w)),
{
    let e = j.e;
    let r = j.r;
    let p = passes_at(j, s);
    let pc = p.s6.ops.len() as int;
    let span = 2 * w;
    let lo = k * span;
    r.lemma_place(p.s6, p.runs, st);
    r.lemma_place(p.s15, p.swap, st);
    let st1 = lemma_lt_local(j, p.s7, 7, 0, p.swap, st);
    lemma_steady(j, t, st, st1, -1, 0);
    assert(filled(j, t, st1, qa, a, t.n));
    assert(filled(j, t, st1, qb, b, run_end(lo, 0, t.n)));
    if lo >= t.n {
        r.lemma_on(pc, st, p.s7.ops.len() as int, st, p.s15.ops.len() as int, st1);
        r.lemma_place(p.s15, p.swap, st1);
        r.lemma_on(pc, st, p.s15.ops.len() as int, st1, p.s16.ops.len() as int, st1);
        assert(runs_ok(j.o, t.src, b, span, t.n, t.n)) by {
            reveal(runs_ok);
        }
        (st1, b)
    } else {
        r.lemma_on(pc, st, p.s7.ops.len() as int, st, p.s8.ops.len() as int, st1);
        let mid = run_end(lo, w, t.n);
        let hi = run_end(lo, span, t.n);
        assert(lo >= 0) by (nonlinear_arith)
            requires
                lo == k * span,
                0 <= k,
                1 <= span,
        ;
        lemma_two_runs(j.o, t.src, a, w, t.n, k);
        let st2 = lemma_add_local(j, p.s8, 8, 7, 3, st1);
        lemma_steady(j, t, st1, st2, 8, (lo + w) as u64);
        let st3 = lemma_clamp(j, p.s9, 8, 0, st2);
        assert(st3.at(local(e, 8)) == mid);
        lemma_steady(j, t, st2, st3, 8, mid as u64);
        let st4 = lemma_add_local(j, p.s10, 9, 7, 6, st3);
        lemma_steady(j, t, st3, st4, 9, (lo + span) as u64);
        let st5 = lemma_clamp(j, p.s11, 9, 0, st4);
        assert(st5.at(local(e, 9)) == hi);
        lemma_steady(j, t, st4, st5, 9, hi as u64);
        r.lemma_on(pc, st, p.s8.ops.len() as int, st1, p.s9.ops.len() as int, st2);
        r.lemma_on(pc, st, p.s9.ops.len() as int, st2, p.s10.ops.len() as int, st3);
        r.lemma_on(pc, st, p.s10.ops.len() as int, st3, p.s11.ops.len() as int, st4);
        r.lemma_on(pc, st, p.s11.ops.len() as int, st4, p.s12.ops.len() as int, st5);
        assert(filled(j, t, st2, qa, a, t.n) && filled(j, t, st2, qb, b, lo));
        assert(filled(j, t, st3, qa, a, t.n) && filled(j, t, st3, qb, b, lo));
        assert(filled(j, t, st4, qa, a, t.n) && filled(j, t, st4, qb, b, lo));
        assert(filled(j, t, st5, qa, a, t.n) && filled(j, t, st5, qb, b, lo));
        assert(st5.at(local(e, 8)) == mid);
        let (st6, c) = lemma_merge(j, t, p.s12, st5, qa, qb, a, b, lo, mid, hi);
        r.lemma_on(pc, st, p.s12.ops.len() as int, st5, p.s13.ops.len() as int, st6);
        let st7 = lemma_add_local(j, p.s13, 7, 7, 6, st6);
        lemma_steady(j, t, st6, st7, 7, (lo + span) as u64);
        r.lemma_on(pc, st, p.s13.ops.len() as int, st6, p.s14.ops.len() as int, st7);
        r.lemma_jump(p.s14, V::Blk(p.runs), st7);
        r.lemma_on(pc, st, p.s14.ops.len() as int, st7, pc, st7);
        assert(filled(j, t, st7, qa, a, t.n) && filled(j, t, st7, qb, c, hi));
        lemma_run_more(j.o, t.src, b, c, span, t.n, k);
        assert((k + 1) * (2 * w) == k * (2 * w) + 2 * w) by (nonlinear_arith);
        assert(at_runs(j, t, st7, qa, qb, a, c, w, k + 1));
        let (end, d) = lemma_runs_loop(j, t, s, st7, qa, qb, a, c, w, k + 1);
        r.lemma_on(pc, st, pc, st7, p.s16.ops.len() as int, end);
        (end, d)
    }
}

/// Where the passes are: a block holds runs of width `w` in order.
spec fn at_pass(j: Job, t: Trio, st: St, qa: int, qb: int, a: Seq<int>, w: int) -> bool {
    &&& steady(j, t, st)
    &&& (qa == t.qd && qb == t.qt) || (qa == t.qt && qb == t.qd)
    &&& 1 <= w <= 0x7fff_ffff_ffff_fffe
    &&& st.at(local(j.e, 3)) == w
    &&& st.at(local(j.e, 4)) == qa
    &&& st.at(local(j.e, 5)) == qb
    &&& filled(j, t, st, qa, a, t.n)
    &&& runs_ok(j.o, t.src, a, w, t.n, t.n)
}

/// The first block of a pass set aside.
proof fn lemma_mv_aside(j: Job, s: Sel, st: St) -> (after: St)
    requires
        j.able(),
        j.r.has(s.mv(local(j.e, 14), local(j.e, 4), 8)),
    ensures
        j.r.goes(
            s.ops.len() as int,
            st,
            s.mv(local(j.e, 14), local(j.e, 4), 8).ops.len() as int,
            after,
        ),
        after == (St { frame: after.frame, ..st }),
        turns(j.e, st, after, -1, 0),
        after.at(local(j.e, 14)) == st.at(local(j.e, 4)),
{
    broadcast use word_of_copied;

    let one = local(j.e, 14);
    j.r.lemma_mv(s, one, local(j.e, 4), 8, st);
    let after = st.moved(one, local(j.e, 4), 8);
    lemma_quiet(j.e, st, after);
    after
}

/// The two blocks of a pass change places, and its width doubles.
proof fn lemma_swap(j: Job, t: Trio, s: Sel, st: St, qa: int, qb: int, b: Seq<int>, w: int) -> (after: St)
    requires
        j.able(),
        passes_there(j, passes_at(j, s)),
        steady(j, t, st),
        (qa == t.qd && qb == t.qt) || (qa == t.qt && qb == t.qd),
        1 <= w < t.n,
        st.at(local(j.e, 4)) == qa,
        st.at(local(j.e, 5)) == qb,
        st.at(local(j.e, 6)) == 2 * w,
        filled(j, t, st, qb, b, t.n),
        runs_ok(j.o, t.src, b, 2 * w, t.n, t.n),
    ensures
        j.r.goes(
            passes_at(j, s).s16.ops.len() as int,
            st,
            passes_at(j, s).s20.ops.len() as int,
            after,
        ),
        at_pass(j, t, after, qb, qa, b, 2 * w),
        after.stopped == st.stopped,
        forall|x: int| x < j.e.scratch ==> #[trigger] (after.frame)(x) == (st.frame)(x),
{
    let e = j.e;
    let r = j.r;
    let p = passes_at(j, s);
    let pc = p.s16.ops.len() as int;
    let one = local(e, 14);
    let st1 = lemma_mv_aside(j, p.s16, st);
    lemma_steady(j, t, st, st1, -1, 0);
    let st2 = lemma_mv_local(j, p.s17, 4, 5, st1);
    lemma_steady(j, t, st1, st2, 4, st1.at(local(e, 5)));
    assert(st2.at(one) == qa);
    let st3 = lemma_mv_local(j, p.s18, 5, 14, st2);
    lemma_steady(j, t, st2, st3, 5, st2.at(one));
    let st4 = lemma_mv_local(j, p.s19, 3, 6, st3);
    lemma_steady(j, t, st3, st4, 3, st3.at(local(e, 6)));
    r.lemma_on(pc, st, p.s17.ops.len() as int, st1, p.s18.ops.len() as int, st2);
    r.lemma_on(pc, st, p.s18.ops.len() as int, st2, p.s19.ops.len() as int, st3);
    r.lemma_on(pc, st, p.s19.ops.len() as int, st3, p.s20.ops.len() as int, st4);
    assert(filled(j, t, st1, qb, b, t.n));
    assert(filled(j, t, st2, qb, b, t.n));
    assert(filled(j, t, st3, qb, b, t.n));
    assert(filled(j, t, st4, qb, b, t.n));
    st4
}

/// A run that is as wide as the block is all of it.
proof fn lemma_one_run(o: Order, src: Seq<Seq<u8>>, a: Seq<int>, w: int, n: int)
    requires
        runs_ok(o, src, a, w, n, n),
        0 <= n <= w,
    ensures
        run_ok(o, src, a, 0, n),
{
    reveal(runs_ok);
    if n > 0 {
        assert(0 * w == 0);
        assert(run_ok(o, src, a, 0 * w, run_end(0 * w, w, n)));
    }
}

proof fn lemma_no_run(o: Order, src: Seq<Seq<u8>>, a: Seq<int>, w: int, n: int)
    requires
        1 <= w,
    ensures
        runs_ok(o, src, a, w, n, 0),
{
    reveal(runs_ok);
    assert forall|k: int| 0 <= k && (#[trigger] (k * w)) < 0 implies run_ok(
        o,
        src,
        a,
        k * w,
        run_end(k * w, w, n),
    ) by {
        assert(k * w >= 0) by (nonlinear_arith)
            requires
                0 <= k,
                1 <= w,
        ;
    }
}

/// One pass: every two runs merged into one.
proof fn lemma_pass(j: Job, t: Trio, s: Sel, st: St, qa: int, qb: int, a: Seq<int>, w: int) -> (r: (
    St,
    Seq<int>,
))
    requires
        j.able(),
        passes_there(j, passes_at(j, s)),
        at_pass(j, t, st, qa, qb, a, w),
        w < t.n,
    ensures
        j.r.goes(
            passes_at(j, s).s3.ops.len() as int,
            st,
            passes_at(j, s).s20.ops.len() as int,
            r.0,
        ),
        at_pass(j, t, r.0, qb, qa, r.1, 2 * w),
        r.0.stopped == st.stopped,
        forall|x: int| x < j.e.scratch ==> #[trigger] (r.0.frame)(x) == (st.frame)(x),
{
    let r = j.r;
    let p = passes_at(j, s);
    let pc = p.s3.ops.len() as int;
    let st2 = lemma_add_local(j, p.s3, 6, 3, 3, st);
    lemma_steady(j, t, st, st2, 6, (2 * w) as u64);
    let st3 = lemma_imm_local(j, p.s4, 7, 0, st2);
    lemma_steady(j, t, st2, st3, 7, 0);
    r.lemma_on(pc, st, p.s4.ops.len() as int, st2, p.s5.ops.len() as int, st3);
    assert(filled(j, t, st2, qa, a, t.n));
    assert(filled(j, t, st3, qa, a, t.n));
    assert(0 * (2 * w) == 0);
    assert(filled(j, t, st3, qb, a, 0));
    lemma_no_run(j.o, t.src, a, 2 * w, t.n);
    assert(at_runs(j, t, st3, qa, qb, a, a, w, 0));
    let (st4, b) = lemma_runs_loop(j, t, s, st3, qa, qb, a, a, w, 0);
    r.lemma_on(pc, st, p.s5.ops.len() as int, st3, p.s16.ops.len() as int, st4);
    let st5 = lemma_swap(j, t, s, st4, qa, qb, b, w);
    r.lemma_on(pc, st, p.s16.ops.len() as int, st4, p.s20.ops.len() as int, st5);
    (st5, b)
}

/// The passes from one of their tests to their end.
proof fn lemma_pass_loop(j: Job, t: Trio, s: Sel, st: St, qa: int, qb: int, a: Seq<int>, w: int) -> (r:
    (St, Seq<int>, int))
    requires
        j.able(),
        passes_there(j, passes_at(j, s)),
        at_pass(j, t, st, qa, qb, a, w),
    ensures
        j.r.goes(
            passes_at(j, s).s1.ops.len() as int,
            st,
            passes_at(j, s).s22.ops.len() as int,
            r.0,
        ),
        steady(j, t, r.0),
        r.2 == t.qd || r.2 == t.qt,
        r.0.at(local(j.e, 4)) == r.2,
        filled(j, t, r.0, r.2, r.1, t.n),
        run_ok(j.o, t.src, r.1, 0, t.n),
        r.0.stopped == st.stopped,
        forall|x: int| x < j.e.scratch ==> #[trigger] (r.0.frame)(x) == (st.frame)(x),
    decreases short(t.n, w),
{
    let e = j.e;
    let r = j.r;
    let p = passes_at(j, s);
    let pc = p.s1.ops.len() as int;
    r.lemma_place(p.s1, p.wide, st);
    r.lemma_place(p.s21, p.sorted, st);
    let st1 = lemma_lt_local(j, p.s2, 3, 0, p.sorted, st);
    lemma_steady(j, t, st, st1, -1, 0);
    assert(filled(j, t, st1, qa, a, t.n));
    if w >= t.n {
        r.lemma_on(pc, st, p.s2.ops.len() as int, st, p.s21.ops.len() as int, st1);
        r.lemma_place(p.s21, p.sorted, st1);
        r.lemma_on(pc, st, p.s21.ops.len() as int, st1, p.s22.ops.len() as int, st1);
        lemma_one_run(j.o, t.src, a, w, t.n);
        (st1, a, qa)
    } else {
        r.lemma_on(pc, st, p.s2.ops.len() as int, st, p.s3.ops.len() as int, st1);
        let (st5, b) = lemma_pass(j, t, s, st1, qa, qb, a, w);
        r.lemma_on(pc, st, p.s3.ops.len() as int, st1, p.s20.ops.len() as int, st5);
        r.lemma_jump(p.s20, V::Blk(p.wide), st5);
        r.lemma_on(pc, st, p.s20.ops.len() as int, st5, pc, st5);
        let (end, c, q) = lemma_pass_loop(j, t, s, st5, qb, qa, b, 2 * w);
        r.lemma_on(pc, st, pc, st5, p.s22.ops.len() as int, end);
        (end, c, q)
    }
}

// ---------------------------------------------------------------------------
// The whole
// ---------------------------------------------------------------------------

/// The passes of a sort leave one of its blocks in order.
proof fn lemma_passes(j: Job, t: Trio, s: Sel, st: St) -> (r: (St, Seq<int>, int))
    requires
        j.able(),
        carries(j.r, j.hs, s.sort_passes(j.e, j.x, j.c)),
        steady(j, t, st),
        filled(j, t, st, t.qd, Seq::new(t.n as nat, |i: int| i), t.n),
    ensures
        j.r.goes(
            s.ops.len() as int,
            st,
            s.sort_passes(j.e, j.x, j.c).ops.len() as int,
            r.0,
        ),
        steady(j, t, r.0),
        r.2 == t.qd || r.2 == t.qt,
        r.0.at(local(j.e, 4)) == r.2,
        filled(j, t, r.0, r.2, r.1, t.n),
        run_ok(j.o, t.src, r.1, 0, t.n),
        r.0.stopped == st.stopped,
        forall|x: int| x < j.e.scratch ==> #[trigger] (r.0.frame)(x) == (st.frame)(x),
{
    let e = j.e;
    let r = j.r;
    lemma_passes_there(j, s);
    let p = passes_at(j, s);
    let pc = s.ops.len() as int;
    let a = Seq::new(t.n as nat, |i: int| i);
    let st1 = lemma_imm_local(j, s, 3, 1, st);
    lemma_steady(j, t, st, st1, 3, 1);
    let st2 = lemma_mv_local(j, p.t1, 4, 1, st1);
    lemma_steady(j, t, st1, st2, 4, st1.at(local(e, 1)));
    let st3 = lemma_mv_local(j, p.t2, 5, 2, st2);
    lemma_steady(j, t, st2, st3, 5, st2.at(local(e, 2)));
    r.lemma_on(pc, st, p.t1.ops.len() as int, st1, p.t2.ops.len() as int, st2);
    r.lemma_on(pc, st, p.t2.ops.len() as int, st2, p.s0.ops.len() as int, st3);
    assert(filled(j, t, st1, t.qd, a, t.n));
    assert(filled(j, t, st2, t.qd, a, t.n));
    assert(filled(j, t, st3, t.qd, a, t.n));
    assert(runs_ok(j.o, t.src, a, 1, t.n, t.n)) by {
        reveal(runs_ok);
        assert forall|k: int| 0 <= k && (#[trigger] (k * 1)) < t.n implies run_ok(
            j.o,
            t.src,
            a,
            k * 1,
            run_end(k * 1, 1, t.n),
        ) by {
            assert(k * 1 == k);
        }
    }
    let (end, b, q) = lemma_pass_loop(j, t, s, st3, t.qd, t.qt, a, 1);
    r.lemma_on(pc, st, p.s0.ops.len() as int, st3, p.s22.ops.len() as int, end);
    (end, b, q)
}

/// Storing into the result keeps what stays.
proof fn lemma_steady_stored(j: Job, t: Trio, st: St, after: St, k: int)
    requires
        j.able(),
        steady(j, t, st),
        0 <= k < t.n,
        after == (St { heap: after.heap, ..st }),
        ({
            let at = t.qd + k * (j.x.stride as int);
            forall|x: int|
                (x < at || at + j.x.size <= x) ==> #[trigger] (after.heap)(x) == (st.heap)(x)
        }),
    ensures
        steady(j, t, after),
        forall|i: int| 0 <= i < 14 ==> #[trigger] after.at(local(j.e, i)) == st.at(local(j.e, i)),
{
    lemma_stored(j, t.n, st, after, t.qd, k);
    assert forall|i: int| 0 <= i < t.n implies #[trigger] item(
        after.heap,
        t.qs,
        j.x.stride as int,
        j.x.size as int,
        i,
    ) == t.src[i] by {
        assert(item(st.heap, t.qs, j.x.stride as int, j.x.size as int, i) == t.src[i]);
    }
}

/// The selections along the copy of the source.
struct Copying {
    pub s0: Sel,
    pub s1: Sel,
    pub s2: Sel,
    pub s3: Sel,
    pub s4: Sel,
    pub s5: Sel,
    pub s6: Sel,
    pub s7: Sel,
    pub s8: Sel,
    pub s9: Sel,
    pub head: usize,
    pub done: usize,
}

spec fn copying_at(j: Job, s: Sel) -> Copying {
    let e = j.e;
    let i = local(e, 13);
    let stride = j.x.stride as u64;
    let size = j.x.size as u64;
    let s0 = s.imm_to(i, 0);
    let head = s0.next();
    let done = s0.fresh().next();
    let s1 = s0.fresh().fresh();
    let s2 = s1.place(head);
    let s3 = s2.br_lt(e, i, local(e, 0), V::Fall, V::Blk(done), H::T);
    let s4 = s3.elem_load(e, j.stage(), j.x.at as u64, i, stride, size);
    let s5 = s4.retain_counted(e, j.x.elem, j.stage());
    let s6 = s5.elem_store(e, j.stage(), local(e, 1), i, stride, size);
    let s7 = s6.addk(e, i, i, 1);
    let s8 = s7.jump(V::Blk(head));
    let s9 = s8.place(done);
    Copying { s0, s1, s2, s3, s4, s5, s6, s7, s8, s9, head, done }
}

spec fn copying_there(j: Job, p: Copying) -> bool {
    let r = j.r;
    let hs = j.hs;
    &&& carries(r, hs, p.s0)
    &&& carries(r, hs, p.s1)
    &&& carries(r, hs, p.s2)
    &&& carries(r, hs, p.s3)
    &&& carries(r, hs, p.s4)
    &&& carries(r, hs, p.s5)
    &&& carries(r, hs, p.s6)
    &&& carries(r, hs, p.s7)
    &&& carries(r, hs, p.s8)
    &&& carries(r, hs, p.s9)
}

proof fn lemma_copying_there(j: Job, s: Sel)
    requires
        carries(j.r, j.hs, s.sort_copy(j.e, j.x)),
    ensures
        s.sort_copy(j.e, j.x) == copying_at(j, s).s9,
        copying_there(j, copying_at(j, s)),
        carries(j.r, j.hs, s),
{
    broadcast use {crate::owning::lemma_carries, adds_place, adds_br_lt, adds_elem_load,
        adds_retain_counted, adds_addk, adds_jump, adds_elem_store, adds_fresh, adds_imm_to};

    let p = copying_at(j, s);
    assert(s.sort_copy(j.e, j.x) == p.s9);
    assert(carries(j.r, j.hs, p.s9));
}

/// The copy of the source from one of its tests to its end.
proof fn lemma_copy_loop(j: Job, t: Trio, s: Sel, st: St, i: int) -> (after: St)
    requires
        j.able(),
        copying_there(j, copying_at(j, s)),
        steady(j, t, st),
        0 <= i <= t.n,
        st.at(local(j.e, 13)) == i,
        filled(j, t, st, t.qd, Seq::new(t.n as nat, |i: int| i), i),
    ensures
        j.r.goes(
            copying_at(j, s).s1.ops.len() as int,
            st,
            copying_at(j, s).s9.ops.len() as int,
            after,
        ),
        steady(j, t, after),
        filled(j, t, after, t.qd, Seq::new(t.n as nat, |i: int| i), t.n),
        after.stopped == st.stopped,
        forall|x: int| x < j.e.scratch ==> #[trigger] (after.frame)(x) == (st.frame)(x),
    decreases t.n - i,
{
    let e = j.e;
    let r = j.r;
    let p = copying_at(j, s);
    let pc = p.s1.ops.len() as int;
    let a = Seq::new(t.n as nat, |i: int| i);
    r.lemma_place(p.s1, p.head, st);
    r.lemma_place(p.s8, p.done, st);
    let st1 = lemma_lt_local(j, p.s2, 13, 0, p.done, st);
    lemma_steady(j, t, st, st1, -1, 0);
    assert(filled(j, t, st1, t.qd, a, i));
    if i >= t.n {
        r.lemma_on(pc, st, p.s2.ops.len() as int, st, p.s8.ops.len() as int, st1);
        r.lemma_place(p.s8, p.done, st1);
        r.lemma_on(pc, st, p.s8.ops.len() as int, st1, p.s9.ops.len() as int, st1);
        st1
    } else {
        r.lemma_on(pc, st, p.s2.ops.len() as int, st, p.s3.ops.len() as int, st1);
        let stride = j.x.stride as int;
        let size = j.x.size as int;
        let st2 = lemma_load(j, p.s3, j.stage(), j.x.at as u64, local(e, 13), st1);
        lemma_steady(j, t, st1, st2, -1, 0);
        assert(bytes_at(st2.frame, j.stage() as int, size) == t.src[i]) by {
            assert(item(st1.heap, t.qs, stride, size, i) == t.src[i]);
        }
        let st3 = lemma_retain(j, p.s4, j.stage(), st2);
        lemma_steady(j, t, st2, st3, -1, 0);
        assert(bytes_at(st3.frame, j.stage() as int, size) =~= bytes_at(
            st2.frame,
            j.stage() as int,
            size,
        ));
        r.lemma_on(pc, st, p.s3.ops.len() as int, st1, p.s4.ops.len() as int, st2);
        r.lemma_on(pc, st, p.s4.ops.len() as int, st2, p.s5.ops.len() as int, st3);
        assert(filled(j, t, st2, t.qd, a, i));
        assert(filled(j, t, st3, t.qd, a, i));
        assert(st3.at(local(e, 1)) == t.qd && st3.at(local(e, 13)) == i);
        let st4 = lemma_store(j, p.s5, local(e, 1), local(e, 13), st3);
        lemma_steady_stored(j, t, st3, st4, i);
        lemma_stored(j, t.n, st3, st4, t.qd, i);
        r.lemma_on(pc, st, p.s5.ops.len() as int, st3, p.s6.ops.len() as int, st4);
        assert(filled(j, t, st4, t.qd, a, i + 1));
        let st5 = lemma_step_local(j, p.s6, 13, st4);
        lemma_steady(j, t, st4, st5, 13, (i + 1) as u64);
        r.lemma_on(pc, st, p.s6.ops.len() as int, st4, p.s7.ops.len() as int, st5);
        r.lemma_jump(p.s7, V::Blk(p.head), st5);
        r.lemma_on(pc, st, p.s7.ops.len() as int, st5, pc, st5);
        assert(filled(j, t, st5, t.qd, a, i + 1));
        let end = lemma_copy_loop(j, t, s, st5, i + 1);
        r.lemma_on(pc, st, pc, st5, p.s9.ops.len() as int, end);
        end
    }
}

/// The selections along the way home.
struct Home {
    pub t0: Sel,
    pub s0: Sel,
    pub s1: Sel,
    pub s2: Sel,
    pub s3: Sel,
    pub s4: Sel,
    pub s5: Sel,
    pub s6: Sel,
    pub s7: Sel,
    pub s8: Sel,
    pub s9: Sel,
    pub s10: Sel,
    pub home: usize,
    pub back: usize,
}

spec fn home_at(j: Job, s: Sel) -> Home {
    let e = j.e;
    let i = local(e, 13);
    let stride = j.x.stride as u64;
    let size = j.x.size as u64;
    let home = s.next();
    let t0 = s.fresh();
    let s0 = t0.test_b(
        e.arm("brcmp/eq/u64/ff"@, H::T),
        local(e, 4),
        local(e, 1),
        V::Blk(home),
        V::Fall,
    );
    let s1 = s0.imm_to(i, 0);
    let back = s1.next();
    let s2 = s1.fresh();
    let s3 = s2.place(back);
    let s4 = s3.br_lt(e, i, local(e, 0), V::Fall, V::Blk(home), H::T);
    let s5 = s4.elem_load(e, j.stage(), local(e, 4), i, stride, size);
    let s6 = s5.elem_store(e, j.stage(), local(e, 1), i, stride, size);
    let s7 = s6.addk(e, i, i, 1);
    let s8 = s7.jump(V::Blk(back));
    let s9 = s8.place(home);
    let s10 = s9.rc_block(local(e, 2), false, None);
    Home { t0, s0, s1, s2, s3, s4, s5, s6, s7, s8, s9, s10, home, back }
}

spec fn home_there(j: Job, p: Home) -> bool {
    let r = j.r;
    let hs = j.hs;
    &&& carries(r, hs, p.t0)
    &&& carries(r, hs, p.s0)
    &&& carries(r, hs, p.s1)
    &&& carries(r, hs, p.s2)
    &&& carries(r, hs, p.s3)
    &&& carries(r, hs, p.s4)
    &&& carries(r, hs, p.s5)
    &&& carries(r, hs, p.s6)
    &&& carries(r, hs, p.s7)
    &&& carries(r, hs, p.s8)
    &&& carries(r, hs, p.s9)
    &&& carries(r, hs, p.s10)
}

proof fn lemma_home_there(j: Job, s: Sel)
    requires
        carries(j.r, j.hs, s.sort_home(j.e, j.x)),
    ensures
        s.sort_home(j.e, j.x) == home_at(j, s).s10,
        home_there(j, home_at(j, s)),
        carries(j.r, j.hs, s),
{
    broadcast use {crate::owning::lemma_carries, adds_place, adds_br_lt, adds_elem_load, adds_addk,
        adds_jump, adds_elem_store, adds_fresh, adds_imm_to, adds_test_b, adds_rc_block};

    let p = home_at(j, s);
    assert(s.sort_home(j.e, j.x) == p.s10);
    assert(carries(j.r, j.hs, p.s10));
}

/// The way home from one of its tests to the end of its copies.
proof fn lemma_home_loop(j: Job, t: Trio, s: Sel, st: St, a: Seq<int>, i: int) -> (after: St)
    requires
        j.able(),
        home_there(j, home_at(j, s)),
        steady(j, t, st),
        0 <= i <= t.n,
        st.at(local(j.e, 13)) == i,
        st.at(local(j.e, 4)) == t.qt,
        filled(j, t, st, t.qt, a, t.n),
        filled(j, t, st, t.qd, a, i),
    ensures
        j.r.goes(
            home_at(j, s).s2.ops.len() as int,
            st,
            home_at(j, s).s9.ops.len() as int,
            after,
        ),
        steady(j, t, after),
        filled(j, t, after, t.qd, a, t.n),
        after.stopped == st.stopped,
        forall|x: int| x < j.e.scratch ==> #[trigger] (after.frame)(x) == (st.frame)(x),
    decreases t.n - i,
{
    let e = j.e;
    let r = j.r;
    let p = home_at(j, s);
    let pc = p.s2.ops.len() as int;
    r.lemma_place(p.s2, p.back, st);
    r.lemma_place(p.s8, p.home, st);
    let st1 = lemma_lt_local(j, p.s3, 13, 0, p.home, st);
    lemma_steady(j, t, st, st1, -1, 0);
    assert(filled(j, t, st1, t.qd, a, i));
    assert(filled(j, t, st1, t.qt, a, t.n));
    if i >= t.n {
        r.lemma_on(pc, st, p.s3.ops.len() as int, st, p.s8.ops.len() as int, st1);
        r.lemma_place(p.s8, p.home, st1);
        r.lemma_on(pc, st, p.s8.ops.len() as int, st1, p.s9.ops.len() as int, st1);
        st1
    } else {
        r.lemma_on(pc, st, p.s3.ops.len() as int, st, p.s4.ops.len() as int, st1);
        let stride = j.x.stride as int;
        let size = j.x.size as int;
        let st2 = lemma_load(j, p.s4, j.stage(), local(e, 4), local(e, 13), st1);
        lemma_steady(j, t, st1, st2, -1, 0);
        assert(bytes_at(st2.frame, j.stage() as int, size) == t.src[a[i]]) by {
            assert(item(st1.heap, t.qt, stride, size, i) == t.src[a[i]]);
        }
        r.lemma_on(pc, st, p.s4.ops.len() as int, st1, p.s5.ops.len() as int, st2);
        assert(filled(j, t, st2, t.qd, a, i));
        assert(filled(j, t, st2, t.qt, a, t.n));
        assert(st2.at(local(e, 1)) == t.qd && st2.at(local(e, 13)) == i);
        let st3 = lemma_store(j, p.s5, local(e, 1), local(e, 13), st2);
        lemma_steady_stored(j, t, st2, st3, i);
        lemma_stored(j, t.n, st2, st3, t.qd, i);
        r.lemma_on(pc, st, p.s5.ops.len() as int, st2, p.s6.ops.len() as int, st3);
        assert(filled(j, t, st3, t.qd, a, i + 1));
        assert(filled(j, t, st3, t.qt, a, t.n));
        let st4 = lemma_step_local(j, p.s6, 13, st3);
        lemma_steady(j, t, st3, st4, 13, (i + 1) as u64);
        r.lemma_on(pc, st, p.s6.ops.len() as int, st3, p.s7.ops.len() as int, st4);
        r.lemma_jump(p.s7, V::Blk(p.back), st4);
        r.lemma_on(pc, st, p.s7.ops.len() as int, st4, pc, st4);
        assert(filled(j, t, st4, t.qd, a, i + 1));
        assert(filled(j, t, st4, t.qt, a, t.n));
        let end = lemma_home_loop(j, t, s, st4, a, i + 1);
        r.lemma_on(pc, st, pc, st4, p.s9.ops.len() as int, end);
        end
    }
}

/// The elements are brought home.
proof fn lemma_home(j: Job, t: Trio, s: Sel, st: St, a: Seq<int>, q: int) -> (after: St)
    requires
        j.able(),
        carries(j.r, j.hs, s.sort_home(j.e, j.x)),
        steady(j, t, st),
        q == t.qd || q == t.qt,
        st.at(local(j.e, 4)) == q,
        filled(j, t, st, q, a, t.n),
    ensures
        j.r.goes(s.ops.len() as int, st, s.sort_home(j.e, j.x).ops.len() as int, after),
        steady(j, t, after),
        filled(j, t, after, t.qd, a, t.n),
        after.stopped == st.stopped,
        forall|x: int| x < j.e.scratch ==> #[trigger] (after.frame)(x) == (st.frame)(x),
{
    broadcast use arm_is_a_twin;

    let e = j.e;
    let r = j.r;
    lemma_home_there(j, s);
    let p = home_at(j, s);
    let pc = s.ops.len() as int;
    let key = e.arm("brcmp/eq/u64/ff"@, H::T);
    r.lemma_place(p.s8, p.home, st);
    r.lemma_test_b(p.t0, key, local(e, 4), local(e, 1), V::Blk(p.home), V::Fall, st);
    let mid = if q == t.qd {
        r.lemma_on(pc, st, p.s8.ops.len() as int, st, p.s9.ops.len() as int, st);
        st
    } else {
        let st1 = lemma_imm_local(j, p.s0, 13, 0, st);
        lemma_steady(j, t, st, st1, 13, 0);
        r.lemma_on(pc, st, p.s0.ops.len() as int, st, p.s1.ops.len() as int, st1);
        assert(filled(j, t, st1, t.qt, a, t.n));
        let end = lemma_home_loop(j, t, s, st1, a, 0);
        r.lemma_on(pc, st, p.s1.ops.len() as int, st1, p.s9.ops.len() as int, end);
        end
    };
    let o = op_give(local(e, 2));
    assert(p.s10 == p.s9.add(o));
    reveal_with_fuel(hole, 5);
    r.lemma_add(p.s9, o, mid);
    let after = (r.m.does)(o, mid);
    r.lemma_on(pc, st, p.s9.ops.len() as int, mid, p.s10.ops.len() as int, after);
    lemma_quiet(e, mid, after);
    lemma_steady(j, t, mid, after, -1, 0);
    after
}

/// The elements of a list whose words are at a frame offset.
pub open spec fn elements(j: Job, st: St, at: int) -> Seq<Seq<u8>> {
    Seq::new(
        word(st.frame, at + 8) as nat,
        |i: int|
            item(st.heap, word(st.frame, at) as int, j.x.stride as int, j.x.size as int, i),
    )
}

/// Whether `perm` says of a list where in another each of its elements was: every position once.
pub open spec fn permutes(perm: Seq<int>, src: Seq<Seq<u8>>, out: Seq<Seq<u8>>) -> bool {
    &&& perm.len() == src.len()
    &&& out.len() == src.len()
    &&& forall|i: int| 0 <= i < perm.len() ==> 0 <= #[trigger] perm[i] < src.len()
    &&& forall|i: int, k: int|
        0 <= i < k < perm.len() ==> #[trigger] perm[i] != #[trigger] perm[k]
    &&& forall|i: int| 0 <= i < out.len() ==> #[trigger] out[i] == src[perm[i]]
}

/// Whether a block that was made is apart from one that was in use.
proof fn lemma_apart(j: Job, n: int, st: St, after: St, d: u64, q: int)
    requires
        j.able(),
        0 <= n,
        in_use(j, n, st, q),
        made(st, after, d, n * (j.x.stride as int)),
    ensures
        clear(q, n * (j.x.stride as int), after.at(d) as int, n * (j.x.stride as int)),
        in_use(j, n, after, q),
        in_use(j, n, after, after.at(d) as int),
        heap_kept(st, after),
{
    let bytes = n * (j.x.stride as int);
    let p = after.at(d) as int;
    if !clear(q, bytes, p, bytes) {
        let x = if q < p {
            p
        } else {
            q
        };
        assert((st.used)(x));
        assert(!(st.used)(x));
    }
    assert forall|x: int| #[trigger] (st.used)(x) implies (after.used)(x) && (after.heap)(x) == (
    st.heap)(x) by {}
    assert forall|x: int| q <= x < q + bytes implies #[trigger] (after.used)(x) by {
        assert((st.used)(x));
    }
}

/// What a sort starts from: its count is read and its two blocks are made.
proof fn lemma_start(j: Job, s: Sel, dest: u64, st: St) -> (r: (St, Trio))
    requires
        j.able(),
        carries(
            j.r,
            j.hs,
            s.mv(local(j.e, 0), (j.x.at + 8) as u64, 8).new_block(
                local(j.e, 1),
                dest,
                local(j.e, 0),
                j.x.stride as u64,
            ).new_elems(local(j.e, 2), local(j.e, 0), j.x.stride as u64),
        ),
        dest + 16 <= j.e.scratch,
        clear(dest as int, 16, j.x.at as int, 16),
        st.at((j.x.at + 8) as u64) <= 0x3fff_ffff_ffff_ffff,
        in_use(j, st.at((j.x.at + 8) as u64) as int, st, st.at(j.x.at as u64) as int),
    ensures
        j.r.stops(s.ops.len() as int, st) || ({
            &&& j.r.goes(
                s.ops.len() as int,
                st,
                s.mv(local(j.e, 0), (j.x.at + 8) as u64, 8).new_block(
                    local(j.e, 1),
                    dest,
                    local(j.e, 0),
                    j.x.stride as u64,
                ).new_elems(local(j.e, 2), local(j.e, 0), j.x.stride as u64).ops.len() as int,
                r.0,
            )
            &&& steady(j, r.1, r.0)
            &&& r.1.src == elements(j, st, j.x.at as int)
            &&& r.1.qs == st.at(j.x.at as u64)
            &&& r.0.at(dest) == r.1.qd
            &&& r.0.at((dest + 8) as u64) == r.1.n
            &&& forall|x: int|
                x < j.e.scratch && (x < dest || dest + 16 <= x) ==> #[trigger] (r.0.frame)(x) == (
                st.frame)(x)
        }),
{
    broadcast use {crate::owning::lemma_carries, adds_mv, adds_new_elems, word_of_put,
        word_beside_put, byte_beside_put, word_of_copied, word_beside_copied};

    let e = j.e;
    let r = j.r;
    let ln = local(e, 0);
    let ld = local(e, 1);
    let lt = local(e, 2);
    let xs = j.x.at as u64;
    let stride = j.x.stride as u64;
    let s1 = s.mv(ln, (xs + 8) as u64, 8);
    let s2 = s1.new_elems(ld, ln, stride);
    let s3 = s2.mv(dest, ld, 8);
    let s4 = s3.mv((dest + 8) as u64, ln, 8);
    let s5 = s4.new_elems(lt, ln, stride);
    assert(s1.new_block(ld, dest, ln, stride) == s4);
    assert(carries(r, j.hs, s4));
    let n = st.at((xs + 8) as u64) as int;
    let qs = st.at(xs) as int;
    let pc = s.ops.len() as int;
    let st1 = st.moved(ln, (xs + 8) as u64, 8);
    r.lemma_mv(s, ln, (xs + 8) as u64, 8, st);
    assert(st1.at(ln) == n && st1.at(xs) == qs);
    let st2 = r.lemma_alloc(s1, ld, ln, stride, st1);
    let none = Trio { n, src: Seq::empty(), qs, qd: 0, qt: 0 };
    if r.stops(s1.ops.len() as int, st1) {
        r.lemma_stops(pc, st, s1.ops.len() as int, st1);
        (st, none)
    } else {
        r.lemma_on(pc, st, s1.ops.len() as int, st1, s2.ops.len() as int, st2);
        lemma_apart(j, n, st1, st2, ld, qs);
        let qd = st2.at(ld) as int;
        assert(st2.at(ln) == n && st2.at(xs) == qs);
        let st3 = st2.moved(dest, ld, 8);
        r.lemma_mv(s2, dest, ld, 8, st2);
        r.lemma_on(pc, st, s2.ops.len() as int, st2, s3.ops.len() as int, st3);
        assert(st3.at(dest) == qd && st3.at(ld) == qd && st3.at(ln) == n && st3.at(xs) == qs);
        let st4 = st3.moved((dest + 8) as u64, ln, 8);
        r.lemma_mv(s3, (dest + 8) as u64, ln, 8, st3);
        r.lemma_on(pc, st, s3.ops.len() as int, st3, s4.ops.len() as int, st4);
        assert(st4.at(dest) == qd && st4.at(ld) == qd && st4.at(ln) == n && st4.at(xs) == qs
            && st4.at((dest + 8) as u64) == n);
        let st5 = r.lemma_alloc(s4, lt, ln, stride, st4);
        if r.stops(s4.ops.len() as int, st4) {
            r.lemma_stops(pc, st, s4.ops.len() as int, st4);
            (st, none)
        } else {
            r.lemma_on(pc, st, s4.ops.len() as int, st4, s5.ops.len() as int, st5);
            lemma_apart(j, n, st4, st5, lt, qs);
            lemma_apart(j, n, st4, st5, lt, qd);
            let qt = st5.at(lt) as int;
            let src = elements(j, st, xs as int);
            let t = Trio { n, src, qs, qd, qt };
            lemma_kept(j, n, st1, st2, qs);
            lemma_kept(j, n, st4, st5, qs);
            assert(st5.at(dest) == qd && st5.at(ld) == qd && st5.at(ln) == n && st5.at(xs) == qs
                && st5.at((dest + 8) as u64) == n);
            assert forall|i: int| 0 <= i < n implies #[trigger] item(
                st5.heap,
                qs,
                j.x.stride as int,
                j.x.size as int,
                i,
            ) == src[i] by {
                assert(item(st4.heap, qs, j.x.stride as int, j.x.size as int, i) == item(
                    st2.heap,
                    qs,
                    j.x.stride as int,
                    j.x.size as int,
                    i,
                ));
            }
            (st5, t)
        }
    }
}

/// Sorting a list leaves a list with every element of the source once, in the order of the step: of
/// two elements the step never says that the one before is greater, and elements that it calls equal
/// are in the order that the source has them in. The source keeps its elements. It holds unless
/// memory runs out, of a step that is a total preorder.
pub proof fn a_sort_is_a_stable_permutation(j: Job, s: Sel, dest: u64, st: St) -> (r: (St, Seq<int>))
    requires
        j.able(),
        carries(j.r, j.hs, s.list_sort(j.e, j.x, j.c, dest)),
        dest + 16 <= j.e.scratch,
        clear(dest as int, 16, j.x.at as int, 16),
        clear(dest as int, 16, j.c.fslot as int, 16),
        st.at((j.x.at + 8) as u64) <= 0x3fff_ffff_ffff_ffff,
        in_use(j, st.at((j.x.at + 8) as u64) as int, st, st.at(j.x.at as u64) as int),
    ensures
        j.r.stops(s.ops.len() as int, st) || ({
            let after = r.0;
            let perm = r.1;
            let src = elements(j, st, j.x.at as int);
            let out = elements(j, after, dest as int);
            &&& j.r.goes(
                s.ops.len() as int,
                st,
                s.list_sort(j.e, j.x, j.c, dest).ops.len() as int,
                after,
            )
            &&& permutes(perm, src, out)
            &&& forall|i: int, k: int|
                0 <= i < k < out.len() ==> (j.o)(#[trigger] out[i], #[trigger] out[k]) != 2
            &&& forall|i: int, k: int|
                0 <= i < k < out.len() && (j.o)(#[trigger] out[i], #[trigger] out[k]) == 1
                    ==> perm[i] < perm[k]
            &&& elements(j, after, j.x.at as int) == src
            &&& forall|x: int|
                x < j.e.scratch && (x < dest || dest + 16 <= x) ==> #[trigger] (after.frame)(x) == (
                st.frame)(x)
        }),
{
    let e = j.e;
    let r = j.r;
    let s1 = s.mv(local(e, 0), (j.x.at + 8) as u64, 8).new_block(
        local(e, 1),
        dest,
        local(e, 0),
        j.x.stride as u64,
    ).new_elems(local(e, 2), local(e, 0), j.x.stride as u64);
    let s2 = s1.sort_copy(e, j.x);
    let s3 = s2.sort_passes(e, j.x, j.c);
    let s4 = s3.sort_home(e, j.x);
    assert(s.list_sort(e, j.x, j.c, dest) == s4);
    lemma_home_there(j, s3);
    lemma_passes_there(j, s2);
    lemma_copying_there(j, s1);
    let pc = s.ops.len() as int;
    let (st1, t) = lemma_start(j, s, dest, st);
    if r.stops(pc, st) {
        (st, Seq::empty())
    } else {
        let c = copying_at(j, s1);
        let st2 = lemma_imm_local(j, s1, 13, 0, st1);
        lemma_steady(j, t, st1, st2, 13, 0);
        r.lemma_on(pc, st, s1.ops.len() as int, st1, c.s0.ops.len() as int, st2);
        let st3 = lemma_copy_loop(j, t, s1, st2, 0);
        r.lemma_on(pc, st, c.s0.ops.len() as int, st2, s2.ops.len() as int, st3);
        let (st4, perm, q) = lemma_passes(j, t, s2, st3);
        r.lemma_on(pc, st, s2.ops.len() as int, st3, s3.ops.len() as int, st4);
        let st5 = lemma_home(j, t, s3, st4, perm, q);
        r.lemma_on(pc, st, s3.ops.len() as int, st4, s4.ops.len() as int, st5);
        let src = elements(j, st, j.x.at as int);
        let out = elements(j, st5, dest as int);
        let xs = j.x.at as u64;
        lemma_at_same(st1, st5, dest);
        lemma_at_same(st1, st5, (dest + 8) as u64);
        lemma_at_same(st, st5, (xs + 8) as u64);
        assert(st5.at(dest) == t.qd && st5.at((dest + 8) as u64) == t.n);
        assert(elements(j, st5, j.x.at as int) =~= src);
        assert forall|i: int| 0 <= i < out.len() implies #[trigger] out[i] == src[perm[i]] by {
            assert(0 <= perm[i] < t.n);
        }
        assert forall|i: int, k: int| 0 <= i < k < perm.len() implies #[trigger] perm[i]
            != #[trigger] perm[k] by {
            assert(first(j.o, src, perm[i], perm[k]));
            let x = src[perm[i]];
            assert((j.o)(x, x) != 0) by {
                assert(((j.o)(x, x) == 0) == ((j.o)(x, x) == 2));
            }
        }
        assert forall|i: int, k: int| 0 <= i < k < out.len() implies (j.o)(
            #[trigger] out[i],
            #[trigger] out[k],
        ) != 2 && ((j.o)(out[i], out[k]) == 1 ==> perm[i] < perm[k]) by {
            assert(first(j.o, src, perm[i], perm[k]));
        }
        (st5, perm)
    }
}

} // verus!
