//! What a loop over a list comes to: a step that keeps or drops each element is asked about each in
//! turn.

use crate::copies::Frame;
use crate::grown::{
    adds, adds_br_lt, adds_call_fn, adds_call_ptr, adds_elem_load, adds_fresh, adds_imm_to,
    adds_jump, adds_loop_answer, adds_loop_next, adds_loop_step, adds_mv, adds_place,
    adds_retain_value, adds_self,
};
use crate::lists::{elem_param, Loop, Step};
use crate::machine::{
    adds_words, arm_is_a_twin, byte_beside_put, clear, copy_of, hole, loaded, loaded_word,
    moves_elements, twin, word, word_beside_copied, word_beside_put, word_of_copied, word_of_put,
    Machine, Run, St,
};
use crate::owning::{a_walk_counts_each_owned_block_once, carries, not_spare, sits, walks};
use crate::select::{Env, Helper, Item, Sel, H, V};
use crate::sorting::{bytes_at, heap_kept, item};
use vstd::prelude::*;

verus! {

/// A loop over a list: the run that it is part of, what it is for, which elements the step keeps or
/// what it turns each into, and what a walk of a value rests on.
pub struct Search {
    pub r: Run,
    pub e: Env,
    pub p: Loop,
    pub keep: spec_fn(Seq<u8>) -> bool,
    pub turn: spec_fn(Seq<u8>) -> Seq<u8>,
    pub hs: Seq<Helper>,
    pub base: u64,
    pub deep: nat,
    pub lim: int,
}

/// The operation that adds to a word and branches on whether it is still below another.
pub open spec fn op_next(key: Seq<char>, d: u64, a: u64, n: u64, b: u64, tv: V, fv: V) -> Item {
    Item::Stencil {
        key,
        binds: seq![
            (H::D, V::I(d)),
            (H::A, V::I(a)),
            (H::N, V::I(n)),
            (H::B, V::I(b)),
            (H::T, tv),
            (H::F, fv),
        ],
    }
}

/// Counters are stepped and tested in one.
pub open spec fn steps_counters(m: Machine) -> bool {
    forall|key: Seq<char>, d: u64, a: u64, n: u64, b: u64, tv: V, fv: V, st: St|
        twin(key, "incbr/lt"@) && clear(d as int, 8, b as int, 8) && st.at(a) + n <= u64::MAX
            ==> #[trigger] (m.does)(op_next(key, d, a, n, b, tv, fv), st) == st.with(
            d,
            (st.at(a) + n) as u64,
        ) && (m.holds)(op_next(key, d, a, n, b, tv, fv), st) == (st.at(a) + n < st.at(b))
}

impl Search {
    /// Where the frame of the step is.
    pub open spec fn callee(self) -> u64 {
        self.e.frame.size as u64
    }

    /// Where the step finds the element.
    pub open spec fn to(self) -> u64 {
        (self.callee() + self.p.shape.params[elem_param(self.p.kind, self.p.ops)]) as u64
    }

    /// Where the step finds the context.
    pub open spec fn ctx_at(self) -> u64 {
        (self.callee() + self.p.shape.params[0]) as u64
    }

    /// Where the step finds its environment.
    pub open spec fn env(self) -> u64 {
        (self.callee() + self.p.shape.env) as u64
    }

    /// Where the step leaves its answer.
    pub open spec fn answer(self) -> u64 {
        (self.callee() + self.p.shape.ret) as u64
    }

    /// The bytes that an element takes in the frame.
    pub open spec fn room(self) -> int {
        if self.p.ops.elem_w < 8 {
            8
        } else {
            self.p.ops.elem_w as int
        }
    }

    /// The call of the step.
    pub open spec fn call(self) -> Item {
        if self.p.shape.direct {
            Item::Stencil {
                key: "call"@,
                binds: seq![
                    (H::N, V::I(self.callee())),
                    (H::P, V::I(self.callee())),
                    (H::Callee, V::Fn(self.p.shape.func)),
                    (H::Cont0, V::Fall),
                ],
            }
        } else {
            crate::sorting::op_step(self.p.ops.fslot as u64, self.callee())
        }
    }

    /// Whether a step has its environment and its context.
    pub open spec fn handed(self, st: St) -> bool {
        &&& self.p.shape.env_w > 0 ==> st.at(self.env()) == st.at((self.p.ops.fslot + 8) as u64)
        &&& self.p.ops.ctx matches Some(c) ==> bytes_at(st.frame, self.ctx_at() as int, c.1 as int)
            == bytes_at(st.frame, c.0 as int, c.1 as int)
    }

    /// A call of the step, once it has what it takes, leaves whether it keeps the element, or what it
    /// turns it into. It changes nothing of the frame of its caller nor of what is in use.
    pub open spec fn tells(self) -> bool {
        forall|st: St|
            self.handed(st) ==> ({
                let after = #[trigger] (self.r.m.does)(self.call(), st);
                &&& after.stopped == st.stopped
                &&& heap_kept(st, after)
                &&& forall|x: int| x < self.callee() ==> #[trigger] (after.frame)(x) == (st.frame)(x)
                &&& self.p.kind != Step::MapEach && self.p.kind != Step::Fold ==> after.at(
                    self.answer(),
                ) == if (self.keep)(
                    bytes_at(st.frame, self.to() as int, self.p.ops.elem_w as int),
                ) {
                    1u64
                } else {
                    0
                }
                &&& self.p.kind == Step::MapEach ==> bytes_at(
                    after.frame,
                    self.answer() as int,
                    self.p.ops.out_w as int,
                ) == (self.turn)(
                    bytes_at(st.frame, self.to() as int, self.p.ops.elem_w as int),
                )
            })
    }

    /// Whether a value of a type at an offset can be retained there.
    pub open spec fn retains(self, ty: usize, at: u64) -> bool {
        !self.e.sw.no_counts ==> {
            &&& sits(self.e.prog.tables, ty, at as int, self.deep, self.lim)
            &&& forall|s: Sel| (#[trigger] s.walk_rc(self.e, ty, at, true, 0)).1 is None
        }
    }

    /// What a search rests on: a machine that does what its operations ask for, and places in the
    /// frame that are apart.
    pub open spec fn fit(self) -> bool {
        let e = self.e;
        let o = self.p.ops;
        let room = self.room();
        &&& walks(self.r, e, self.hs, self.base, self.lim)
        &&& adds_words(self.r.m)
        &&& moves_elements(self.r.m)
        &&& steps_counters(self.r.m)
        &&& self.tells()
        &&& self.hs.len() <= usize::MAX
        &&& self.lim <= u64::MAX
        &&& 0 < o.elem_w <= o.si
        &&& e.word(32) <= self.callee()
        &&& self.callee() <= self.to()
        &&& self.callee() <= self.env()
        &&& self.callee() <= self.answer()
        &&& self.to() + room <= u64::MAX
        &&& self.env() + 8 <= u64::MAX
        &&& self.answer() + 8 <= u64::MAX
        &&& clear(self.to() as int, room, self.env() as int, 8)
        &&& o.xs + 16 <= e.scratch
        &&& o.fslot + 16 <= e.scratch
        &&& o.dest + 8 <= e.scratch
        &&& clear(o.dest as int, 8, o.xs as int, 16)
        &&& clear(o.dest as int, 8, o.fslot as int, 16)
        &&& o.elem_counted matches Some(t) ==> self.retains(t, self.to())
        &&& o.ctx matches Some(c) ==> {
            &&& c.0 + c.1 <= e.scratch
            &&& clear(o.dest as int, 8, c.0 as int, c.1 as int)
            &&& self.callee() <= self.ctx_at()
            &&& self.ctx_at() + c.1 <= u64::MAX
            &&& clear(self.ctx_at() as int, c.1 as int, self.env() as int, 8)
            &&& clear(self.ctx_at() as int, c.1 as int, self.to() as int, room)
            &&& c.2 matches Some(t) ==> self.retains(t, self.ctx_at())
        }
    }

    /// The element at an index of the block that the search is over.
    pub open spec fn elem(self, st: St, q: int, i: int) -> Seq<u8> {
        item(st.heap, q, self.p.ops.si as int, self.p.ops.elem_w as int, i)
    }
}

/// The elements of the list that a search is over.
pub open spec fn searched(j: Search, st: St) -> Seq<Seq<u8>> {
    Seq::new(
        word(st.frame, j.p.ops.xs + 8) as nat,
        |i: int| j.elem(st, word(st.frame, j.p.ops.xs as int) as int, i),
    )
}

/// Whether the elements of the list are in use.
pub open spec fn list_in_use(j: Search, st: St) -> bool {
    forall|x: int|
        st.at(j.p.ops.xs as u64) <= x < st.at(j.p.ops.xs as u64) + st.at(
            (j.p.ops.xs + 8) as u64,
        ) * (j.p.ops.si as int) ==> #[trigger] (st.used)(x)
}

/// How many of the first `i` elements the step keeps.
pub open spec fn kept_of(keep: spec_fn(Seq<u8>) -> bool, src: Seq<Seq<u8>>, i: int) -> int
    decreases i,
{
    if i <= 0 {
        0
    } else {
        kept_of(keep, src, i - 1) + if keep(src[i - 1]) {
            1int
        } else {
            0
        }
    }
}

/// Where a search is: its words, its list, and the slots of its caller.
pub open spec fn looking(j: Search, src: Seq<Seq<u8>>, q: int, f: Frame, st: St, i: int) -> bool {
    let e = j.e;
    let o = j.p.ops;
    &&& st.at(e.word(8)) == i
    &&& st.at(e.word(9)) == src.len()
    &&& st.at(e.word(10)) == q
    &&& forall|x: int|
        x < e.scratch && (x < o.dest || o.dest + 8 <= x) ==> #[trigger] (st.frame)(x) == f(x)
    &&& forall|x: int| q <= x < q + src.len() * (o.si as int) ==> #[trigger] (st.used)(x)
    &&& forall|k: int| 0 <= k < src.len() ==> #[trigger] j.elem(st, q, k) == src[k]
}

pub proof fn lemma_same_word(a: St, b: St, x: u64)
    requires
        forall|k: int| 0 <= k < 8 ==> #[trigger] (b.frame)(x + k) == (a.frame)(x + k),
    ensures
        b.at(x) == a.at(x),
{
    reveal(word);
    assert(Seq::new(8, |i: int| (b.frame)(x + i)) =~= Seq::new(8, |i: int| (a.frame)(x + i)));
}

/// Steps that keep the words of the search, the slots of its caller and what is in use.
pub proof fn lemma_looking(j: Search, src: Seq<Seq<u8>>, q: int, f: Frame, st: St, after: St, i: int)
    requires
        j.fit(),
        looking(j, src, q, f, st, i),
        heap_kept(st, after),
        forall|x: int|
            x < j.e.scratch || j.e.word(8) <= x < j.e.word(12) ==> #[trigger] (after.frame)(x) == (
            st.frame)(x),
    ensures
        looking(j, src, q, f, after, i),
        after.at(j.p.ops.dest as u64) == st.at(j.p.ops.dest as u64),
{
    let e = j.e;
    let stride = j.p.ops.si as int;
    lemma_same_word(st, after, e.word(8));
    lemma_same_word(st, after, e.word(9));
    lemma_same_word(st, after, e.word(10));
    lemma_same_word(st, after, j.p.ops.dest as u64);
    assert forall|x: int|
        x < e.scratch && (x < j.p.ops.dest || j.p.ops.dest + 8 <= x) implies #[trigger] (
    after.frame)(x) == f(x) by {
        assert((st.frame)(x) == f(x));
    }
    lemma_elems(j, src, q, st, after);
}

/// What is in use keeps its elements.
pub proof fn lemma_elems(j: Search, src: Seq<Seq<u8>>, q: int, st: St, after: St)
    requires
        j.fit(),
        heap_kept(st, after),
        forall|x: int| q <= x < q + src.len() * (j.p.ops.si as int) ==> #[trigger] (st.used)(x),
        forall|k: int| 0 <= k < src.len() ==> #[trigger] j.elem(st, q, k) == src[k],
    ensures
        forall|x: int| q <= x < q + src.len() * (j.p.ops.si as int) ==> #[trigger] (after.used)(x),
        forall|k: int| 0 <= k < src.len() ==> #[trigger] j.elem(after, q, k) == src[k],
{
    let stride = j.p.ops.si as int;
    let w = j.p.ops.elem_w as int;
    let n = src.len() as int;
    assert forall|x: int| q <= x < q + n * stride implies #[trigger] (after.used)(x) by {
        assert((st.used)(x));
    }
    assert forall|k: int| 0 <= k < n implies #[trigger] j.elem(after, q, k) == src[k] by {
        assert(j.elem(st, q, k) == src[k]);
        assert(k * stride + stride <= n * stride && 0 <= k * stride) by (nonlinear_arith)
            requires
                0 <= k < n,
                0 <= stride,
        ;
        reveal(item);
        assert forall|b: int| 0 <= b < w implies #[trigger] (after.heap)(q + k * stride + b) == (
        st.heap)(q + k * stride + b) by {
            assert((st.used)(q + k * stride + b));
        }
        assert(bytes_at(after.heap, q + k * stride, w) =~= bytes_at(st.heap, q + k * stride, w));
    }
}

/// A value retained in the frame of a step.
pub proof fn lemma_retain_there(j: Search, s: Sel, ty: usize, at: u64, st: St) -> (after: St)
    requires
        j.fit(),
        j.callee() <= at,
        j.retains(ty, at),
        carries(j.r, j.hs, s.retain_value(j.e, ty, at)),
    ensures
        j.r.goes(
            s.ops.len() as int,
            st,
            s.retain_value(j.e, ty, at).ops.len() as int,
            after,
        ),
        after == (St { frame: after.frame, log: after.log, ..st }),
        forall|x: int| not_spare(j.e, x) ==> #[trigger] (after.frame)(x) == (st.frame)(x),
{
    if j.e.sw.no_counts {
        j.r.lemma_stays(s.ops.len() as int, st);
        st
    } else {
        let after = a_walk_counts_each_owned_block_once(
            j.r,
            j.e,
            j.hs,
            j.base,
            s,
            ty,
            at,
            true,
            j.deep,
            j.lim,
            st,
        );
        assert forall|x: int| not_spare(j.e, x) implies #[trigger] (after.frame)(x) == (st.frame)(
            x,
        ) by {
            assert((st.frame)(x) == (after.frame)(x));
        }
        after
    }
}

/// One call of the step: its environment, its context and the element are handed over, and it tells
/// whether it keeps the element.
pub proof fn lemma_ask(j: Search, s: Sel, src: Seq<Seq<u8>>, q: int, f: Frame, st: St, i: int) -> (after: St)
    requires
        j.fit(),
        j.p.kind != Step::Fold,
        carries(j.r, j.hs, s.loop_step(j.e, j.p)),
        looking(j, src, q, f, st, i),
        0 <= i < src.len(),
    ensures
        j.r.goes(s.ops.len() as int, st, s.loop_step(j.e, j.p).ops.len() as int, after),
        looking(j, src, q, f, after, i),
        after.at(j.p.ops.dest as u64) == st.at(j.p.ops.dest as u64),
        after.stopped == st.stopped,
        heap_kept(st, after),
        forall|x: int| x < j.e.word(27) ==> #[trigger] (after.frame)(x) == (st.frame)(x),
        j.p.kind != Step::MapEach ==> after.at(j.answer()) == if (j.keep)(src[i]) {
            1u64
        } else {
            0
        },
        j.p.kind == Step::MapEach ==> bytes_at(
            after.frame,
            j.answer() as int,
            j.p.ops.out_w as int,
        ) == (j.turn)(src[i]),
{
    broadcast use {crate::owning::lemma_carries, adds_mv, adds_elem_load, adds_retain_value,
        adds_call_fn, adds_call_ptr};

    let e = j.e;
    let r = j.r;
    let o = j.p.ops;
    let sh = j.p.shape;
    let pc = s.ops.len() as int;
    let end = s.loop_step(e, j.p);
    // The selections on the way.
    let passes = sh.env_w > 0 || e.sw.copy_env;
    let s1 = if passes {
        s.mv(j.env(), (o.fslot + 8) as u64, 8)
    } else {
        s
    };
    let s2 = match o.ctx {
        Some(c) => s1.mv(j.ctx_at(), c.0 as u64, c.1),
        None => s1,
    };
    let s3 = match o.ctx {
        Some(c) => match c.2 {
            Some(t) => s2.retain_value(e, t, j.ctx_at()),
            None => s2,
        },
        None => s2,
    };
    let s4 = s3.elem_load(e, j.to(), e.word(10), e.word(8), o.si as u64, o.elem_w as u64);
    let s5 = match o.elem_counted {
        Some(t) => s4.retain_value(e, t, j.to()),
        None => s4,
    };
    let call = j.call();
    let s6 = s5.add(call);
    assert(end == s6);
    assert(carries(r, j.hs, s6));
    assert(adds(s5, s6));
    assert(carries(r, j.hs, s5) && carries(r, j.hs, s4) && carries(r, j.hs, s3) && carries(
        r,
        j.hs,
        s2,
    ) && carries(r, j.hs, s1));
    // The environment.
    let st1 = if passes {
        r.lemma_mv(s, j.env(), (o.fslot + 8) as u64, 8, st);
        st.moved(j.env(), (o.fslot + 8) as u64, 8)
    } else {
        r.lemma_stays(pc, st);
        st
    };
    lemma_looking(j, src, q, f, st, st1, i);
    assert(passes ==> st1.at(j.env()) == st1.at((o.fslot + 8) as u64)) by {
        broadcast use {word_of_copied, word_beside_copied};

    }
    // The context.
    let st2 = match o.ctx {
        Some(c) => {
            r.lemma_mv(s1, j.ctx_at(), c.0 as u64, c.1, st1);
            st1.moved(j.ctx_at(), c.0 as u64, c.1)
        },
        None => {
            r.lemma_stays(s1.ops.len() as int, st1);
            st1
        },
    };
    lemma_looking(j, src, q, f, st1, st2, i);
    r.lemma_on(pc, st, s1.ops.len() as int, st1, s2.ops.len() as int, st2);
    let st3 = match o.ctx {
        Some(c) => match c.2 {
            Some(t) => lemma_retain_there(j, s2, t, j.ctx_at(), st2),
            None => {
                r.lemma_stays(s2.ops.len() as int, st2);
                st2
            },
        },
        None => {
            r.lemma_stays(s2.ops.len() as int, st2);
            st2
        },
    };
    lemma_looking(j, src, q, f, st2, st3, i);
    r.lemma_on(pc, st, s2.ops.len() as int, st2, s3.ops.len() as int, st3);
    // The element.
    r.lemma_elem_load(s3, e, j.to(), e.word(10), e.word(8), o.si as u64, o.elem_w as u64, st3);
    let b = copy_of(st3, e.word(10), e.word(8), o.si as u64, o.elem_w as u64);
    let st4 = if o.elem_w < 8 {
        loaded_word(st3, j.to(), b)
    } else {
        loaded(st3, j.to(), b)
    };
    lemma_looking(j, src, q, f, st3, st4, i);
    r.lemma_on(pc, st, s3.ops.len() as int, st3, s4.ops.len() as int, st4);
    assert(bytes_at(st4.frame, j.to() as int, o.elem_w as int) == src[i]) by {
        assert(j.elem(st3, q, i) == src[i]);
        reveal(item);
        assert(bytes_at(st4.frame, j.to() as int, o.elem_w as int) =~= bytes_at(
            st3.heap,
            q + i * (o.si as int),
            o.elem_w as int,
        ));
    }
    let st5 = match o.elem_counted {
        Some(t) => lemma_retain_there(j, s4, t, j.to(), st4),
        None => {
            r.lemma_stays(s4.ops.len() as int, st4);
            st4
        },
    };
    lemma_looking(j, src, q, f, st4, st5, i);
    r.lemma_on(pc, st, s4.ops.len() as int, st4, s5.ops.len() as int, st5);
    assert(bytes_at(st5.frame, j.to() as int, o.elem_w as int) =~= bytes_at(
        st4.frame,
        j.to() as int,
        o.elem_w as int,
    ));
    assert(j.handed(st5)) by {
        if passes {
            lemma_same_word(st1, st5, j.env());
            lemma_same_word(st1, st5, (o.fslot + 8) as u64);
        }
        if o.ctx is Some {
            let c = o.ctx->0;
            assert(bytes_at(st5.frame, j.ctx_at() as int, c.1 as int) =~= bytes_at(
                st5.frame,
                c.0 as int,
                c.1 as int,
            ));
        }
    }
    // The call.
    reveal_with_fuel(hole, 6);
    r.lemma_add(s5, call, st5);
    let st6 = (r.m.does)(call, st5);
    lemma_looking(j, src, q, f, st5, st6, i);
    r.lemma_on(pc, st, s5.ops.len() as int, st5, s6.ops.len() as int, st6);
    assert(st5.used == st.used && st5.heap == st.heap);
    assert forall|x: int| #[trigger] (st.used)(x) implies (st6.used)(x) && (st6.heap)(x) == (
    st.heap)(x) by {
        assert((st5.used)(x));
    }
    st6
}

/// The next element, or the end.
pub proof fn lemma_next(j: Search, s: Sel, src: Seq<Seq<u8>>, q: int, f: Frame, body: usize, st: St, i: int) -> (after:
    St)
    requires
        j.fit(),
        j.r.has(s.loop_next(j.e, body, j.env())),
        looking(j, src, q, f, st, i),
        0 <= i < src.len(),
    ensures
        j.r.goes(
            s.ops.len() as int,
            st,
            if i + 1 < src.len() {
                (j.r.at)(body)
            } else {
                s.loop_next(j.e, body, j.env()).ops.len() as int
            },
            after,
        ),
        looking(j, src, q, f, after, i + 1),
        after.at(j.p.ops.dest as u64) == st.at(j.p.ops.dest as u64),
        after == (St { frame: after.frame, ..st }),
        forall|x: int|
            x < j.e.word(12) && (x < j.e.word(8) || j.e.word(9) <= x) ==> #[trigger] (after.frame)(
                x,
            ) == (st.frame)(x),
        j.e.has("brcmp/lt/u64/ff"@) ==> forall|x: int|
            j.e.word(12) <= x < j.e.word(13) ==> #[trigger] (after.frame)(x) == (st.frame)(x),
{
    broadcast use {arm_is_a_twin, word_of_put, word_beside_put, byte_beside_put};

    let e = j.e;
    let r = j.r;
    let pc = s.ops.len() as int;
    let end = s.loop_next(e, body, j.env());
    let i8 = e.word(8);
    let n = e.word(9);
    let mid = if e.has("incbr/lt"@) && !e.sw.no_fused {
        let key = e.arm("incbr/lt"@, H::F);
        let o = op_next(key, i8, i8, 1, n, V::Blk(body), V::Fall);
        assert(end == s.add(o));
        reveal_with_fuel(hole, 8);
        r.lemma_two(s, o, V::Blk(body), V::Fall, st);
        st.with(i8, (i + 1) as u64)
    } else {
        let t = s.add_imm(e, i8, i8, 1, j.env());
        assert(end == t.br_lt(e, i8, n, V::Blk(body), V::Fall, H::F));
        assert(r.has(t)) by {
            broadcast use adds_br_lt;

            reveal(adds);
        }
        let st1 = r.lemma_add_imm(s, e, i8, i8, 1, j.env(), st);
        lemma_same_word(st, st1, n);
        let st2 = r.lemma_br_lt(t, e, i8, n, V::Blk(body), V::Fall, H::F, st1);
        let to = if i + 1 < src.len() {
            (r.at)(body)
        } else {
            end.ops.len() as int
        };
        r.lemma_on(pc, st, t.ops.len() as int, st1, to, st2);
        lemma_same_word(st1, st2, i8);
        st2
    };
    lemma_same_word(st, mid, n);
    lemma_same_word(st, mid, e.word(10));
    lemma_same_word(st, mid, j.p.ops.dest as u64);
    assert forall|x: int|
        x < e.scratch && (x < j.p.ops.dest || j.p.ops.dest + 8 <= x) implies #[trigger] (mid.frame)(
        x,
    ) == f(x) by {
        assert((st.frame)(x) == f(x));
    }
    lemma_elems(j, src, q, st, mid);
    mid
}

/// The selections along a search.
struct Points {
    pub s0: Sel,
    pub s1: Sel,
    pub s2: Sel,
    pub s3: Sel,
    pub s4: Sel,
    pub s5: Sel,
    pub s6: Sel,
    pub s7: Sel,
    pub s8: Sel,
    pub s9: Sel,
    pub s10: Sel,
    pub body: usize,
    pub done: usize,
    pub exit: usize,
}

/// Whether a search can end before its list does.
spec fn leaves(kind: Step) -> bool {
    kind == Step::Any || kind == Step::All
}

spec fn points(j: Search, s: Sel) -> Points {
    let e = j.e;
    let p = j.p;
    let s0 = s.loop_open(e, p);
    let body = s0.next();
    let done = s0.fresh().next();
    let s1 = s0.fresh().fresh();
    let s2 = s1.br_lt(e, e.word(8), e.word(9), V::Fall, V::Blk(done), H::T);
    let s3 = s2.place(body);
    let s4 = s3.loop_step(e, p);
    let exit = s4.next();
    let s5 = s4.loop_answer(e, p.kind, p.ops, p.shape);
    let s6 = s5.loop_next(e, body, j.env());
    let s7 = if leaves(p.kind) {
        s6.jump(V::Blk(done))
    } else {
        s6
    };
    let s8 = if leaves(p.kind) {
        s7.place(exit)
    } else {
        s7
    };
    let s9 = if leaves(p.kind) {
        s8.imm_to(
            p.ops.dest as u64,
            if p.kind == Step::Any {
                1
            } else {
                0
            },
        )
    } else {
        s8
    };
    let s10 = s9.place(done);
    Points { s0, s1, s2, s3, s4, s5, s6, s7, s8, s9, s10, body, done, exit }
}

spec fn points_there(j: Search, p: Points) -> bool {
    let r = j.r;
    let hs = j.hs;
    &&& carries(r, hs, p.s0)
    &&& carries(r, hs, p.s1)
    &&& carries(r, hs, p.s2)
    &&& carries(r, hs, p.s3)
    &&& carries(r, hs, p.s4)
    &&& carries(r, hs, p.s5)
    &&& carries(r, hs, p.s6)
    &&& carries(r, hs, p.s7)
    &&& carries(r, hs, p.s8)
    &&& carries(r, hs, p.s9)
    &&& carries(r, hs, p.s10)
}

/// Whether a loop is one of the searches: whether there is an element that the step keeps, whether it
/// keeps all, and how many it keeps.
pub open spec fn searches(kind: Step) -> bool {
    kind == Step::Any || kind == Step::All || kind == Step::Count
}

proof fn lemma_points_there(j: Search, s: Sel)
    requires
        searches(j.p.kind),
        carries(j.r, j.hs, s.list_loop(j.e, j.p)),
    ensures
        s.list_loop(j.e, j.p).ops == points(j, s).s10.ops,
        points_there(j, points(j, s)),
{
    broadcast use {crate::owning::lemma_carries, adds_place, adds_br_lt, adds_loop_step,
        adds_loop_answer, adds_loop_next, adds_jump, adds_fresh, adds_imm_to, adds_self};

    reveal(Sel::list_loop);
    let p = points(j, s);
    let end = s.list_loop(j.e, j.p);
    assert(end.ops == p.s10.ops && end.helpers == p.s10.helpers);
    assert(carries(j.r, j.hs, p.s10));
}

/// What a search has found of the first `i` elements.
pub open spec fn found(kind: Step, keep: spec_fn(Seq<u8>) -> bool, src: Seq<Seq<u8>>, i: int) -> int {
    match kind {
        Step::Any => if exists|k: int| 0 <= k < i && keep(#[trigger] src[k]) {
            1
        } else {
            0
        },
        Step::All => if forall|k: int| 0 <= k < i ==> keep(#[trigger] src[k]) {
            1
        } else {
            0
        },
        _ => kept_of(keep, src, i),
    }
}

proof fn lemma_kept_of(keep: spec_fn(Seq<u8>) -> bool, src: Seq<Seq<u8>>, i: int)
    requires
        0 <= i,
    ensures
        0 <= kept_of(keep, src, i) <= i,
    decreases i,
{
    if i > 0 {
        lemma_kept_of(keep, src, i - 1);
    }
}

/// A search from one of its elements to its end.
proof fn lemma_search(j: Search, s: Sel, src: Seq<Seq<u8>>, q: int, f: Frame, st: St, i: int) -> (after: St)
    requires
        j.fit(),
        searches(j.p.kind),
        points_there(j, points(j, s)),
        looking(j, src, q, f, st, i),
        0 <= i < src.len(),
        leaves(j.p.kind) ==> found(j.p.kind, j.keep, src, i) == found(j.p.kind, j.keep, src, 0),
        st.at(j.p.ops.dest as u64) == found(j.p.kind, j.keep, src, i),
    ensures
        j.r.goes(
            points(j, s).s2.ops.len() as int,
            st,
            points(j, s).s10.ops.len() as int,
            after,
        ),
        after.at(j.p.ops.dest as u64) == found(j.p.kind, j.keep, src, src.len() as int),
        forall|x: int|
            x < j.e.scratch && (x < j.p.ops.dest || j.p.ops.dest + 8 <= x) ==> #[trigger] (
            after.frame)(x) == f(x),
    decreases src.len() - i,
{
    broadcast use {arm_is_a_twin, word_of_put, word_beside_put, byte_beside_put};

    let e = j.e;
    let r = j.r;
    let kind = j.p.kind;
    let p = points(j, s);
    let pc = p.s2.ops.len() as int;
    let end = p.s10.ops.len() as int;
    let d = j.p.ops.dest as u64;
    lemma_kept_of(j.keep, src, i);
    r.lemma_place(p.s2, p.body, st);
    r.lemma_place(p.s9, p.done, st);
    let st1 = lemma_ask(j, p.s3, src, q, f, st, i);
    r.lemma_on(pc, st, p.s3.ops.len() as int, st, p.s4.ops.len() as int, st1);
    let yes = (j.keep)(src[i]);
    if leaves(kind) {
        r.lemma_place(p.s7, p.exit, st1);
    }
    if leaves(kind) && yes == (kind == Step::Any) {
        // The search is decided.
        let br = e.arm(
            "br/f"@,
            if kind == Step::Any {
                H::F
            } else {
                H::T
            },
        );
        let t = p.s4.fresh();
        if kind == Step::Any {
            assert(p.s5 == t.test(br, j.answer(), V::Blk(p.exit), V::Fall));
            r.lemma_test(t, br, j.answer(), V::Blk(p.exit), V::Fall, st1);
        } else {
            assert(p.s5 == t.test(br, j.answer(), V::Fall, V::Blk(p.exit)));
            r.lemma_test(t, br, j.answer(), V::Fall, V::Blk(p.exit), st1);
        }
        let v: u64 = if kind == Step::Any {
            1
        } else {
            0
        };
        r.lemma_on(pc, st, p.s4.ops.len() as int, st1, p.s7.ops.len() as int, st1);
        r.lemma_on(pc, st, p.s7.ops.len() as int, st1, p.s8.ops.len() as int, st1);
        r.lemma_imm(p.s8, d, v, st1);
        let st2 = st1.with(d, v);
        r.lemma_on(pc, st, p.s8.ops.len() as int, st1, p.s9.ops.len() as int, st2);
        r.lemma_place(p.s9, p.done, st2);
        r.lemma_on(pc, st, p.s9.ops.len() as int, st2, end, st2);
        assert(found(kind, j.keep, src, src.len() as int) == v) by {
            assert((j.keep)(src[i]) == yes);
        }
        st2
    } else {
        let st2 = if leaves(kind) {
            let br = e.arm(
                "br/f"@,
                if kind == Step::Any {
                    H::F
                } else {
                    H::T
                },
            );
            let t = p.s4.fresh();
            if kind == Step::Any {
                assert(p.s5 == t.test(br, j.answer(), V::Blk(p.exit), V::Fall));
                r.lemma_test(t, br, j.answer(), V::Blk(p.exit), V::Fall, st1);
            } else {
                assert(p.s5 == t.test(br, j.answer(), V::Fall, V::Blk(p.exit)));
                r.lemma_test(t, br, j.answer(), V::Fall, V::Blk(p.exit), st1);
            }
            r.lemma_on(pc, st, p.s4.ops.len() as int, st1, p.s5.ops.len() as int, st1);
            st1
        } else {
            assert(p.s5 == p.s4.dab("bin/add/u64/ff/f"@, d, d, j.answer()));
            r.lemma_add_words(p.s4, d, d, j.answer(), st1);
            let v = (st1.at(d) + st1.at(j.answer())) as u64;
            let st2 = st1.with(d, v);
            r.lemma_on(pc, st, p.s4.ops.len() as int, st1, p.s5.ops.len() as int, st2);
            lemma_counted(j, src, q, f, st1, v, i);
            st2
        };
        assert(looking(j, src, q, f, st2, i));
        assert(st2.at(d) == found(kind, j.keep, src, i + 1)) by {
            if kind == Step::Any {
                assert(found(kind, j.keep, src, 0) == 0);
                assert forall|k: int| 0 <= k < i + 1 implies !(j.keep)(#[trigger] src[k]) by {}
            } else if kind == Step::All {
                assert(found(kind, j.keep, src, 0) == 1);
                assert forall|k: int| 0 <= k < i + 1 implies (j.keep)(#[trigger] src[k]) by {}
            }
        }
        let st3 = lemma_next(j, p.s5, src, q, f, p.body, st2, i);
        if i + 1 < src.len() {
            r.lemma_on(pc, st, p.s5.ops.len() as int, st2, pc, st3);
            let after = lemma_search(j, s, src, q, f, st3, i + 1);
            r.lemma_on(pc, st, pc, st3, end, after);
            after
        } else {
            r.lemma_on(pc, st, p.s5.ops.len() as int, st2, p.s6.ops.len() as int, st3);
            if leaves(kind) {
                r.lemma_jump(p.s6, V::Blk(p.done), st3);
                r.lemma_on(pc, st, p.s6.ops.len() as int, st3, p.s9.ops.len() as int, st3);
            }
            r.lemma_place(p.s9, p.done, st3);
            r.lemma_on(pc, st, p.s9.ops.len() as int, st3, end, st3);
            st3
        }
    }
}

/// A count written leaves the search where it is.
proof fn lemma_counted(j: Search, src: Seq<Seq<u8>>, q: int, f: Frame, st: St, v: u64, i: int)
    requires
        j.fit(),
        looking(j, src, q, f, st, i),
    ensures
        looking(j, src, q, f, st.with(j.p.ops.dest as u64, v), i),
        st.with(j.p.ops.dest as u64, v).at(j.p.ops.dest as u64) == v,
{
    broadcast use {word_of_put, word_beside_put, byte_beside_put};

    let after = st.with(j.p.ops.dest as u64, v);
    assert forall|k: int| 0 <= k < src.len() implies #[trigger] j.elem(after, q, k) == src[k] by {
        assert(j.elem(st, q, k) == src[k]);
    }
    assert forall|x: int|
        x < j.e.scratch && (x < j.p.ops.dest || j.p.ops.dest + 8 <= x) implies #[trigger] (
    after.frame)(x) == f(x) by {
        assert((st.frame)(x) == f(x));
    }
}

/// A search leaves what it is for: whether the step keeps an element of the list, whether it keeps
/// every element, or how many it keeps.
pub proof fn a_search_answers_for_the_whole_list(j: Search, s: Sel, st: St) -> (after: St)
    requires
        j.fit(),
        searches(j.p.kind),
        carries(j.r, j.hs, s.list_loop(j.e, j.p)),
        list_in_use(j, st),
    ensures
        j.r.goes(s.ops.len() as int, st, s.list_loop(j.e, j.p).ops.len() as int, after),
        ({
            let src = searched(j, st);
            let keep = j.keep;
            let got = after.at(j.p.ops.dest as u64);
            match j.p.kind {
                Step::Any => got == 1 <==> exists|k: int|
                    0 <= k < src.len() && keep(#[trigger] src[k]),
                Step::All => got == 1 <==> forall|k: int|
                    0 <= k < src.len() ==> keep(#[trigger] src[k]),
                _ => got == kept_of(keep, src, src.len() as int),
            }
        }),
        after.at(j.p.ops.dest as u64) <= 1 || j.p.kind == Step::Count,
        forall|x: int|
            x < j.e.scratch && (x < j.p.ops.dest || j.p.ops.dest + 8 <= x) ==> #[trigger] (
            after.frame)(x) == (st.frame)(x),
{
    broadcast use {crate::owning::lemma_carries, adds_mv, adds_imm_to, word_of_put, word_beside_put,
        byte_beside_put, word_of_copied, word_beside_copied};

    let e = j.e;
    let r = j.r;
    let o = j.p.ops;
    let kind = j.p.kind;
    let xs = o.xs as u64;
    let d = o.dest as u64;
    lemma_points_there(j, s);
    let p = points(j, s);
    let pc = s.ops.len() as int;
    let end = p.s10.ops.len() as int;
    let first: u64 = if kind == Step::All {
        1
    } else {
        0
    };
    let t1 = s.mv(e.word(10), xs, 8);
    let t2 = t1.mv(e.word(9), (xs + 8) as u64, 8);
    let t3 = t2.imm_to(d, first);
    let t4 = t3.imm_to(e.word(8), 0);
    assert(p.s0 == t4);
    assert(carries(r, j.hs, t4));
    let st1 = st.moved(e.word(10), xs, 8);
    let st2 = st1.moved(e.word(9), (xs + 8) as u64, 8);
    let st3 = st2.with(d, first);
    let st4 = st3.with(e.word(8), 0);
    r.lemma_imm(t3, e.word(8), 0, st3);
    r.lemma_imm(t2, d, first, st2);
    r.lemma_mv(t1, e.word(9), (xs + 8) as u64, 8, st1);
    r.lemma_mv(s, e.word(10), xs, 8, st);
    r.lemma_on(pc, st, t1.ops.len() as int, st1, t2.ops.len() as int, st2);
    r.lemma_on(pc, st, t2.ops.len() as int, st2, t3.ops.len() as int, st3);
    r.lemma_on(pc, st, t3.ops.len() as int, st3, t4.ops.len() as int, st4);
    let q = st.at(xs) as int;
    let src = searched(j, st);
    assert(st4.at(e.word(10)) == q && st4.at(e.word(9)) == src.len() && st4.at(e.word(8)) == 0
        && st4.at(d) == first);
    assert(looking(j, src, q, st.frame, st4, 0));
    let st5 = r.lemma_br_lt(
        p.s1,
        e,
        e.word(8),
        e.word(9),
        V::Fall,
        V::Blk(p.done),
        H::T,
        st4,
    );
    lemma_looking(j, src, q, st.frame, st4, st5, 0);
    r.lemma_place(p.s9, p.done, st5);
    if src.len() == 0 {
        r.lemma_on(pc, st, p.s1.ops.len() as int, st4, p.s9.ops.len() as int, st5);
        r.lemma_on(pc, st, p.s9.ops.len() as int, st5, end, st5);
        st5
    } else {
        r.lemma_on(pc, st, p.s1.ops.len() as int, st4, p.s2.ops.len() as int, st5);
        let after = lemma_search(j, s, src, q, st.frame, st5, 0);
        r.lemma_on(pc, st, p.s2.ops.len() as int, st5, end, after);
        after
    }
}

} // verus!
