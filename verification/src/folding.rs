//! What a fold over a list comes to: the step applied to what there is so far and to each element in
//! turn.

use crate::copies::Frame;
use crate::grown::{
    adds, adds_br_lt, adds_call_fn, adds_call_ptr, adds_elem_load, adds_fresh, adds_imm_to,
    adds_loop_answer, adds_loop_next, adds_loop_step, adds_mv, adds_place, adds_retain_value,
    adds_self,
};
use crate::lists::Step;
use crate::machine::{
    byte_beside_put, clear, copy_of, hole, loaded, loaded_word, word_beside_copied, word_beside_put,
    word_of_copied, word_of_put, St,
};
use crate::owning::{a_walk_counts_each_owned_block_once, carries, not_spare, sits};
use crate::searching::{
    lemma_elems, lemma_next, lemma_retain_there, lemma_same_word, list_in_use, looking, searched,
    Search,
};
use crate::select::{Sel, H, V};
use crate::sorting::{bytes_at, heap_kept, item};
use vstd::prelude::*;

verus! {

/// What a fold makes of two: what there is so far, and an element.
pub type Join = spec_fn(Seq<u8>, Seq<u8>) -> Seq<u8>;

/// The first `i` elements folded.
pub open spec fn folded(join: Join, init: Seq<u8>, src: Seq<Seq<u8>>, i: int) -> Seq<u8>
    decreases i,
{
    if i <= 0 {
        init
    } else {
        join(folded(join, init, src, i - 1), src[i - 1])
    }
}

/// Where the step finds what there is so far.
pub open spec fn acc_at(j: Search) -> u64 {
    (j.callee() + j.p.shape.params[if j.p.ops.ctx is Some {
        1
    } else {
        0
    }]) as u64
}

/// A call of the step, once it has what it takes, leaves what it makes of what there is so far and the
/// element.
pub open spec fn joins(j: Search, join: Join) -> bool {
    forall|st: St|
        j.handed(st) ==> bytes_at(
            (#[trigger] (j.r.m.does)(j.call(), st)).frame,
            j.answer() as int,
            j.p.ops.acc_w as int,
        ) == join(
            bytes_at(st.frame, acc_at(j) as int, j.p.ops.acc_w as int),
            bytes_at(st.frame, j.to() as int, j.p.ops.elem_w as int),
        )
}

/// What a fold rests on beside what every loop does: a place for what there is so far that is apart
/// from the others.
pub open spec fn fit_to_fold(j: Search) -> bool {
    let o = j.p.ops;
    let w = o.acc_w as int;
    let at = acc_at(j) as int;
    &&& j.fit()
    &&& j.p.kind == Step::Fold
    &&& 8 <= w
    &&& o.init is Some
    &&& o.init->0 + w <= j.e.scratch
    &&& o.init->0 == o.dest || clear(o.init->0 as int, w, o.dest as int, w)
    &&& o.dest + w <= j.e.scratch
    &&& clear(o.dest as int, w, o.xs as int, 16)
    &&& clear(o.dest as int, w, o.fslot as int, 16)
    &&& j.e.scratch <= j.lim
    &&& o.acc_counted matches Some(t) ==> j.e.sw.no_counts || {
        &&& sits(j.e.prog.tables, t, o.dest as int, j.deep, j.e.scratch as int)
        &&& forall|s: Sel| (#[trigger] s.walk_rc(j.e, t, o.dest as u64, true, 0)).1 is None
    }
    &&& j.callee() <= at
    &&& at + w <= u64::MAX
    &&& j.answer() + w <= u64::MAX
    &&& clear(at, w, j.env() as int, 8)
    &&& clear(at, w, j.to() as int, j.room())
    &&& o.ctx matches Some(c) ==> {
        &&& clear(o.dest as int, w, c.0 as int, c.1 as int)
        &&& clear(at, w, j.ctx_at() as int, c.1 as int)
    }
}

/// Where a fold is: its words, its list, the slots of its caller, and what there is so far.
spec fn folding(
    j: Search,
    src: Seq<Seq<u8>>,
    q: int,
    f: Frame,
    st: St,
    i: int,
    acc: Seq<u8>,
) -> bool {
    let e = j.e;
    let o = j.p.ops;
    &&& st.at(e.word(8)) == i
    &&& st.at(e.word(9)) == src.len()
    &&& st.at(e.word(10)) == q
    &&& forall|x: int|
        x < e.scratch && (x < o.dest || o.dest + o.acc_w <= x) ==> #[trigger] (st.frame)(x) == f(x)
    &&& forall|x: int| q <= x < q + src.len() * (o.si as int) ==> #[trigger] (st.used)(x)
    &&& forall|k: int| 0 <= k < src.len() ==> #[trigger] j.elem(st, q, k) == src[k]
    &&& bytes_at(st.frame, o.dest as int, o.acc_w as int) == acc
}

/// Steps that keep the words of the fold, the slots of its caller and what is in use.
proof fn lemma_folding(
    j: Search,
    src: Seq<Seq<u8>>,
    q: int,
    f: Frame,
    st: St,
    after: St,
    i: int,
    acc: Seq<u8>,
)
    requires
        fit_to_fold(j),
        folding(j, src, q, f, st, i, acc),
        heap_kept(st, after),
        forall|x: int|
            x < j.e.scratch || j.e.word(8) <= x < j.e.word(12) ==> #[trigger] (after.frame)(x) == (
            st.frame)(x),
    ensures
        folding(j, src, q, f, after, i, acc),
{
    let e = j.e;
    let o = j.p.ops;
    lemma_same_word(st, after, e.word(8));
    lemma_same_word(st, after, e.word(9));
    lemma_same_word(st, after, e.word(10));
    assert forall|x: int|
        x < e.scratch && (x < o.dest || o.dest + o.acc_w <= x) implies #[trigger] (after.frame)(x)
        == f(x) by {
        assert((st.frame)(x) == f(x));
    }
    assert(bytes_at(after.frame, o.dest as int, o.acc_w as int) =~= acc) by {
        assert(acc == bytes_at(st.frame, o.dest as int, o.acc_w as int));
    }
    lemma_elems(j, src, q, st, after);
}

/// One call of the step.
#[verifier::rlimit(40)]
proof fn lemma_join(
    j: Search,
    join: Join,
    s: Sel,
    src: Seq<Seq<u8>>,
    q: int,
    f: Frame,
    st: St,
    i: int,
    acc: Seq<u8>,
) -> (after: St)
    requires
        fit_to_fold(j),
        joins(j, join),
        carries(j.r, j.hs, s.loop_step(j.e, j.p)),
        folding(j, src, q, f, st, i, acc),
        0 <= i < src.len(),
    ensures
        j.r.goes(s.ops.len() as int, st, s.loop_step(j.e, j.p).ops.len() as int, after),
        folding(j, src, q, f, after, i, acc),
        bytes_at(after.frame, j.answer() as int, j.p.ops.acc_w as int) == join(acc, src[i]),
{
    broadcast use {crate::owning::lemma_carries, adds_mv, adds_elem_load, adds_retain_value,
        adds_call_fn, adds_call_ptr};

    let e = j.e;
    let r = j.r;
    let o = j.p.ops;
    let sh = j.p.shape;
    let pc = s.ops.len() as int;
    let end = s.loop_step(e, j.p);
    let at = acc_at(j);
    // The selections on the way.
    let passes = sh.env_w > 0 || e.sw.copy_env;
    let s1 = if passes {
        s.mv(j.env(), (o.fslot + 8) as u64, 8)
    } else {
        s
    };
    let s2 = match o.ctx {
        Some(c) => s1.mv(j.ctx_at(), c.0 as u64, c.1),
        None => s1,
    };
    let s3 = match o.ctx {
        Some(c) => match c.2 {
            Some(t) => s2.retain_value(e, t, j.ctx_at()),
            None => s2,
        },
        None => s2,
    };
    let sa = s3.mv(at, o.dest as u64, o.acc_w);
    let s4 = sa.elem_load(e, j.to(), e.word(10), e.word(8), o.si as u64, o.elem_w as u64);
    let s5 = match o.elem_counted {
        Some(t) => s4.retain_value(e, t, j.to()),
        None => s4,
    };
    let call = j.call();
    let s6 = s5.add(call);
    assert(end == s6);
    assert(carries(r, j.hs, s6));
    assert(adds(s5, s6));
    assert(carries(r, j.hs, s5) && carries(r, j.hs, s4) && carries(r, j.hs, sa) && carries(
        r,
        j.hs,
        s3,
    ) && carries(r, j.hs, s2) && carries(r, j.hs, s1));
    // The environment.
    let st1 = if passes {
        r.lemma_mv(s, j.env(), (o.fslot + 8) as u64, 8, st);
        st.moved(j.env(), (o.fslot + 8) as u64, 8)
    } else {
        r.lemma_stays(pc, st);
        st
    };
    lemma_folding(j, src, q, f, st, st1, i, acc);
    assert(passes ==> st1.at(j.env()) == st1.at((o.fslot + 8) as u64)) by {
        broadcast use {word_of_copied, word_beside_copied};

    }
    // The context.
    let st2 = match o.ctx {
        Some(c) => {
            r.lemma_mv(s1, j.ctx_at(), c.0 as u64, c.1, st1);
            st1.moved(j.ctx_at(), c.0 as u64, c.1)
        },
        None => {
            r.lemma_stays(s1.ops.len() as int, st1);
            st1
        },
    };
    lemma_folding(j, src, q, f, st1, st2, i, acc);
    r.lemma_on(pc, st, s1.ops.len() as int, st1, s2.ops.len() as int, st2);
    let st3 = match o.ctx {
        Some(c) => match c.2 {
            Some(t) => lemma_retain_there(j, s2, t, j.ctx_at(), st2),
            None => {
                r.lemma_stays(s2.ops.len() as int, st2);
                st2
            },
        },
        None => {
            r.lemma_stays(s2.ops.len() as int, st2);
            st2
        },
    };
    lemma_folding(j, src, q, f, st2, st3, i, acc);
    r.lemma_on(pc, st, s2.ops.len() as int, st2, s3.ops.len() as int, st3);
    // What there is so far.
    r.lemma_mv(s3, at, o.dest as u64, o.acc_w, st3);
    let sta = st3.moved(at, o.dest as u64, o.acc_w);
    lemma_folding(j, src, q, f, st3, sta, i, acc);
    r.lemma_on(pc, st, s3.ops.len() as int, st3, sa.ops.len() as int, sta);
    assert(bytes_at(sta.frame, at as int, o.acc_w as int) =~= acc) by {
        assert(acc == bytes_at(st3.frame, o.dest as int, o.acc_w as int));
    }
    // The element.
    r.lemma_elem_load(sa, e, j.to(), e.word(10), e.word(8), o.si as u64, o.elem_w as u64, sta);
    let b = copy_of(sta, e.word(10), e.word(8), o.si as u64, o.elem_w as u64);
    let st4 = if o.elem_w < 8 {
        loaded_word(sta, j.to(), b)
    } else {
        loaded(sta, j.to(), b)
    };
    lemma_folding(j, src, q, f, sta, st4, i, acc);
    r.lemma_on(pc, st, sa.ops.len() as int, sta, s4.ops.len() as int, st4);
    assert(bytes_at(st4.frame, j.to() as int, o.elem_w as int) == src[i]) by {
        assert(j.elem(sta, q, i) == src[i]);
        reveal(item);
        assert(bytes_at(st4.frame, j.to() as int, o.elem_w as int) =~= bytes_at(
            sta.heap,
            q + i * (o.si as int),
            o.elem_w as int,
        ));
    }
    let st5 = match o.elem_counted {
        Some(t) => lemma_retain_there(j, s4, t, j.to(), st4),
        None => {
            r.lemma_stays(s4.ops.len() as int, st4);
            st4
        },
    };
    lemma_folding(j, src, q, f, st4, st5, i, acc);
    r.lemma_on(pc, st, s4.ops.len() as int, st4, s5.ops.len() as int, st5);
    assert(bytes_at(st5.frame, j.to() as int, o.elem_w as int) =~= bytes_at(
        st4.frame,
        j.to() as int,
        o.elem_w as int,
    ));
    assert(bytes_at(st5.frame, at as int, o.acc_w as int) =~= bytes_at(
        sta.frame,
        at as int,
        o.acc_w as int,
    ));
    assert(j.handed(st5)) by {
        if passes {
            lemma_same_word(st1, st5, j.env());
            lemma_same_word(st1, st5, (o.fslot + 8) as u64);
        }
        if o.ctx is Some {
            let c = o.ctx->0;
            assert(bytes_at(st5.frame, j.ctx_at() as int, c.1 as int) =~= bytes_at(
                st5.frame,
                c.0 as int,
                c.1 as int,
            ));
        }
    }
    // The call.
    reveal_with_fuel(hole, 6);
    r.lemma_add(s5, call, st5);
    let st6 = (r.m.does)(call, st5);
    lemma_folding(j, src, q, f, st5, st6, i, acc);
    r.lemma_on(pc, st, s5.ops.len() as int, st5, s6.ops.len() as int, st6);
    st6
}

/// The selections along a fold.
struct Steps {
    pub s0: Sel,
    pub s1: Sel,
    pub s2: Sel,
    pub s3: Sel,
    pub s4: Sel,
    pub s5: Sel,
    pub s6: Sel,
    pub s7: Sel,
    pub body: usize,
    pub done: usize,
}

spec fn steps_at(j: Search, s: Sel) -> Steps {
    let e = j.e;
    let p = j.p;
    let s0 = s.loop_open(e, p);
    let body = s0.next();
    let done = s0.fresh().next();
    let s1 = s0.fresh().fresh();
    let s2 = s1.br_lt(e, e.word(8), e.word(9), V::Fall, V::Blk(done), H::T);
    let s3 = s2.place(body);
    let s4 = s3.loop_step(e, p);
    let s5 = s4.loop_answer(e, p.kind, p.ops, p.shape);
    let s6 = s5.loop_next(e, body, j.env());
    let s7 = s6.place(done);
    Steps { s0, s1, s2, s3, s4, s5, s6, s7, body, done }
}

spec fn steps_there(j: Search, p: Steps) -> bool {
    let r = j.r;
    let hs = j.hs;
    &&& carries(r, hs, p.s0)
    &&& carries(r, hs, p.s1)
    &&& carries(r, hs, p.s2)
    &&& carries(r, hs, p.s3)
    &&& carries(r, hs, p.s4)
    &&& carries(r, hs, p.s5)
    &&& carries(r, hs, p.s6)
    &&& carries(r, hs, p.s7)
}

proof fn lemma_steps_there(j: Search, s: Sel)
    requires
        j.p.kind == Step::Fold,
        carries(j.r, j.hs, s.list_loop(j.e, j.p)),
    ensures
        s.list_loop(j.e, j.p).ops == steps_at(j, s).s7.ops,
        steps_there(j, steps_at(j, s)),
{
    broadcast use {crate::owning::lemma_carries, adds_place, adds_br_lt, adds_loop_step,
        adds_loop_answer, adds_loop_next, adds_fresh, adds_self};

    reveal(Sel::list_loop);
    let p = steps_at(j, s);
    let end = s.list_loop(j.e, j.p);
    assert(end.ops == p.s7.ops && end.helpers == p.s7.helpers);
    assert(carries(j.r, j.hs, p.s7));
}

/// What is at the destination, as a state that a search can be in.
proof fn lemma_on_from(
    j: Search,
    s: Sel,
    src: Seq<Seq<u8>>,
    q: int,
    f: Frame,
    body: usize,
    st: St,
    i: int,
    acc: Seq<u8>,
) -> (after: St)
    requires
        fit_to_fold(j),
        j.r.has(s.loop_next(j.e, body, j.env())),
        folding(j, src, q, f, st, i, acc),
        0 <= i < src.len(),
    ensures
        j.r.goes(
            s.ops.len() as int,
            st,
            if i + 1 < src.len() {
                (j.r.at)(body)
            } else {
                s.loop_next(j.e, body, j.env()).ops.len() as int
            },
            after,
        ),
        folding(j, src, q, f, after, i + 1, acc),
{
    let o = j.p.ops;
    assert(looking(j, src, q, st.frame, st, i));
    let after = lemma_next(j, s, src, q, st.frame, body, st, i);
    assert(bytes_at(after.frame, o.dest as int, o.acc_w as int) =~= acc) by {
        assert(acc == bytes_at(st.frame, o.dest as int, o.acc_w as int));
    }
    assert forall|x: int|
        x < j.e.scratch && (x < o.dest || o.dest + o.acc_w <= x) implies #[trigger] (after.frame)(x)
        == f(x) by {
        assert((st.frame)(x) == f(x));
    }
    after
}

/// A fold from one of its elements to its end.
proof fn lemma_fold(
    j: Search,
    join: Join,
    s: Sel,
    src: Seq<Seq<u8>>,
    q: int,
    f: Frame,
    st: St,
    i: int,
    init: Seq<u8>,
) -> (after: St)
    requires
        fit_to_fold(j),
        joins(j, join),
        steps_there(j, steps_at(j, s)),
        folding(j, src, q, f, st, i, folded(join, init, src, i)),
        0 <= i < src.len(),
    ensures
        j.r.goes(
            steps_at(j, s).s2.ops.len() as int,
            st,
            steps_at(j, s).s7.ops.len() as int,
            after,
        ),
        folding(j, src, q, f, after, src.len() as int, folded(join, init, src, src.len() as int)),
    decreases src.len() - i,
{
    let e = j.e;
    let r = j.r;
    let o = j.p.ops;
    let p = steps_at(j, s);
    let pc = p.s2.ops.len() as int;
    let end = p.s7.ops.len() as int;
    let acc = folded(join, init, src, i);
    let next = folded(join, init, src, i + 1);
    r.lemma_place(p.s2, p.body, st);
    r.lemma_place(p.s6, p.done, st);
    let st1 = lemma_join(j, join, p.s3, src, q, f, st, i, acc);
    r.lemma_on(pc, st, p.s3.ops.len() as int, st, p.s4.ops.len() as int, st1);
    assert(p.s5 == p.s4.mv(o.dest as u64, j.answer(), o.acc_w));
    r.lemma_mv(p.s4, o.dest as u64, j.answer(), o.acc_w, st1);
    let st2 = st1.moved(o.dest as u64, j.answer(), o.acc_w);
    r.lemma_on(pc, st, p.s4.ops.len() as int, st1, p.s5.ops.len() as int, st2);
    lemma_replaced(j, src, q, f, st1, i, acc, next);
    let st3 = lemma_on_from(j, p.s5, src, q, f, p.body, st2, i, next);
    if i + 1 < src.len() {
        r.lemma_on(pc, st, p.s5.ops.len() as int, st2, pc, st3);
        let after = lemma_fold(j, join, s, src, q, f, st3, i + 1, init);
        r.lemma_on(pc, st, pc, st3, end, after);
        after
    } else {
        r.lemma_on(pc, st, p.s5.ops.len() as int, st2, p.s6.ops.len() as int, st3);
        r.lemma_place(p.s6, p.done, st3);
        r.lemma_on(pc, st, p.s6.ops.len() as int, st3, end, st3);
        st3
    }
}

/// The answer takes the place of what there was.
proof fn lemma_replaced(
    j: Search,
    src: Seq<Seq<u8>>,
    q: int,
    f: Frame,
    st: St,
    i: int,
    acc: Seq<u8>,
    next: Seq<u8>,
)
    requires
        fit_to_fold(j),
        folding(j, src, q, f, st, i, acc),
        bytes_at(st.frame, j.answer() as int, j.p.ops.acc_w as int) == next,
    ensures
        folding(
            j,
            src,
            q,
            f,
            st.moved(j.p.ops.dest as u64, j.answer(), j.p.ops.acc_w),
            i,
            next,
        ),
{
    broadcast use word_beside_copied;

    let o = j.p.ops;
    let after = st.moved(o.dest as u64, j.answer(), o.acc_w);
    assert(bytes_at(after.frame, o.dest as int, o.acc_w as int) =~= bytes_at(
        st.frame,
        j.answer() as int,
        o.acc_w as int,
    ));
    assert forall|x: int|
        x < j.e.scratch && (x < o.dest || o.dest + o.acc_w <= x) implies #[trigger] (after.frame)(x)
        == f(x) by {
        assert((st.frame)(x) == f(x));
    }
    assert forall|k: int| 0 <= k < src.len() implies #[trigger] j.elem(after, q, k) == src[k] by {
        assert(j.elem(st, q, k) == src[k]);
    }
}

/// The start of a fold retained where it is.
proof fn lemma_retain_low(j: Search, s: Sel, ty: usize, st: St) -> (after: St)
    requires
        fit_to_fold(j),
        j.p.ops.acc_counted == Some(ty),
        carries(j.r, j.hs, s.retain_value(j.e, ty, j.p.ops.dest as u64)),
    ensures
        j.r.goes(
            s.ops.len() as int,
            st,
            s.retain_value(j.e, ty, j.p.ops.dest as u64).ops.len() as int,
            after,
        ),
        after == (St { frame: after.frame, log: after.log, ..st }),
        forall|x: int| not_spare(j.e, x) ==> #[trigger] (after.frame)(x) == (st.frame)(x),
{
    if j.e.sw.no_counts {
        j.r.lemma_stays(s.ops.len() as int, st);
        st
    } else {
        let after = a_walk_counts_each_owned_block_once(
            j.r,
            j.e,
            j.hs,
            j.base,
            s,
            ty,
            j.p.ops.dest as u64,
            true,
            j.deep,
            j.e.scratch as int,
            st,
        );
        assert forall|x: int| not_spare(j.e, x) implies #[trigger] (after.frame)(x) == (st.frame)(
            x,
        ) by {
            assert((st.frame)(x) == (after.frame)(x));
        }
        after
    }
}

/// A fold leaves what the step makes of its start and of every element in turn, first to last.
pub proof fn a_fold_joins_every_element_in_turn(j: Search, join: Join, s: Sel, st: St) -> (after: St)
    requires
        fit_to_fold(j),
        joins(j, join),
        carries(j.r, j.hs, s.list_loop(j.e, j.p)),
        list_in_use(j, st),
    ensures
        j.r.goes(s.ops.len() as int, st, s.list_loop(j.e, j.p).ops.len() as int, after),
        bytes_at(after.frame, j.p.ops.dest as int, j.p.ops.acc_w as int) == folded(
            join,
            bytes_at(st.frame, j.p.ops.init->0 as int, j.p.ops.acc_w as int),
            searched(j, st),
            searched(j, st).len() as int,
        ),
        forall|x: int|
            x < j.e.scratch && (x < j.p.ops.dest || j.p.ops.dest + j.p.ops.acc_w <= x)
                ==> #[trigger] (after.frame)(x) == (st.frame)(x),
{
    broadcast use {crate::owning::lemma_carries, adds_mv, adds_imm_to, adds_retain_value,
        word_of_put, word_beside_put, byte_beside_put, word_of_copied, word_beside_copied};

    let e = j.e;
    let r = j.r;
    let o = j.p.ops;
    let xs = o.xs as u64;
    let d = o.dest as u64;
    let from = o.init->0 as u64;
    lemma_steps_there(j, s);
    let p = steps_at(j, s);
    let pc = s.ops.len() as int;
    let end = p.s7.ops.len() as int;
    let t1 = s.mv(e.word(10), xs, 8);
    let t2 = t1.mv(e.word(9), (xs + 8) as u64, 8);
    let t3 = t2.mv(d, from, o.acc_w);
    let t4 = match o.acc_counted {
        Some(t) => t3.retain_value(e, t, d),
        None => t3,
    };
    let t5 = t4.imm_to(e.word(8), 0);
    assert(p.s0 == t5);
    assert(carries(r, j.hs, t5));
    assert(carries(r, j.hs, t4) && carries(r, j.hs, t3) && carries(r, j.hs, t2) && carries(
        r,
        j.hs,
        t1,
    ));
    let q = st.at(xs) as int;
    let src = searched(j, st);
    let init = bytes_at(st.frame, from as int, o.acc_w as int);
    let st1 = st.moved(e.word(10), xs, 8);
    let st2 = st1.moved(e.word(9), (xs + 8) as u64, 8);
    let st3 = st2.moved(d, from, o.acc_w);
    r.lemma_mv(s, e.word(10), xs, 8, st);
    r.lemma_mv(t1, e.word(9), (xs + 8) as u64, 8, st1);
    r.lemma_mv(t2, d, from, o.acc_w, st2);
    r.lemma_on(pc, st, t1.ops.len() as int, st1, t2.ops.len() as int, st2);
    r.lemma_on(pc, st, t2.ops.len() as int, st2, t3.ops.len() as int, st3);
    let st4 = match o.acc_counted {
        Some(t) => lemma_retain_low(j, t3, t, st3),
        None => {
            r.lemma_stays(t3.ops.len() as int, st3);
            st3
        },
    };
    r.lemma_on(pc, st, t3.ops.len() as int, st3, t4.ops.len() as int, st4);
    r.lemma_imm(t4, e.word(8), 0, st4);
    let st5 = st4.with(e.word(8), 0);
    r.lemma_on(pc, st, t4.ops.len() as int, st4, t5.ops.len() as int, st5);
    assert(st3.at(e.word(10)) == q && st3.at(e.word(9)) == src.len());
    lemma_same_word(st3, st4, e.word(10));
    lemma_same_word(st3, st4, e.word(9));
    assert(st5.at(e.word(10)) == q && st5.at(e.word(9)) == src.len() && st5.at(e.word(8)) == 0);
    assert(bytes_at(st5.frame, d as int, o.acc_w as int) =~= init);
    assert forall|k: int| 0 <= k < src.len() implies #[trigger] j.elem(st5, q, k) == src[k] by {}
    assert(folding(j, src, q, st.frame, st5, 0, init));
    let st6 = r.lemma_br_lt(
        p.s1,
        e,
        e.word(8),
        e.word(9),
        V::Fall,
        V::Blk(p.done),
        H::T,
        st5,
    );
    lemma_folding(j, src, q, st.frame, st5, st6, 0, init);
    r.lemma_place(p.s6, p.done, st6);
    if src.len() == 0 {
        r.lemma_on(pc, st, p.s1.ops.len() as int, st5, p.s6.ops.len() as int, st6);
        r.lemma_on(pc, st, p.s6.ops.len() as int, st6, end, st6);
        st6
    } else {
        r.lemma_on(pc, st, p.s1.ops.len() as int, st5, p.s2.ops.len() as int, st6);
        let after = lemma_fold(j, join, s, src, q, st.frame, st6, 0, init);
        r.lemma_on(pc, st, p.s2.ops.len() as int, st6, end, after);
        after
    }
}

} // verus!
