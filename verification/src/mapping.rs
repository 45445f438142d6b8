//! What a loop that makes a list comes to: every element turned into another, or those that the step
//! keeps, in the order that they were in.

use crate::copies::Frame;
use crate::grown::{
    adds_add_imm, adds_br_lt, adds_elem_load, adds_elem_store, adds_fresh, adds_imm_to,
    adds_loop_answer, adds_loop_next, adds_loop_step, adds_mv, adds_new_elems, adds_place,
    adds_retain_value, adds_self, adds_test,
};
use crate::lists::Step;
use crate::machine::{
    arm_is_a_twin, byte_beside_put, clear, copy_of, loaded, loaded_word, made, makes_blocks, put,
    stored, word, word_beside_copied, word_beside_put, word_of_copied, word_of_put, St,
};
use crate::owning::carries;
use crate::searching::{
    lemma_ask, lemma_elems, lemma_looking, lemma_next, lemma_retain_there, lemma_same_word,
    list_in_use, looking, searched, Search,
};
use crate::select::{Sel, H, V};
use crate::sorting::{bytes_at, heap_kept, item};
use vstd::prelude::*;

verus! {

/// Whether a loop makes a list.
pub open spec fn makes(kind: Step) -> bool {
    kind == Step::MapEach || kind == Step::Filter
}

/// What a loop makes of the first `i` elements.
pub open spec fn made_of(j: Search, src: Seq<Seq<u8>>, i: int) -> Seq<Seq<u8>>
    decreases i,
{
    if i <= 0 {
        Seq::empty()
    } else if j.p.kind == Step::MapEach {
        made_of(j, src, i - 1).push((j.turn)(src[i - 1]))
    } else if (j.keep)(src[i - 1]) {
        made_of(j, src, i - 1).push(src[i - 1])
    } else {
        made_of(j, src, i - 1)
    }
}

/// The elements of a list that a loop made, whose words are at a frame offset.
pub open spec fn made_at(j: Search, st: St, at: int) -> Seq<Seq<u8>> {
    Seq::new(
        word(st.frame, at + 8) as nat,
        |i: int|
            item(
                st.heap,
                word(st.frame, at) as int,
                j.p.ops.out_stride as int,
                j.p.ops.out_w as int,
                i,
            ),
    )
}

/// What a loop that makes a list rests on beside what every loop does: an element no wider than the
/// distance of two, a list whose words are apart from those that the loop reads, and a counter of
/// its own for a filter.
pub open spec fn fit_to_make(j: Search) -> bool {
    let o = j.p.ops;
    &&& j.fit()
    &&& makes_blocks(j.r.m)
    &&& makes(j.p.kind)
    &&& 0 < o.out_w <= o.out_stride
    &&& o.dest + 16 <= j.e.scratch
    &&& clear(o.dest as int, 16, o.xs as int, 16)
    &&& clear(o.dest as int, 16, o.fslot as int, 16)
    &&& o.ctx matches Some(c) ==> clear(o.dest as int, 16, c.0 as int, c.1 as int)
    &&& j.answer() + o.out_w <= u64::MAX
    &&& j.p.kind == Step::Filter ==> o.out_w == o.elem_w && j.e.has("brcmp/lt/u64/ff"@)
}

/// Whether a block holds what was made so far.
spec fn making(j: Search, st: St, q: int, n: int, qo: int, outs: Seq<Seq<u8>>) -> bool {
    let os = j.p.ops.out_stride as int;
    &&& st.at(j.e.word(11)) == qo
    &&& j.p.kind == Step::Filter ==> st.at(j.e.word(12)) == outs.len()
    &&& forall|x: int| qo <= x < qo + n * os ==> #[trigger] (st.used)(x)
    &&& clear(q, n * (j.p.ops.si as int), qo, n * os)
    &&& forall|k: int|
        0 <= k < outs.len() ==> #[trigger] item(
            st.heap,
            qo,
            os,
            j.p.ops.out_w as int,
            k,
        ) == outs[k]
}

proof fn lemma_bytes_same(a: Frame, b: Frame, q: int, stride: int, w: int, k: int)
    requires
        0 <= w,
        ({
            let at = q + k * stride;
            forall|x: int| at <= x < at + w ==> #[trigger] b(x) == a(x)
        }),
    ensures
        item(b, q, stride, w, k) == item(a, q, stride, w, k),
{
    reveal(item);
    let at = q + k * stride;
    assert(bytes_at(b, at, w) =~= bytes_at(a, at, w));
}

proof fn lemma_within(k: int, n: int, stride: int)
    requires
        0 <= k < n,
        0 <= stride,
    ensures
        0 <= k * stride,
        k * stride + stride <= n * stride,
{
    assert(0 <= k * stride && k * stride + stride <= n * stride) by (nonlinear_arith)
        requires
            0 <= k < n,
            0 <= stride,
    ;
}

/// Steps that keep what is in use keep what was made.
proof fn lemma_making(j: Search, st: St, after: St, q: int, n: int, qo: int, outs: Seq<Seq<u8>>)
    requires
        fit_to_make(j),
        making(j, st, q, n, qo, outs),
        outs.len() <= n,
        heap_kept(st, after),
        forall|x: int|
            j.e.word(11) <= x < j.e.word(13) ==> #[trigger] (after.frame)(x) == (st.frame)(x),
    ensures
        making(j, after, q, n, qo, outs),
{
    let os = j.p.ops.out_stride as int;
    let w = j.p.ops.out_w as int;
    lemma_same_word(st, after, j.e.word(11));
    lemma_same_word(st, after, j.e.word(12));
    assert forall|x: int| qo <= x < qo + n * os implies #[trigger] (after.used)(x) by {
        assert((st.used)(x));
    }
    assert forall|k: int| 0 <= k < outs.len() implies #[trigger] item(after.heap, qo, os, w, k)
        == outs[k] by {
        lemma_within(k, n, os);
        assert forall|x: int| qo + k * os <= x < qo + k * os + w implies #[trigger] (after.heap)(x)
            == (st.heap)(x) by {
            assert((st.used)(x));
        }
        lemma_bytes_same(st.heap, after.heap, qo, os, w, k);
        assert(item(st.heap, qo, os, w, k) == outs[k]);
    }
}

/// One element more.
proof fn lemma_put_out(
    j: Search,
    src: Seq<Seq<u8>>,
    q: int,
    f: Frame,
    st: St,
    after: St,
    qo: int,
    outs: Seq<Seq<u8>>,
    v: Seq<u8>,
    d: u64,
    i: int,
)
    requires
        fit_to_make(j),
        looking(j, src, q, f, st, i),
        making(j, st, q, src.len() as int, qo, outs),
        outs.len() < src.len(),
        bytes_at(st.frame, d as int, j.p.ops.out_w as int) == v,
        ({
            let at = qo + outs.len() * (j.p.ops.out_stride as int);
            after == (St {
                heap: crate::machine::lifted(
                    st.heap,
                    at,
                    st.frame,
                    d as int,
                    j.p.ops.out_w as int,
                ),
                ..st
            })
        }),
    ensures
        looking(j, src, q, f, after, i),
        j.p.kind == Step::MapEach ==> making(j, after, q, src.len() as int, qo, outs.push(v)),
        forall|k: int|
            0 <= k < outs.len() + 1 ==> #[trigger] item(
                after.heap,
                qo,
                j.p.ops.out_stride as int,
                j.p.ops.out_w as int,
                k,
            ) == outs.push(v)[k],
{
    let n = src.len() as int;
    let m = outs.len() as int;
    let os = j.p.ops.out_stride as int;
    let w = j.p.ops.out_w as int;
    let si = j.p.ops.si as int;
    let at = qo + m * os;
    lemma_within(m, n, os);
    assert forall|k: int| 0 <= k < m + 1 implies #[trigger] item(after.heap, qo, os, w, k)
        == outs.push(v)[k] by {
        if k == m {
            reveal(item);
            assert(bytes_at(after.heap, at, w) =~= bytes_at(st.frame, d as int, w));
        } else {
            assert(k * os + os <= m * os) by (nonlinear_arith)
                requires
                    0 <= k < m,
                    0 <= os,
            ;
            lemma_bytes_same(st.heap, after.heap, qo, os, w, k);
            assert(item(st.heap, qo, os, w, k) == outs[k]);
        }
    }
    assert forall|k: int| 0 <= k < n implies #[trigger] j.elem(after, q, k) == src[k] by {
        lemma_within(k, n, si);
        lemma_bytes_same(st.heap, after.heap, q, si, j.p.ops.elem_w as int, k);
        assert(j.elem(st, q, k) == src[k]);
    }
}

/// The answer of the step put to use.
proof fn lemma_use(
    j: Search,
    s: Sel,
    src: Seq<Seq<u8>>,
    q: int,
    f: Frame,
    st: St,
    qo: int,
    i: int,
) -> (after: St)
    requires
        fit_to_make(j),
        carries(j.r, j.hs, s.loop_answer(j.e, j.p.kind, j.p.ops, j.p.shape)),
        looking(j, src, q, f, st, i),
        making(j, st, q, src.len() as int, qo, made_of(j, src, i)),
        0 <= i < src.len(),
        j.p.kind != Step::MapEach ==> st.at(j.answer()) == if (j.keep)(src[i]) {
            1u64
        } else {
            0
        },
        j.p.kind == Step::MapEach ==> bytes_at(
            st.frame,
            j.answer() as int,
            j.p.ops.out_w as int,
        ) == (j.turn)(src[i]),
    ensures
        j.r.goes(
            s.ops.len() as int,
            st,
            s.loop_answer(j.e, j.p.kind, j.p.ops, j.p.shape).ops.len() as int,
            after,
        ),
        looking(j, src, q, f, after, i),
        making(j, after, q, src.len() as int, qo, made_of(j, src, i + 1)),
        forall|x: int| x < j.e.scratch ==> #[trigger] (after.frame)(x) == (st.frame)(x),
{
    broadcast use {crate::owning::lemma_carries, adds_elem_load, adds_elem_store, adds_place,
        adds_retain_value, adds_add_imm, adds_test, arm_is_a_twin};

    let e = j.e;
    let r = j.r;
    let o = j.p.ops;
    let n = src.len() as int;
    let outs = made_of(j, src, i);
    let m = outs.len() as int;
    lemma_made_of(j, src, i);
    let pc = s.ops.len() as int;
    let end = s.loop_answer(e, j.p.kind, o, j.p.shape);
    let os = o.out_stride as u64;
    let w = o.out_w as u64;
    if j.p.kind == Step::MapEach {
        assert(end == s.elem_store(e, j.answer(), e.word(11), e.word(8), os, w));
        r.lemma_elem_store(s, e, j.answer(), e.word(11), e.word(8), os, w, st);
        let after = stored(st, j.answer(), copy_of(st, e.word(11), e.word(8), os, w));
        lemma_put_out(j, src, q, f, st, after, qo, outs, (j.turn)(src[i]), j.answer(), i);
        after
    } else {
        let skip = s.next();
        let br = e.arm("br/f"@, H::T);
        let to = j.to();
        let s0 = s.fresh();
        let s1 = s0.test(br, j.answer(), V::Fall, V::Blk(skip));
        let s2 = s1.elem_load(e, to, e.word(10), e.word(8), o.si as u64, o.elem_w as u64);
        let s3 = s2.elem_store(e, to, e.word(11), e.word(12), os, w);
        let s4 = match o.elem_counted {
            Some(t) => s3.retain_value(e, t, to),
            None => s3,
        };
        let s5 = s4.add_imm(e, e.word(12), e.word(12), 1, j.env());
        let s6 = s5.place(skip);
        assert(end == s6);
        assert(carries(r, j.hs, s6));
        assert(carries(r, j.hs, s5) && carries(r, j.hs, s4) && carries(r, j.hs, s3) && carries(
            r,
            j.hs,
            s2,
        ) && carries(r, j.hs, s1));
        r.lemma_place(s5, skip, st);
        r.lemma_test(s0, br, j.answer(), V::Fall, V::Blk(skip), st);
        if !(j.keep)(src[i]) {
            r.lemma_on(pc, st, s5.ops.len() as int, st, s6.ops.len() as int, st);
            st
        } else {
            // The element again.
            r.lemma_elem_load(s1, e, to, e.word(10), e.word(8), o.si as u64, o.elem_w as u64, st);
            let b = copy_of(st, e.word(10), e.word(8), o.si as u64, o.elem_w as u64);
            let st2 = if o.elem_w < 8 {
                loaded_word(st, to, b)
            } else {
                loaded(st, to, b)
            };
            lemma_looking(j, src, q, f, st, st2, i);
            lemma_making(j, st, st2, q, n, qo, outs);
            assert(bytes_at(st2.frame, to as int, o.elem_w as int) == src[i]) by {
                assert(j.elem(st, q, i) == src[i]);
                reveal(item);
                assert(bytes_at(st2.frame, to as int, o.elem_w as int) =~= bytes_at(
                    st.heap,
                    q + i * (o.si as int),
                    o.elem_w as int,
                ));
            }
            r.lemma_on(pc, st, s1.ops.len() as int, st, s2.ops.len() as int, st2);
            // Into the list.
            r.lemma_elem_store(s2, e, to, e.word(11), e.word(12), os, w, st2);
            let st3 = stored(st2, to, copy_of(st2, e.word(11), e.word(12), os, w));
            lemma_put_out(j, src, q, f, st2, st3, qo, outs, src[i], to, i);
            r.lemma_on(pc, st, s2.ops.len() as int, st2, s3.ops.len() as int, st3);
            let more = outs.push(src[i]);
            // Retained there.
            let st4 = match o.elem_counted {
                Some(t) => lemma_retain_there(j, s3, t, to, st3),
                None => {
                    r.lemma_stays(s3.ops.len() as int, st3);
                    st3
                },
            };
            lemma_looking(j, src, q, f, st3, st4, i);
            r.lemma_on(pc, st, s3.ops.len() as int, st3, s4.ops.len() as int, st4);
            lemma_same_word(st3, st4, e.word(12));
            lemma_same_word(st3, st4, e.word(11));
            assert(st3.at(e.word(12)) == m && st3.at(e.word(11)) == qo);
            // One more.
            let st5 = r.lemma_add_imm(s4, e, e.word(12), e.word(12), 1, j.env(), st4);
            lemma_looking(j, src, q, f, st4, st5, i);
            lemma_same_word(st4, st5, e.word(11));
            r.lemma_on(pc, st, s4.ops.len() as int, st4, s5.ops.len() as int, st5);
            r.lemma_place(s5, skip, st5);
            r.lemma_on(pc, st, s5.ops.len() as int, st5, s6.ops.len() as int, st5);
            assert(st5.heap == st3.heap && st5.used == st2.used && st2.used == st.used);
            assert(making(j, st5, q, n, qo, more));
            st5
        }
    }
}

proof fn lemma_made_of(j: Search, src: Seq<Seq<u8>>, i: int)
    requires
        0 <= i,
    ensures
        made_of(j, src, i).len() <= i,
        j.p.kind == Step::MapEach ==> made_of(j, src, i).len() == i,
    decreases i,
{
    if i > 0 {
        lemma_made_of(j, src, i - 1);
    }
}

/// The selections along the loop.
struct Stops {
    pub s0: Sel,
    pub s1: Sel,
    pub s2: Sel,
    pub s3: Sel,
    pub s4: Sel,
    pub s5: Sel,
    pub s6: Sel,
    pub s7: Sel,
    pub s8: Sel,
    pub s9: Sel,
    pub body: usize,
    pub done: usize,
}

spec fn stops_at(j: Search, s: Sel) -> Stops {
    let e = j.e;
    let p = j.p;
    let s0 = s.loop_open(e, p);
    let body = s0.next();
    let done = s0.fresh().next();
    let s1 = s0.fresh().fresh();
    let s2 = s1.br_lt(e, e.word(8), e.word(9), V::Fall, V::Blk(done), H::T);
    let s3 = s2.place(body);
    let s4 = s3.loop_step(e, p);
    let s5 = s4.loop_answer(e, p.kind, p.ops, p.shape);
    let s6 = s5.loop_next(e, body, j.env());
    let s7 = s6.place(done);
    let s8 = if p.kind == Step::Filter {
        s7.mv(p.ops.dest as u64, e.word(11), 8)
    } else {
        s7
    };
    let s9 = if p.kind == Step::Filter {
        s8.mv((p.ops.dest + 8) as u64, e.word(12), 8)
    } else {
        s8
    };
    Stops { s0, s1, s2, s3, s4, s5, s6, s7, s8, s9, body, done }
}

spec fn stops_there(j: Search, p: Stops) -> bool {
    let r = j.r;
    let hs = j.hs;
    &&& carries(r, hs, p.s0)
    &&& carries(r, hs, p.s1)
    &&& carries(r, hs, p.s2)
    &&& carries(r, hs, p.s3)
    &&& carries(r, hs, p.s4)
    &&& carries(r, hs, p.s5)
    &&& carries(r, hs, p.s6)
    &&& carries(r, hs, p.s7)
    &&& carries(r, hs, p.s8)
    &&& carries(r, hs, p.s9)
}

proof fn lemma_stops_there(j: Search, s: Sel)
    requires
        makes(j.p.kind),
        carries(j.r, j.hs, s.list_loop(j.e, j.p)),
    ensures
        s.list_loop(j.e, j.p).ops == stops_at(j, s).s9.ops,
        stops_there(j, stops_at(j, s)),
{
    broadcast use {crate::owning::lemma_carries, adds_place, adds_br_lt, adds_loop_step,
        adds_loop_answer, adds_loop_next, adds_fresh, adds_mv, adds_self};

    reveal(Sel::list_loop);
    let p = stops_at(j, s);
    let end = s.list_loop(j.e, j.p);
    assert(end.ops == p.s9.ops && end.helpers == p.s9.helpers);
    assert(carries(j.r, j.hs, p.s9));
}

/// The loop from one of its elements to the end of its list.
proof fn lemma_make(
    j: Search,
    s: Sel,
    src: Seq<Seq<u8>>,
    q: int,
    f: Frame,
    st: St,
    qo: int,
    i: int,
) -> (after: St)
    requires
        fit_to_make(j),
        stops_there(j, stops_at(j, s)),
        looking(j, src, q, f, st, i),
        making(j, st, q, src.len() as int, qo, made_of(j, src, i)),
        0 <= i < src.len(),
    ensures
        j.r.goes(
            stops_at(j, s).s2.ops.len() as int,
            st,
            stops_at(j, s).s7.ops.len() as int,
            after,
        ),
        looking(j, src, q, f, after, src.len() as int),
        making(j, after, q, src.len() as int, qo, made_of(j, src, src.len() as int)),
        forall|x: int| x < j.e.scratch ==> #[trigger] (after.frame)(x) == (st.frame)(x),
    decreases src.len() - i,
{
    let e = j.e;
    let r = j.r;
    let p = stops_at(j, s);
    let n = src.len() as int;
    let pc = p.s2.ops.len() as int;
    let end = p.s7.ops.len() as int;
    lemma_made_of(j, src, i);
    lemma_made_of(j, src, i + 1);
    r.lemma_place(p.s2, p.body, st);
    r.lemma_place(p.s6, p.done, st);
    let st1 = lemma_ask(j, p.s3, src, q, f, st, i);
    lemma_making(j, st, st1, q, n, qo, made_of(j, src, i));
    r.lemma_on(pc, st, p.s3.ops.len() as int, st, p.s4.ops.len() as int, st1);
    let st2 = lemma_use(j, p.s4, src, q, f, st1, qo, i);
    r.lemma_on(pc, st, p.s4.ops.len() as int, st1, p.s5.ops.len() as int, st2);
    let st3 = lemma_next(j, p.s5, src, q, f, p.body, st2, i);
    lemma_on_to_next(j, st2, st3, q, n, qo, made_of(j, src, i + 1));
    if i + 1 < n {
        r.lemma_on(pc, st, p.s5.ops.len() as int, st2, pc, st3);
        let after = lemma_make(j, s, src, q, f, st3, qo, i + 1);
        r.lemma_on(pc, st, pc, st3, end, after);
        after
    } else {
        r.lemma_on(pc, st, p.s5.ops.len() as int, st2, p.s6.ops.len() as int, st3);
        r.lemma_place(p.s6, p.done, st3);
        r.lemma_on(pc, st, p.s6.ops.len() as int, st3, end, st3);
        st3
    }
}

/// Going on to the next element keeps what was made.
proof fn lemma_on_to_next(j: Search, st: St, after: St, q: int, n: int, qo: int, outs: Seq<Seq<u8>>)
    requires
        fit_to_make(j),
        making(j, st, q, n, qo, outs),
        after == (St { frame: after.frame, ..st }),
        forall|x: int|
            x < j.e.word(12) && (x < j.e.word(8) || j.e.word(9) <= x) ==> #[trigger] (after.frame)(
                x,
            ) == (st.frame)(x),
        j.e.has("brcmp/lt/u64/ff"@) ==> forall|x: int|
            j.e.word(12) <= x < j.e.word(13) ==> #[trigger] (after.frame)(x) == (st.frame)(x),
    ensures
        making(j, after, q, n, qo, outs),
{
    lemma_same_word(st, after, j.e.word(11));
    if j.p.kind == Step::Filter {
        lemma_same_word(st, after, j.e.word(12));
    }
}

/// What a loop makes is what mapping or filtering a sequence gives.
proof fn lemma_made_is(j: Search, src: Seq<Seq<u8>>, i: int)
    requires
        makes(j.p.kind),
        0 <= i <= src.len(),
    ensures
        made_of(j, src, i) == if j.p.kind == Step::MapEach {
            Seq::new(i as nat, |k: int| (j.turn)(src[k]))
        } else {
            src.subrange(0, i).filter(j.keep)
        },
    decreases i,
{
    reveal(Seq::filter);
    if i > 0 {
        lemma_made_is(j, src, i - 1);
        assert(src.subrange(0, i).drop_last() =~= src.subrange(0, i - 1));
        assert(src.subrange(0, i).last() == src[i - 1]);
        if j.p.kind == Step::MapEach {
            assert(made_of(j, src, i) =~= Seq::new(i as nat, |k: int| (j.turn)(src[k])));
        }
    } else {
        assert(made_of(j, src, 0) =~= Seq::new(0, |k: int| (j.turn)(src[k])));
        assert(src.subrange(0, 0) =~= Seq::empty());
    }
}

/// What a loop starts from: its words and the block for what it makes.
proof fn lemma_opened(j: Search, s: Sel, st: St) -> (r: (St, int))
    requires
        fit_to_make(j),
        carries(j.r, j.hs, s.loop_open(j.e, j.p)),
        list_in_use(j, st),
    ensures
        j.r.stops(s.ops.len() as int, st) || ({
            let src = searched(j, st);
            let after = r.0;
            &&& j.r.goes(s.ops.len() as int, st, s.loop_open(j.e, j.p).ops.len() as int, after)
            &&& looking(j, src, st.at(j.p.ops.xs as u64) as int, after.frame, after, 0)
            &&& making(
                j,
                after,
                st.at(j.p.ops.xs as u64) as int,
                src.len() as int,
                r.1,
                Seq::empty(),
            )
            &&& j.p.kind == Step::MapEach ==> after.at(j.p.ops.dest as u64) == r.1 && after.at(
                (j.p.ops.dest + 8) as u64,
            ) == src.len()
            &&& forall|x: int|
                x < j.e.scratch && (x < j.p.ops.dest || j.p.ops.dest + 16 <= x) ==> #[trigger] (
                after.frame)(x) == (st.frame)(x)
        }),
{
    broadcast use {crate::owning::lemma_carries, adds_mv, adds_imm_to, adds_new_elems, word_of_put,
        word_beside_put, byte_beside_put, word_of_copied, word_beside_copied};

    let e = j.e;
    let r = j.r;
    let o = j.p.ops;
    let xs = o.xs as u64;
    let d = o.dest as u64;
    let os = o.out_stride as u64;
    let pc = s.ops.len() as int;
    let t1 = s.mv(e.word(10), xs, 8);
    let t2 = t1.mv(e.word(9), (xs + 8) as u64, 8);
    let t3 = t2.new_elems(e.word(11), e.word(9), os);
    let map = j.p.kind == Step::MapEach;
    let t4 = if map {
        t3.mv(d, e.word(11), 8)
    } else {
        t3
    };
    let t5 = if map {
        t4.mv((d + 8) as u64, e.word(9), 8)
    } else {
        t4.imm_to(e.word(12), 0)
    };
    let t6 = t5.imm_to(e.word(8), 0);
    assert(s.loop_open(e, j.p) == t6);
    assert(carries(r, j.hs, t6));
    assert(carries(r, j.hs, t5) && carries(r, j.hs, t4) && carries(r, j.hs, t3) && carries(
        r,
        j.hs,
        t2,
    ) && carries(r, j.hs, t1));
    let src = searched(j, st);
    let q = st.at(xs) as int;
    let n = src.len() as int;
    let st1 = st.moved(e.word(10), xs, 8);
    let st2 = st1.moved(e.word(9), (xs + 8) as u64, 8);
    r.lemma_mv(s, e.word(10), xs, 8, st);
    r.lemma_mv(t1, e.word(9), (xs + 8) as u64, 8, st1);
    r.lemma_on(pc, st, t1.ops.len() as int, st1, t2.ops.len() as int, st2);
    assert(st2.at(e.word(10)) == q && st2.at(e.word(9)) == n);
    let st3 = r.lemma_alloc(t2, e.word(11), e.word(9), os, st2);
    if r.stops(t2.ops.len() as int, st2) {
        r.lemma_stops(pc, st, t2.ops.len() as int, st2);
        (st, 0)
    } else {
        r.lemma_on(pc, st, t2.ops.len() as int, st2, t3.ops.len() as int, st3);
        let qo = st3.at(e.word(11)) as int;
        assert(st3.at(e.word(10)) == q && st3.at(e.word(9)) == n);
        let st4 = if map {
            r.lemma_mv(t3, d, e.word(11), 8, st3);
            st3.moved(d, e.word(11), 8)
        } else {
            r.lemma_stays(t3.ops.len() as int, st3);
            st3
        };
        assert(st4.at(e.word(10)) == q && st4.at(e.word(9)) == n && st4.at(e.word(11)) == qo);
        r.lemma_on(pc, st, t3.ops.len() as int, st3, t4.ops.len() as int, st4);
        let st5 = if map {
            r.lemma_mv(t4, (d + 8) as u64, e.word(9), 8, st4);
            st4.moved((d + 8) as u64, e.word(9), 8)
        } else {
            r.lemma_imm(t4, e.word(12), 0, st4);
            st4.with(e.word(12), 0)
        };
        assert(st5.at(e.word(10)) == q && st5.at(e.word(9)) == n && st5.at(e.word(11)) == qo);
        r.lemma_on(pc, st, t4.ops.len() as int, st4, t5.ops.len() as int, st5);
        r.lemma_imm(t5, e.word(8), 0, st5);
        let st6 = st5.with(e.word(8), 0);
        r.lemma_on(pc, st, t5.ops.len() as int, st5, t6.ops.len() as int, st6);
        assert(st6.at(e.word(10)) == q && st6.at(e.word(9)) == n && st6.at(e.word(11)) == qo
            && st6.at(e.word(8)) == 0);
        assert(map ==> st6.at(d) == qo && st6.at((d + 8) as u64) == n);
        assert(!map ==> st6.at(e.word(12)) == 0);
        let bytes = n * (o.si as int);
        let room = n * (o.out_stride as int);
        assert forall|x: int| q <= x < q + bytes implies #[trigger] (st2.used)(x) by {
            assert((st.used)(x));
        }
        assert(clear(q, bytes, qo, room)) by {
            let si = o.si as int;
            let so = o.out_stride as int;
            assert(n > 0 ==> n * si > 0 && n * so > 0) by (nonlinear_arith)
                requires
                    si > 0,
                    so > 0,
            ;
            assert(n == 0 ==> n * si == 0 && n * so == 0) by (nonlinear_arith);
            if !clear(q, bytes, qo, room) {
                let x = if q < qo {
                    qo
                } else {
                    q
                };
                assert((st2.used)(x));
                assert(!(st2.used)(x));
            }
        }
        assert forall|x: int| qo <= x < qo + room implies #[trigger] (st6.used)(x) by {
            assert((st3.used)(x));
        }
        assert forall|k: int| 0 <= k < n implies #[trigger] j.elem(st2, q, k) == src[k] by {}
        assert(heap_kept(st2, st6)) by {
            assert forall|x: int| #[trigger] (st2.used)(x) implies (st6.used)(x) && (st6.heap)(x)
                == (st2.heap)(x) by {
                assert((st3.used)(x));
            }
        }
        lemma_elems(j, src, q, st2, st6);
        (st6, qo)
    }
}

/// A loop that makes a list leaves every element of the source turned by the step, or the elements
/// that the step keeps, in the order of the source. It holds unless memory runs out.
pub proof fn a_loop_makes_the_mapped_or_the_kept(j: Search, s: Sel, st: St) -> (after: St)
    requires
        fit_to_make(j),
        carries(j.r, j.hs, s.list_loop(j.e, j.p)),
        list_in_use(j, st),
    ensures
        j.r.stops(s.ops.len() as int, st) || ({
            let src = searched(j, st);
            let out = made_at(j, after, j.p.ops.dest as int);
            &&& j.r.goes(s.ops.len() as int, st, s.list_loop(j.e, j.p).ops.len() as int, after)
            &&& j.p.kind == Step::MapEach ==> out.len() == src.len() && forall|i: int|
                0 <= i < src.len() ==> #[trigger] out[i] == (j.turn)(src[i])
            &&& j.p.kind == Step::Filter ==> out == src.filter(j.keep)
            &&& forall|x: int|
                x < j.e.scratch && (x < j.p.ops.dest || j.p.ops.dest + 16 <= x) ==> #[trigger] (
                after.frame)(x) == (st.frame)(x)
        }),
{
    let e = j.e;
    let r = j.r;
    let o = j.p.ops;
    let d = o.dest as u64;
    lemma_stops_there(j, s);
    let p = stops_at(j, s);
    let pc = s.ops.len() as int;
    let end = p.s9.ops.len() as int;
    let src = searched(j, st);
    let n = src.len() as int;
    let q = st.at(o.xs as u64) as int;
    let (st1, qo) = lemma_opened(j, s, st);
    if r.stops(pc, st) {
        st
    } else {
        let f = st1.frame;
        let st2 = r.lemma_br_lt(
            p.s1,
            e,
            e.word(8),
            e.word(9),
            V::Fall,
            V::Blk(p.done),
            H::T,
            st1,
        );
        lemma_looking(j, src, q, f, st1, st2, 0);
        lemma_same_word(st1, st2, e.word(11));
        assert(made_of(j, src, 0) =~= Seq::empty());
        assert(making(j, st2, q, n, qo, made_of(j, src, 0)));
        r.lemma_place(p.s6, p.done, st2);
        let st3 = if n == 0 {
            r.lemma_on(pc, st, p.s1.ops.len() as int, st1, p.s6.ops.len() as int, st2);
            r.lemma_on(pc, st, p.s6.ops.len() as int, st2, p.s7.ops.len() as int, st2);
            st2
        } else {
            r.lemma_on(pc, st, p.s1.ops.len() as int, st1, p.s2.ops.len() as int, st2);
            let st3 = lemma_make(j, s, src, q, f, st2, qo, 0);
            r.lemma_on(pc, st, p.s2.ops.len() as int, st2, p.s7.ops.len() as int, st3);
            st3
        };
        let outs = made_of(j, src, n);
        lemma_made_of(j, src, n);
        lemma_made_is(j, src, n);
        assert(src.subrange(0, n) =~= src);
        let after = if j.p.kind == Step::Filter {
            broadcast use {word_of_copied, word_beside_copied};

            let st4 = st3.moved(d, e.word(11), 8);
            r.lemma_mv(p.s7, d, e.word(11), 8, st3);
            r.lemma_on(pc, st, p.s7.ops.len() as int, st3, p.s8.ops.len() as int, st4);
            let st5 = st4.moved((d + 8) as u64, e.word(12), 8);
            r.lemma_mv(p.s8, (d + 8) as u64, e.word(12), 8, st4);
            r.lemma_on(pc, st, p.s8.ops.len() as int, st4, end, st5);
            assert(st4.at(e.word(12)) == outs.len());
            assert(st5.at(d) == qo && st5.at((d + 8) as u64) == outs.len());
            st5
        } else {
            lemma_same_word(st1, st3, d);
            lemma_same_word(st1, st3, (d + 8) as u64);
            st3
        };
        assert(made_at(j, after, o.dest as int) =~= outs);
        after
    }
}

} // verus!
