//! What a value put together gives back: a struct its fields, an enum its payload and its variant.

use crate::bytes::le64;
use crate::grown::{adds, adds_store_variant, adds_struct_fields};
use crate::ir::{Code, Type};
use crate::machine::{
    byte_beside_put, clear, copies_words, copy_of, hole, leads, loaded, loaded_word, made,
    makes_blocks, moves_elements, moves_fields, op_da, op_immw, put, stored, word, word_beside_put,
    word_of_put, Machine, Run, St,
};
use crate::select::{narrow, Env, Item, Sel, H, V};
use crate::text::decimal;
use crate::types::EnumRepr;
use vstd::prelude::*;

verus! {

/// A part of a value in a frame: where it is, whether it is behind a pointer there, and the slot and
/// the width of what it is made of.
pub struct Part {
    pub to: u64,
    pub boxed: bool,
    pub src: u64,
    pub w: u64,
}

impl Part {
    /// The bytes that the part takes.
    pub open spec fn size(self) -> int {
        if self.boxed {
            8
        } else {
            self.w as int
        }
    }

    /// Whether the part holds what its slot held at the start.
    pub open spec fn held(self, start: St, st: St) -> bool {
        if self.boxed {
            let q = st.at(self.to) as int;
            q != 0 && forall|k: int|
                0 <= k < self.w ==> #[trigger] (st.heap)(q + k) == (start.frame)(self.src + k)
                    && (st.used)(q + k)
        } else {
            forall|k: int|
                0 <= k < self.w ==> #[trigger] (st.frame)(self.to + k) == (start.frame)(
                    self.src + k,
                )
        }
    }

    /// Whether the part, and the slot that it is made of, are below the scratch words and apart.
    pub open spec fn placed(self, e: Env) -> bool {
        &&& self.to + self.size() <= e.scratch
        &&& self.src + self.w <= e.scratch
        &&& clear(self.to as int, self.size(), self.src as int, self.w as int)
    }
}

/// Whether a state is another but for `n` bytes at `d`, what is behind the slots, and new blocks.
pub open spec fn grew(before: St, after: St, slots: int, d: int, n: int) -> bool {
    &&& after.regs == before.regs
    &&& after.floats == before.floats
    &&& forall|x: int|
        x < slots && (x < d || d + n <= x) ==> #[trigger] (after.frame)(x) == (before.frame)(x)
    &&& forall|x: int| #[trigger]
        (before.used)(x) ==> (after.used)(x) && (after.heap)(x) == (before.heap)(x)
}

/// Whether a slot holds what another held at the start: all its bytes, and zeros above those of a
/// number narrower than a word.
pub open spec fn same_value(start: St, st: St, d: u64, src: u64, w: u64) -> bool {
    &&& forall|k: int| 0 <= k < w ==> #[trigger] (st.frame)(d + k) == (start.frame)(src + k)
    &&& narrow(w) ==> forall|k: int| w <= k < 8 ==> #[trigger] (st.frame)(d + k) == 0
}

/// Whether a machine does what building and reading a value takes.
pub open spec fn builds(m: Machine) -> bool {
    leads(m) && copies_words(m) && moves_fields(m) && moves_elements(m) && makes_blocks(m)
}

proof fn lemma_words(a: St, b: St, x: u64)
    requires
        forall|k: int| 0 <= k < 8 ==> #[trigger] (a.frame)(x + k) == (b.frame)(x + k),
    ensures
        a.at(x) == b.at(x),
{
    reveal(word);
    assert(Seq::new(8, |i: int| (a.frame)(x + i)) =~= Seq::new(8, |i: int| (b.frame)(x + i)));
}

/// A part keeps what it holds while others are written.
proof fn lemma_held(start: St, before: St, after: St, slots: int, d: int, n: int, p: Part)
    requires
        grew(before, after, slots, d, n),
        p.held(start, before),
        p.to + p.size() <= slots,
        clear(p.to as int, p.size(), d, n),
    ensures
        p.held(start, after),
{
    if p.boxed {
        lemma_words(before, after, p.to);
        let q = before.at(p.to) as int;
        assert forall|k: int| 0 <= k < p.w implies #[trigger] (after.heap)(q + k)
            == (start.frame)(p.src + k) && (after.used)(q + k) by {
            assert((before.heap)(q + k) == (start.frame)(p.src + k));
        }
    } else {
        assert forall|k: int| 0 <= k < p.w implies #[trigger] (after.frame)(p.to + k)
            == (start.frame)(p.src + k) by {
            assert((before.frame)(p.to + k) == (start.frame)(p.src + k));
        }
    }
}

/// What a part holds of one start it holds of another with the same slot.
proof fn lemma_held_from(start: St, base: St, st: St, p: Part)
    requires
        p.held(base, st),
        forall|k: int|
            0 <= k < p.w ==> #[trigger] (base.frame)(p.src + k) == (start.frame)(p.src + k),
    ensures
        p.held(start, st),
{
    if p.boxed {
        let q = st.at(p.to) as int;
        assert forall|k: int| 0 <= k < p.w implies #[trigger] (st.heap)(q + k) == (start.frame)(
            p.src + k,
        ) && (st.used)(q + k) by {
            assert((base.frame)(p.src + k) == (start.frame)(p.src + k));
        }
    } else {
        assert forall|k: int| 0 <= k < p.w implies #[trigger] (st.frame)(p.to + k)
            == (start.frame)(p.src + k) by {
            assert((base.frame)(p.src + k) == (start.frame)(p.src + k));
        }
    }
}

/// A part written.
proof fn lemma_write(r: Run, e: Env, s: Sel, p: Part, start: St, st: St) -> (after: St)
    requires
        builds(r.m),
        r.has(s.write_field(e, p.boxed, p.to, p.src, p.w)),
        p.placed(e),
        forall|k: int| 0 <= k < p.w ==> #[trigger] (st.frame)(p.src + k) == (start.frame)(p.src + k),
    ensures
        r.has(s),
        r.stops(s.ops.len() as int, st) || (r.goes(
            s.ops.len() as int,
            st,
            s.write_field(e, p.boxed, p.to, p.src, p.w).ops.len() as int,
            after,
        ) && p.held(start, after) && grew(st, after, e.scratch as int, p.to as int, p.size())),
{
    broadcast use {word_of_put, word_beside_put, byte_beside_put};

    let t = s.write_field(e, p.boxed, p.to, p.src, p.w);
    let pc = s.ops.len() as int;
    if p.boxed {
        let ptr = e.word(0);
        let one = e.word(1);
        let s1 = s.imm_to(one, 1);
        let s2 = s1.new_elems(ptr, one, p.w);
        let s3 = s2.imm_to(one, 0);
        let s4 = s3.elem_store(e, p.src, ptr, one, 8, p.w);
        let s5 = s4.mv(p.to, ptr, 8);
        assert(t == s5);
        let st1 = st.with(one, 1);
        // Each step backward gives that the one before it is there.
        r.lemma_mv(s4, p.to, ptr, 8, st);
        r.lemma_elem_store(s3, e, p.src, ptr, one, 8, p.w, st);
        r.lemma_imm(s2, one, 0, st);
        let st2 = r.lemma_alloc(s1, ptr, one, p.w, st1);
        r.lemma_imm(s, one, 1, st);
        if r.stops(s1.ops.len() as int, st1) {
            r.lemma_stops(pc, st, s1.ops.len() as int, st1);
            st
        } else {
            let q = st2.at(ptr) as int;
            let st3 = st2.with(one, 0);
            assert(st1.at(one) * p.w == p.w) by (nonlinear_arith)
                requires
                    st1.at(one) == 1,
            ;
            let b = copy_of(st3, ptr, one, 8, p.w);
            assert(st3.at(ptr) == q);
            assert(b.at == q);
            let st4 = stored(st3, p.src, b);
            let st5 = st4.moved(p.to, ptr, 8);
            r.lemma_imm(s2, one, 0, st2);
            r.lemma_elem_store(s3, e, p.src, ptr, one, 8, p.w, st3);
            r.lemma_mv(s4, p.to, ptr, 8, st4);
            r.lemma_on(pc, st, s1.ops.len() as int, st1, s2.ops.len() as int, st2);
            r.lemma_on(pc, st, s2.ops.len() as int, st2, s3.ops.len() as int, st3);
            r.lemma_on(pc, st, s3.ops.len() as int, st3, s4.ops.len() as int, st4);
            r.lemma_on(pc, st, s4.ops.len() as int, st4, s5.ops.len() as int, st5);
            assert(st5.at(p.to) == q) by {
                broadcast use crate::machine::word_of_copied;

            }
            assert forall|k: int| 0 <= k < p.w implies #[trigger] (st5.heap)(q + k)
                == (start.frame)(p.src + k) && (st5.used)(q + k) by {
                assert((st3.frame)(p.src + k) == (st.frame)(p.src + k));
                assert((st2.used)(q + k));
            }
            assert(p.held(start, st5));
            assert forall|x: int|
                x < e.scratch && (x < p.to || p.to + p.size() <= x) implies #[trigger] (
            st5.frame)(x) == (st.frame)(x) by {
                assert((st3.frame)(x) == (st.frame)(x));
            }
            assert forall|x: int| #[trigger] (st.used)(x) implies (st5.used)(x) && (st5.heap)(x)
                == (st.heap)(x) by {
                assert((st1.used)(x));
                assert((st2.used)(x));
                assert(!(q <= x < q + p.w));
                assert((st2.heap)(x) == (st1.heap)(x));
            }
            st5
        }
    } else {
        let after = st.moved(p.to, p.src, p.w);
        if narrow(p.w) {
            let o = op_da("store/"@ + decimal(p.w as nat), p.to, p.src);
            assert(t == s.add(o));
            reveal_with_fuel(hole, 5);
            r.lemma_add(s, o, st);
        } else {
            r.lemma_mv(s, p.to, p.src, p.w, st);
        }
        assert forall|k: int| 0 <= k < p.w implies #[trigger] (after.frame)(p.to + k)
            == (start.frame)(p.src + k) by {
            assert((st.frame)(p.src + k) == (start.frame)(p.src + k));
        }
        after
    }
}

/// A part read.
proof fn lemma_read(r: Run, e: Env, s: Sel, p: Part, d: u64, start: St, st: St) -> (after: St)
    requires
        builds(r.m),
        r.has(s.read_field(e, p.boxed, d, p.to, p.w)),
        p.held(start, st),
        p.to + p.size() <= e.scratch,
        d + 8 <= e.scratch,
        d + p.w <= e.scratch,
        clear(d as int, 8, p.to as int, p.size()),
        clear(d as int, p.w as int, p.to as int, p.size()),
    ensures
        r.has(s),
        r.goes(
            s.ops.len() as int,
            st,
            s.read_field(e, p.boxed, d, p.to, p.w).ops.len() as int,
            after,
        ),
        same_value(start, after, d, p.src, p.w),
{
    broadcast use {word_of_put, word_beside_put, byte_beside_put};

    let t = s.read_field(e, p.boxed, d, p.to, p.w);
    let pc = s.ops.len() as int;
    if p.boxed {
        let zero = e.word(1);
        let s1 = s.imm_to(zero, 0);
        let st1 = st.with(zero, 0);
        r.lemma_elem_load(s1, e, d, p.to, zero, 8, p.w, st1);
        r.lemma_imm(s, zero, 0, st);
        let b = copy_of(st1, p.to, zero, 8, p.w);
        let q = st.at(p.to) as int;
        assert(b.at == q);
        let after = if p.w < 8 {
            loaded_word(st1, d, b)
        } else {
            loaded(st1, d, b)
        };
        r.lemma_on(pc, st, s1.ops.len() as int, st1, t.ops.len() as int, after);
        assert forall|k: int| 0 <= k < p.w implies #[trigger] (after.frame)(d + k)
            == (start.frame)(p.src + k) by {
            assert((st.heap)(q + k) == (start.frame)(p.src + k));
        }
        after
    } else if narrow(p.w) {
        let o = op_da("loadu/"@ + decimal(p.w as nat), d, p.to);
        assert(t == s.add(o));
        reveal_with_fuel(hole, 5);
        r.lemma_add(s, o, st);
        let after = (r.m.does)(o, st);
        assert forall|k: int| 0 <= k < p.w implies #[trigger] (after.frame)(d + k)
            == (start.frame)(p.src + k) by {
            assert((st.frame)(p.to + k) == (start.frame)(p.src + k));
        }
        after
    } else {
        r.lemma_mv(s, d, p.to, p.w, st);
        let after = st.moved(d, p.to, p.w);
        assert forall|k: int| 0 <= k < p.w implies #[trigger] (after.frame)(d + k)
            == (start.frame)(p.src + k) by {
            assert((st.frame)(p.to + k) == (start.frame)(p.src + k));
        }
        after
    }
}

/// Field `i` of a struct at a frame offset.
pub open spec fn field_part(e: Env, code: Code, id: usize, d: u64, fields: Seq<usize>, i: int) -> Part {
    let info = e.prog.tables.at(id as int);
    Part {
        to: (d + info.layout.fields[i]) as u64,
        boxed: info.field_boxed(i),
        src: e.at(fields[i]),
        w: e.width(code.ty(fields[i])) as u64,
    }
}

/// Whether the parts of a value are below the scratch words, apart from one another, and apart from
/// the slots that they are made of.
pub open spec fn parts_apart(e: Env, parts: Seq<Part>) -> bool {
    &&& forall|i: int| 0 <= i < parts.len() ==> (#[trigger] parts[i]).placed(e)
    &&& forall|i: int, j: int|
        #![trigger parts[i], parts[j]]
        0 <= i < parts.len() && 0 <= j < parts.len() ==> {
            &&& clear(parts[i].to as int, parts[i].size(), parts[j].src as int, parts[j].w as int)
            &&& i != j ==> clear(
                parts[i].to as int,
                parts[i].size(),
                parts[j].to as int,
                parts[j].size(),
            )
        }
}

/// The parts of a struct.
pub open spec fn struct_parts(e: Env, code: Code, id: usize, d: u64, fields: Seq<usize>) -> Seq<Part> {
    Seq::new(fields.len(), |i: int| field_part(e, code, id, d, fields, i))
}

/// Whether all parts below `n` hold what their slots held, and the slots still do.
spec fn built(e: Env, parts: Seq<Part>, n: int, start: St, st: St) -> bool {
    &&& forall|i: int| 0 <= i < n && i < parts.len() && (#[trigger] parts[i]).w > 0 ==> parts[i].held(start, st)
    &&& forall|i: int, k: int|
        0 <= i < parts.len() && 0 <= k < parts[i].w ==> #[trigger] (st.frame)(parts[i].src + k)
            == (start.frame)(parts[i].src + k)
    &&& forall|x: int|
        x < e.scratch && outside(parts, x) ==> #[trigger] (st.frame)(x) == (start.frame)(x)
}

/// Whether a byte of the frame is in none of some parts.
pub open spec fn outside(parts: Seq<Part>, x: int) -> bool {
    forall|i: int|
        0 <= i < parts.len() ==> x < (#[trigger] parts[i]).to || parts[i].to + parts[i].size() <= x
}

/// One part more.
proof fn lemma_built(e: Env, parts: Seq<Part>, n: int, start: St, st: St, after: St)
    requires
        0 <= n < parts.len(),
        parts_apart(e, parts),
        built(e, parts, n, start, st),
        parts[n].held(start, after),
        grew(st, after, e.scratch as int, parts[n].to as int, parts[n].size()),
    ensures
        built(e, parts, n + 1, start, after),
{
    assert forall|i: int| 0 <= i < n + 1 && i < parts.len() && (#[trigger] parts[i]).w > 0 implies parts[i].held(
        start,
        after,
    ) by {
        if i < n {
            let q = parts[n];
            lemma_held(start, st, after, e.scratch as int, q.to as int, q.size(), parts[i]);
        }
    }
    assert forall|i: int, k: int|
        0 <= i < parts.len() && 0 <= k < parts[i].w implies #[trigger] (after.frame)(
        parts[i].src + k,
    ) == (start.frame)(parts[i].src + k) by {
        let q = parts[n];
        assert(parts[i].placed(e));
        assert(clear(q.to as int, q.size(), parts[i].src as int, parts[i].w as int));
        assert((st.frame)(parts[i].src + k) == (start.frame)(parts[i].src + k));
    }
    assert forall|x: int|
        x < e.scratch && outside(parts, x) implies #[trigger] (after.frame)(x) == (start.frame)(
        x,
    ) by {
        let q = parts[n];
        assert((st.frame)(x) == (start.frame)(x));
    }
}

proof fn lemma_fields(
    r: Run,
    e: Env,
    code: Code,
    s: Sel,
    id: usize,
    d: u64,
    fields: Seq<usize>,
    i: int,
    start: St,
    st: St,
) -> (after: St)
    requires
        builds(r.m),
        0 <= i <= fields.len(),
        fields.len() <= e.prog.tables.at(id as int).layout.fields.len(),
        r.has(s.struct_fields(e, code, id, d, fields, i)),
        parts_apart(e, struct_parts(e, code, id, d, fields)),
        built(e, struct_parts(e, code, id, d, fields), i, start, st),
    ensures
        r.has(s),
        r.stops(s.ops.len() as int, st) || (r.goes(
            s.ops.len() as int,
            st,
            s.struct_fields(e, code, id, d, fields, i).ops.len() as int,
            after,
        ) && built(
            e,
            struct_parts(e, code, id, d, fields),
            fields.len() as int,
            start,
            after,
        )),
    decreases fields.len() - i,
{
    let parts = struct_parts(e, code, id, d, fields);
    let end = s.struct_fields(e, code, id, d, fields, i);
    let pc = s.ops.len() as int;
    if i >= fields.len() {
        r.lemma_stays(pc, st);
        st
    } else {
        let p = parts[i];
        if p.w == 0 {
            assert(built(e, parts, i + 1, start, st));
            lemma_fields(r, e, code, s, id, d, fields, i + 1, start, st)
        } else {
            let t = s.write_field(e, p.boxed, p.to, p.src, p.w);
            assert(end == t.struct_fields(e, code, id, d, fields, i + 1));
            assert(r.has(t)) by {
                broadcast use adds_struct_fields;

                reveal(adds);
            }
            assert(p.placed(e));
            let mid = lemma_write(r, e, s, p, start, st);
            if r.stops(pc, st) {
                st
            } else {
                lemma_built(e, parts, i, start, st, mid);
                let after = lemma_fields(r, e, code, t, id, d, fields, i + 1, start, mid);
                if r.stops(t.ops.len() as int, mid) {
                    r.lemma_stops(pc, st, t.ops.len() as int, mid);
                } else {
                    r.lemma_on(pc, st, t.ops.len() as int, mid, end.ops.len() as int, after);
                }
                after
            }
        }
    }
}

/// A field read from a struct is the value that the struct was made with: after `MakeStruct`, each
/// `GetField` leaves in its slot the bytes that the slot of that field's value held, for every
/// field, in the struct itself or behind a pointer, unless memory ran out.
pub proof fn a_struct_gives_back_its_fields(
    r: Run,
    e: Env,
    code: Code,
    s: Sel,
    id: usize,
    agg: usize,
    fields: Seq<usize>,
    dest: usize,
    i: usize,
    st: St,
) -> (after: St)
    requires
        builds(r.m),
        code.ty(agg) == Type::Agg(id),
        fields.len() <= e.prog.tables.at(id as int).layout.fields.len(),
        parts_apart(e, struct_parts(e, code, id, e.at(agg), fields)),
        i < fields.len(),
        code.ty(dest) == code.ty(fields[i as int]),
        e.width(code.ty(dest)) > 0,
        e.at(dest) + 8 <= e.scratch,
        e.at(dest) + e.width(code.ty(dest)) <= e.scratch,
        ({
            let p = struct_parts(e, code, id, e.at(agg), fields)[i as int];
            clear(e.at(dest) as int, 8, p.to as int, p.size()) && clear(
                e.at(dest) as int,
                p.w as int,
                p.to as int,
                p.size(),
            )
        }),
        r.has(s.make_struct(e, code, agg, fields).get_field(e, code, dest, agg, i)),
    ensures
        r.stops(s.ops.len() as int, st) || (r.goes(
            s.ops.len() as int,
            st,
            s.make_struct(e, code, agg, fields).get_field(e, code, dest, agg, i).ops.len() as int,
            after,
        ) && same_value(
            st,
            after,
            e.at(dest),
            e.at(fields[i as int]),
            e.width(code.ty(dest)) as u64,
        )),
{
    let d = e.at(agg);
    let parts = struct_parts(e, code, id, d, fields);
    let t = s.make_struct(e, code, agg, fields);
    let u = t.get_field(e, code, dest, agg, i);
    let p = parts[i as int];
    assert(u == t.read_field(e, p.boxed, e.at(dest), p.to, p.w));
    assert(p.placed(e));
    assert(r.has(t)) by {
        broadcast use crate::grown::adds_read_field;

        reveal(adds);
    }
    let mid = lemma_fields(r, e, code, s, id, d, fields, 0, st, st);
    let pc = s.ops.len() as int;
    if r.stops(pc, st) {
        st
    } else {
        assert(p.held(st, mid));
        let after = lemma_read(r, e, t, p, e.at(dest), st, mid);
        r.lemma_on(pc, st, t.ops.len() as int, mid, u.ops.len() as int, after);
        after
    }
}

// ---------------------------------------------------------------------------
// Enums
// ---------------------------------------------------------------------------

/// The parts of a variant of an enum at a frame offset.
pub open spec fn variant_parts(
    e: Env,
    code: Code,
    id: usize,
    variant: usize,
    d: u64,
    fields: Seq<usize>,
) -> Seq<Part> {
    let info = e.prog.tables.at(id as int);
    Seq::new(
        fields.len(),
        |i: int|
            Part {
                to: (d + info.layout.payload(variant as int, i)->0) as u64,
                boxed: info.payload_boxed(variant as int, i),
                src: e.at(fields[i]),
                w: e.width(code.ty(fields[i])) as u64,
            },
    )
}

proof fn lemma_variant(
    r: Run,
    e: Env,
    code: Code,
    s: Sel,
    id: usize,
    variant: usize,
    d: u64,
    fields: Seq<usize>,
    i: int,
    start: St,
    st: St,
) -> (after: St)
    requires
        builds(r.m),
        0 <= i <= fields.len(),
        fields.len() <= e.prog.tables.at(id as int).layout.arity(variant as int),
        r.has(s.store_variant(e, code, id, variant, d, fields, i)),
        parts_apart(e, variant_parts(e, code, id, variant, d, fields)),
        built(e, variant_parts(e, code, id, variant, d, fields), i, start, st),
    ensures
        r.has(s),
        r.stops(s.ops.len() as int, st) || (r.goes(
            s.ops.len() as int,
            st,
            s.store_variant(e, code, id, variant, d, fields, i).ops.len() as int,
            after,
        ) && built(
            e,
            variant_parts(e, code, id, variant, d, fields),
            fields.len() as int,
            start,
            after,
        )),
    decreases fields.len() - i,
{
    let parts = variant_parts(e, code, id, variant, d, fields);
    let end = s.store_variant(e, code, id, variant, d, fields, i);
    let pc = s.ops.len() as int;
    if i >= fields.len() {
        r.lemma_stays(pc, st);
        st
    } else {
        let p = parts[i];
        let t = s.write_field(e, p.boxed, p.to, p.src, p.w);
        assert(e.prog.tables.at(id as int).layout.payload(variant as int, i) is Some);
        assert(end == t.store_variant(e, code, id, variant, d, fields, i + 1));
        assert(r.has(t)) by {
            broadcast use adds_store_variant;

            reveal(adds);
        }
        assert(p.placed(e));
        let mid = lemma_write(r, e, s, p, start, st);
        if r.stops(pc, st) {
            st
        } else {
            lemma_built(e, parts, i, start, st, mid);
            let after = lemma_variant(r, e, code, t, id, variant, d, fields, i + 1, start, mid);
            if r.stops(t.ops.len() as int, mid) {
                r.lemma_stops(pc, st, t.ops.len() as int, mid);
            } else {
                r.lemma_on(pc, st, t.ops.len() as int, mid, end.ops.len() as int, after);
            }
            after
        }
    }
}

/// Whether a number can be told by a tag of a width.
pub open spec fn in_tag(tag: u32, v: u64) -> bool {
    ||| tag == 1 && v < 0x100
    ||| tag == 2 && v < 0x1_0000
    ||| tag == 4 && v < 0x1_0000_0000
    ||| tag == 8
}

/// What telling a variant of an enum at `d` apart rests on: a tag that has room for it and is apart
/// from the payload and from the slots that it is made of, or a pointer of the payload that is not
/// null, with the other of two variants empty.
pub open spec fn told(
    e: Env,
    id: usize,
    variant: usize,
    d: u64,
    parts: Seq<Part>,
    st: St,
) -> bool {
    let l = e.layout(id);
    match l.tagging() {
        None => false,
        Some(EnumRepr::Bare { tag }) => {
            &&& in_tag(tag, variant as u64)
            &&& d + tag <= e.scratch
            &&& parts.len() == 0
        },
        Some(EnumRepr::Tagged { tag }) => {
            &&& in_tag(tag, variant as u64)
            &&& d + tag <= e.scratch
            &&& forall|i: int|
                0 <= i < parts.len() ==> clear(
                    d as int,
                    tag as int,
                    (#[trigger] parts[i]).to as int,
                    parts[i].size(),
                ) && clear(d as int, tag as int, parts[i].src as int, parts[i].w as int)
        },
        Some(EnumRepr::Niche { null_at }) => {
            &&& variant < 2
            &&& l.width() == 2
            &&& (l.arity(0) == 0) != (l.arity(1) == 0)
            &&& d + null_at + 8 <= e.scratch
            &&& l.arity(variant as int) > 0 ==> exists|j: int|
                0 <= j < parts.len() && #[trigger] marks(parts[j], (d + null_at) as u64, st)
        },
    }
}

/// Whether a part has a pointer at `at` that is not null: the one that it is behind, or one in the
/// value that it is made of.
pub open spec fn marks(p: Part, at: u64, st: St) -> bool {
    if p.boxed {
        p.to == at && p.w > 0
    } else {
        p.to <= at && at + 8 <= p.to + p.w && st.at((p.src + (at - p.to)) as u64) != 0
    }
}

/// The operation that leaves the variant a niche stands for.
pub open spec fn op_niche(d: u64, a: u64, null: u64, other: u64) -> Item {
    Item::Stencil {
        key: "niche_tag"@,
        binds: seq![
            (H::D, V::I(d)),
            (H::A, V::I(a)),
            (H::N, V::I(null)),
            (H::P, V::I(other)),
            (H::Cont, V::Fall),
        ],
    }
}

/// A null pointer stands for one variant and any other for the other.
pub open spec fn tells_niches(m: Machine) -> bool {
    forall|d: u64, a: u64, null: u64, other: u64, st: St| #[trigger]
        (m.does)(op_niche(d, a, null, other), st) == st.with(
            d,
            if st.at(a) == 0 {
                null
            } else {
                other
            },
        )
}

pub proof fn lemma_low_bytes(v: u64)
    ensures
        v < 0x100 ==> forall|k: int| 1 <= k < 8 ==> #[trigger] le64(v)[k] == 0,
        v < 0x1_0000 ==> forall|k: int| 2 <= k < 8 ==> #[trigger] le64(v)[k] == 0,
        v < 0x1_0000_0000 ==> forall|k: int| 4 <= k < 8 ==> #[trigger] le64(v)[k] == 0,
{
    let lo = (v & 0xffff_ffff) as u32;
    let hi = (v >> 32) as u32;
    assert(v < 0x1_0000_0000 ==> hi == 0) by (bit_vector)
        requires
            hi == (v >> 32) as u32,
    ;
    assert(((hi == 0) ==> (hi & 0xff) as u8 == 0 && ((hi >> 8) & 0xff) as u8 == 0 && ((hi >> 16)
        & 0xff) as u8 == 0 && ((hi >> 24) & 0xff) as u8 == 0) && (v < 0x1_0000 ==> ((lo >> 16)
        & 0xff) as u8 == 0 && ((lo >> 24) & 0xff) as u8 == 0) && (v < 0x100 ==> ((lo >> 8)
        & 0xff) as u8 == 0)) by (bit_vector)
        requires
            lo == (v & 0xffff_ffff) as u32,
    ;
    let b = le64(v);
    assert(b.len() == 8);
    assert(b[1] == ((lo >> 8) & 0xff) as u8);
    assert(b[2] == ((lo >> 16) & 0xff) as u8);
    assert(b[3] == ((lo >> 24) & 0xff) as u8);
    assert(b[4] == (hi & 0xff) as u8);
    assert(b[5] == ((hi >> 8) & 0xff) as u8);
    assert(b[6] == ((hi >> 16) & 0xff) as u8);
    assert(b[7] == ((hi >> 24) & 0xff) as u8);
}

/// A tag read is the number that it was written with.
proof fn lemma_tag(r: Run, s: Sel, tag: u32, at: u64, d: u64, v: u64, st: St) -> (after: St)
    requires
        builds(r.m),
        in_tag(tag, v),
        r.has(s.load_w(d, at, tag as u64)),
        d + 8 <= u64::MAX,
        at + 8 <= u64::MAX,
        clear(d as int, 8, at as int, tag as int),
        forall|k: int| 0 <= k < tag ==> #[trigger] (st.frame)(at + k) == le64(v)[k],
    ensures
        r.has(s),
        r.goes(s.ops.len() as int, st, s.load_w(d, at, tag as u64).ops.len() as int, after),
        after.at(d) == v,
{
    let t = s.load_w(d, at, tag as u64);
    let w = tag as u64;
    lemma_low_bytes(v);
    let after = if narrow(w) {
        let o = op_da("loadu/"@ + decimal(w as nat), d, at);
        assert(t == s.add(o));
        reveal_with_fuel(hole, 5);
        r.lemma_add(s, o, st);
        (r.m.does)(o, st)
    } else {
        r.lemma_mv(s, d, at, 8, st);
        st.moved(d, at, 8)
    };
    assert forall|k: int| 0 <= k < 8 implies #[trigger] (after.frame)(d + k) == le64(v)[k] by {
        if k < tag {
            assert((st.frame)(at + k) == le64(v)[k]);
        }
    }
    reveal(word);
    let none = Seq::<u8>::empty();
    crate::bytes::what_was_written_is_read64(none, v, none);
    assert(none + le64(v) + none =~= Seq::new(8, |i: int| (after.frame)(d + i)));
    after
}

/// What an enum just made holds.
proof fn lemma_make_enum(
    r: Run,
    e: Env,
    code: Code,
    s: Sel,
    id: usize,
    agg: usize,
    variant: usize,
    fields: Seq<usize>,
    st: St,
) -> (after: St)
    requires
        builds(r.m),
        code.ty(agg) == Type::Agg(id),
        fields.len() <= e.layout(id).arity(variant as int),
        parts_apart(e, variant_parts(e, code, id, variant, e.at(agg), fields)),
        told(
            e,
            id,
            variant,
            e.at(agg),
            variant_parts(e, code, id, variant, e.at(agg), fields),
            st,
        ),
        r.has(s.make_enum(e, code, agg, variant, fields)),
    ensures
        r.has(s),
        r.stops(s.ops.len() as int, st) || ({
            let d = e.at(agg);
            let parts = variant_parts(e, code, id, variant, d, fields);
            &&& r.goes(
                s.ops.len() as int,
                st,
                s.make_enum(e, code, agg, variant, fields).ops.len() as int,
                after,
            )
            &&& forall|i: int|
                0 <= i < parts.len() && (#[trigger] parts[i]).w > 0 ==> parts[i].held(st, after)
            &&& match e.layout(id).tagging() {
                Some(EnumRepr::Niche { null_at }) => after.at((d + null_at) as u64) == 0
                    <==> e.layout(id).arity(variant as int) == 0,
                _ => forall|k: int|
                    0 <= k < e.layout(id).tag()->0 ==> #[trigger] (after.frame)(d + k) == le64(
                        variant as u64,
                    )[k],
            }
        }),
{
    broadcast use {word_of_put, word_beside_put, byte_beside_put};

    let d = e.at(agg);
    let l = e.layout(id);
    let parts = variant_parts(e, code, id, variant, d, fields);
    let end = s.make_enum(e, code, agg, variant, fields);
    let pc = s.ops.len() as int;
    let v = variant as u64;
    match l.tagging() {
        Some(EnumRepr::Niche { null_at }) => {
            let n = (d + null_at) as u64;
            if l.arity(variant as int) == 0 {
                r.lemma_imm(s, n, 0, st);
                st.with(n, 0)
            } else {
                assert(built(e, parts, 0, st, st));
                let after = lemma_variant(r, e, code, s, id, variant, d, fields, 0, st, st);
                if !r.stops(pc, st) {
                    let j = choose|j: int| 0 <= j < parts.len() && #[trigger] marks(parts[j], n, st);
                    let p = parts[j];
                    assert(p.held(st, after));
                    if !p.boxed {
                        let from = (p.src + (n - p.to)) as u64;
                        assert(p.placed(e));
                        assert forall|k: int| 0 <= k < 8 implies #[trigger] (after.frame)(n + k)
                            == (st.frame)(from + k) by {
                            let h = n - p.to + k;
                            assert((after.frame)(p.to + h) == (st.frame)(p.src + h));
                        }
                        reveal(word);
                        assert(Seq::new(8, |i: int| (after.frame)(n + i)) =~= Seq::new(
                            8,
                            |i: int| (st.frame)(from + i),
                        ));
                    }
                }
                after
            }
        },
        Some(EnumRepr::Bare { tag }) => {
            let after = lemma_tag_written(r, s, tag, d, v, st);
            assert(end == s.imm_w(d, tag as u64, v));
            after
        },
        Some(EnumRepr::Tagged { tag }) => {
            let t = s.imm_w(d, tag as u64, v);
            assert(end == t.store_variant(e, code, id, variant, d, fields, 0));
            assert(r.has(t)) by {
                broadcast use adds_store_variant;

                reveal(adds);
            }
            let base = lemma_tag_written(r, s, tag, d, v, st);
            assert(built(e, parts, 0, base, base));
            let after = lemma_variant(r, e, code, t, id, variant, d, fields, 0, base, base);
            if r.stops(t.ops.len() as int, base) {
                r.lemma_stops(pc, st, t.ops.len() as int, base);
            } else {
                r.lemma_on(pc, st, t.ops.len() as int, base, end.ops.len() as int, after);
                assert forall|i: int|
                    0 <= i < parts.len() && (#[trigger] parts[i]).w > 0 implies parts[i].held(
                    st,
                    after,
                ) by {
                    assert(parts[i].held(base, after));
                    lemma_held_from(st, base, after, parts[i]);
                }
                assert forall|k: int| 0 <= k < tag implies #[trigger] (after.frame)(d + k) == le64(
                    v,
                )[k] by {
                    assert(outside(parts, d + k));
                    assert((base.frame)(d + k) == le64(v)[k]);
                }
            }
            after
        },
        None => st,
    }
}

/// A tag written.
pub proof fn lemma_tag_written(r: Run, s: Sel, tag: u32, d: u64, v: u64, st: St) -> (after: St)
    requires
        builds(r.m),
        in_tag(tag, v),
        r.has(s.imm_w(d, tag as u64, v)),
    ensures
        r.has(s),
        r.goes(s.ops.len() as int, st, s.imm_w(d, tag as u64, v).ops.len() as int, after),
        forall|k: int| 0 <= k < tag ==> #[trigger] (after.frame)(d + k) == le64(v)[k],
        forall|x: int| x < d || d + tag <= x ==> #[trigger] (after.frame)(x) == (st.frame)(x),
        after.heap == st.heap,
        after.used == st.used,
{
    let w = tag as u64;
    let t = s.imm_w(d, w, v);
    if narrow(w) {
        let o = op_immw(w as nat, d, v);
        assert(t == s.add(o));
        reveal_with_fuel(hole, 5);
        r.lemma_add(s, o, st);
        (r.m.does)(o, st)
    } else {
        r.lemma_imm(s, d, v, st);
        reveal(put);
        st.with(d, v)
    }
}

/// A payload read from an enum is the value that its variant was made with: after `MakeEnum`, each
/// `GetPayload` of that variant leaves in its slot the bytes that the slot of that field's value
/// held, unless memory ran out.
pub proof fn an_enum_gives_back_its_payload(
    r: Run,
    e: Env,
    code: Code,
    s: Sel,
    id: usize,
    agg: usize,
    variant: usize,
    fields: Seq<usize>,
    dest: usize,
    i: usize,
    st: St,
) -> (after: St)
    requires
        builds(r.m),
        code.ty(agg) == Type::Agg(id),
        fields.len() <= e.layout(id).arity(variant as int),
        parts_apart(e, variant_parts(e, code, id, variant, e.at(agg), fields)),
        told(
            e,
            id,
            variant,
            e.at(agg),
            variant_parts(e, code, id, variant, e.at(agg), fields),
            st,
        ),
        i < fields.len(),
        code.ty(dest) == code.ty(fields[i as int]),
        e.width(code.ty(dest)) > 0,
        e.at(dest) + 8 <= e.scratch,
        e.at(dest) + e.width(code.ty(dest)) <= e.scratch,
        ({
            let p = variant_parts(e, code, id, variant, e.at(agg), fields)[i as int];
            clear(e.at(dest) as int, 8, p.to as int, p.size()) && clear(
                e.at(dest) as int,
                p.w as int,
                p.to as int,
                p.size(),
            )
        }),
        r.has(
            s.make_enum(e, code, agg, variant, fields).get_payload(e, code, dest, agg, variant, i),
        ),
    ensures
        r.stops(s.ops.len() as int, st) || (r.goes(
            s.ops.len() as int,
            st,
            s.make_enum(e, code, agg, variant, fields).get_payload(
                e,
                code,
                dest,
                agg,
                variant,
                i,
            ).ops.len() as int,
            after,
        ) && same_value(
            st,
            after,
            e.at(dest),
            e.at(fields[i as int]),
            e.width(code.ty(dest)) as u64,
        )),
{
    let parts = variant_parts(e, code, id, variant, e.at(agg), fields);
    let t = s.make_enum(e, code, agg, variant, fields);
    let u = t.get_payload(e, code, dest, agg, variant, i);
    let p = parts[i as int];
    assert(u == t.read_field(e, p.boxed, e.at(dest), p.to, p.w));
    assert(p.placed(e));
    assert(r.has(t)) by {
        broadcast use crate::grown::adds_read_field;

        reveal(adds);
    }
    let mid = lemma_make_enum(r, e, code, s, id, agg, variant, fields, st);
    let pc = s.ops.len() as int;
    if r.stops(pc, st) {
        st
    } else {
        assert(p.held(st, mid));
        let after = lemma_read(r, e, t, p, e.at(dest), st, mid);
        r.lemma_on(pc, st, t.ops.len() as int, mid, u.ops.len() as int, after);
        after
    }
}

/// The variant read from an enum is the one it was made with: after `MakeEnum`, `GetTag` leaves
/// the number of the variant in its slot, unless memory ran out.
pub proof fn an_enum_gives_back_its_variant(
    r: Run,
    e: Env,
    code: Code,
    s: Sel,
    id: usize,
    agg: usize,
    variant: usize,
    fields: Seq<usize>,
    dest: usize,
    st: St,
) -> (after: St)
    requires
        builds(r.m),
        tells_niches(r.m),
        code.ty(agg) == Type::Agg(id),
        fields.len() <= e.layout(id).arity(variant as int),
        parts_apart(e, variant_parts(e, code, id, variant, e.at(agg), fields)),
        told(
            e,
            id,
            variant,
            e.at(agg),
            variant_parts(e, code, id, variant, e.at(agg), fields),
            st,
        ),
        e.at(dest) + 8 <= e.scratch,
        e.layout(id).tag() matches Some(tag) ==> clear(
            e.at(dest) as int,
            8,
            e.at(agg) as int,
            tag as int,
        ),
        r.has(s.make_enum(e, code, agg, variant, fields).get_tag(e, code, dest, agg)),
    ensures
        r.stops(s.ops.len() as int, st) || (r.goes(
            s.ops.len() as int,
            st,
            s.make_enum(e, code, agg, variant, fields).get_tag(
                e,
                code,
                dest,
                agg,
            ).ops.len() as int,
            after,
        ) && after.at(e.at(dest)) == variant),
{
    let d = e.at(agg);
    let l = e.layout(id);
    let t = s.make_enum(e, code, agg, variant, fields);
    let u = t.get_tag(e, code, dest, agg);
    let pc = s.ops.len() as int;
    assert(r.has(t)) by {
        broadcast use crate::grown::adds_get_tag;

        reveal(adds);
    }
    let mid = lemma_make_enum(r, e, code, s, id, agg, variant, fields, st);
    if r.stops(pc, st) {
        st
    } else {
        match l.tagging() {
            Some(EnumRepr::Niche { null_at }) => {
                let null = l.empty_variant() as u64;
                reveal_with_fuel(crate::types::first_empty, 3);
                assert(null == if l.arity(0) == 0 {
                    0
                } else {
                    1u64
                });
                let other = if null == 0 {
                    1u64
                } else {
                    0
                };
                let o = op_niche(e.at(dest), (d + null_at) as u64, null, other);
                assert(u == t.add(o));
                reveal_with_fuel(hole, 8);
                r.lemma_add(t, o, mid);
                let after = (r.m.does)(o, mid);
                r.lemma_on(pc, st, t.ops.len() as int, mid, u.ops.len() as int, after);
                broadcast use word_of_put;

                after
            },
            _ => {
                let tag = l.tag()->0;
                let after = lemma_tag(r, t, tag, d, e.at(dest), variant as u64, mid);
                r.lemma_on(pc, st, t.ops.len() as int, mid, u.ops.len() as int, after);
                after
            },
        }
    }
}

} // verus!
