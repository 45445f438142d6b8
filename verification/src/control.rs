//! Where control goes, and what it takes along: edges assign the parameters of a block, and branches
//! reach the block that their condition picks.

use crate::abi::Loc;
use crate::bytes::{le64, of64};
use crate::copies::{copied, Frame};
use crate::aggregate::{op_niche, tells_niches};
use crate::edges::{
    a_shuffle_assigns_every_byte, a_shuffle_is_a_parallel_assignment, assigned, blocked, blocks,
    byte_at, covered, dests_apart, disjoint, lemma_blocked, lemma_blocks_remove, lemma_ready,
    lemma_redirect, lemma_writes, offset, ready, redirect, run, run_bytes, scratch, shuffle,
    sources_apart, writes, Cell, Move,
};
use crate::grown::{adds, adds_copies};
use crate::ir::{Code, Target, Term, Type};
use crate::owning::tag_number;
use crate::prim::{tag_of, BinOp, Prim};
use crate::machine::{
    byte_beside_put, clear, copies_words, hole, leads, moves_fields, put, word, word_beside_put,
    word_of_put, twin, Machine, Run, St,
};
use crate::select::{Env, Item, Sel, H, V};
use crate::text::decimal;
use crate::types::EnumRepr;
use vstd::prelude::*;

verus! {

// ---------------------------------------------------------------------------
// Registers
// ---------------------------------------------------------------------------

/// A register, of the floats or of the others.
pub open spec fn reg(st: St, float: bool, k: u8) -> u64 {
    if float {
        (st.floats)(k)
    } else {
        (st.regs)(k)
    }
}

/// With a word in a register.
pub open spec fn with_reg(st: St, float: bool, k: u8, v: u64) -> St {
    if float {
        St {
            floats: |j: u8|
                if j == k {
                    v
                } else {
                    (st.floats)(j)
                },
            ..st
        }
    } else {
        St {
            regs: |j: u8|
                if j == k {
                    v
                } else {
                    (st.regs)(j)
                },
            ..st
        }
    }
}

/// The operation between registers.
pub open spec fn op_reg(key: Seq<char>) -> Item {
    Item::Stencil { key, binds: seq![(H::Cont, V::Fall)] }
}

/// The operation from a slot to a register.
pub open spec fn op_from(key: Seq<char>, a: u64) -> Item {
    Item::Stencil { key, binds: seq![(H::A, V::I(a)), (H::Cont, V::Fall)] }
}

/// The operation from a register to a slot.
pub open spec fn op_to(key: Seq<char>, d: u64) -> Item {
    Item::Stencil { key, binds: seq![(H::D, V::I(d)), (H::Cont, V::Fall)] }
}

/// Registers are copied, loaded and stored.
pub open spec fn moves_registers(m: Machine) -> bool {
    &&& forall|k: u8, j: u8, st: St| #[trigger]
        (m.does)(op_reg("mvr/r"@ + decimal(k as nat) + "/r"@ + decimal(j as nat)), st) == with_reg(
            st,
            false,
            k,
            reg(st, false, j),
        )
    &&& forall|k: u8, j: u8, st: St| #[trigger]
        (m.does)(op_reg("mvg/r"@ + decimal(k as nat) + "/r"@ + decimal(j as nat)), st) == with_reg(
            st,
            true,
            k,
            reg(st, true, j),
        )
    &&& forall|k: u8, a: u64, st: St| #[trigger]
        (m.does)(op_from("ld/r"@ + decimal(k as nat), a), st) == with_reg(st, false, k, st.at(a))
    &&& forall|k: u8, a: u64, st: St| #[trigger]
        (m.does)(op_from("ldg/r"@ + decimal(k as nat), a), st) == with_reg(st, true, k, st.at(a))
    &&& forall|k: u8, d: u64, st: St| #[trigger]
        (m.does)(op_to("stw/r"@ + decimal(k as nat), d), st) == st.with(d, reg(st, false, k))
    &&& forall|k: u8, d: u64, st: St| #[trigger]
        (m.does)(op_to("stwg/r"@ + decimal(k as nat), d), st) == st.with(d, reg(st, true, k))
}

/// Which file each register number is of.
pub type Files = spec_fn(u8) -> bool;

/// Whether a slot is one that copies into registers can use: below the scratch words, or one of
/// them.
spec fn clean(o: u64, lim: int) -> bool {
    o + 8 <= lim || (o >= lim && (o - lim) % 8 == 0)
}

/// Whether a copy is of a word into a register, or out of one into a scratch word.
spec fn reg_form(m: Move, fl: Files, lim: int) -> bool {
    &&& m.n == 8
    &&& match m.to {
        Cell::Reg(k) => m.float == fl(k),
        Cell::Slot(o) => o >= lim && (o - lim) % 8 == 0 && m.from is Reg,
    }
    &&& match m.from {
        Cell::Reg(k) => m.float == fl(k),
        Cell::Slot(o) => clean(o, lim),
    }
}

proof fn lemma_reg_shape(p: Seq<Move>, tmp: u64, fl: Files, lim: int)
    requires
        forall|i: int| 0 <= i < p.len() ==> reg_form(#[trigger] p[i], fl, lim) && p[i].to is Reg,
        tmp >= lim,
        (tmp - lim) % 8 == 0,
        tmp + 8 * blocks(p, p.len() as int) <= u64::MAX,
    ensures
        forall|i: int|
            0 <= i < shuffle(p, tmp).0.len() ==> reg_form(#[trigger] shuffle(p, tmp).0[i], fl, lim),
    decreases p.len(), blocks(p, p.len() as int),
{
    if p.len() > 0 {
        lemma_ready(p, 0);
        lemma_blocked(p, 0);
        match ready(p, 0) {
            Some(i) => {
                let q = p.remove(i);
                assert forall|k: int| 0 <= k < q.len() implies reg_form(#[trigger] q[k], fl, lim)
                    && q[k].to is Reg by {
                    let b = p[if k < i {
                        k
                    } else {
                        k + 1
                    }];
                    assert(q[k] == b);
                }
                lemma_blocks_remove(p, i);
                lemma_reg_shape(q, tmp, fl, lim);
                let out = seq![p[i]] + shuffle(q, tmp).0;
                assert(out == shuffle(p, tmp).0);
                assert forall|k: int| 0 <= k < out.len() implies reg_form(
                    #[trigger] out[k],
                    fl,
                    lim,
                ) by {
                    if k > 0 {
                        assert(out[k] == shuffle(q, tmp).0[k - 1]);
                    }
                }
            },
            None => match blocked(p, 0) {
                Some(i) => if !writes(p, Cell::Slot(tmp), 0) {
                    let t = Cell::Slot(tmp);
                    lemma_redirect(p, i, t);
                    let q = redirect(p, p[i].from, t);
                    assert forall|k: int|
                        0 <= k < q.len() implies reg_form(#[trigger] q[k], fl, lim) && q[k].to is Reg by {
                        assert(reg_form(p[k], fl, lim));
                    }
                    lemma_reg_shape(q, (tmp + 8) as u64, fl, lim);
                    lemma_writes(p, p[i].from, 0);
                    let w = choose|j: int| 0 <= j < p.len() && (#[trigger] p[j]).to == p[i].from;
                    assert(p[w].to is Reg);
                    let first = Move { to: t, ..p[i] };
                    assert(reg_form(first, fl, lim));
                    let rest = shuffle(q, (tmp + 8) as u64).0;
                    let out = seq![first] + rest;
                    assert(out == shuffle(p, tmp).0);
                    assert forall|k: int| 0 <= k < out.len() implies reg_form(
                        #[trigger] out[k],
                        fl,
                        lim,
                    ) by {
                        if k > 0 {
                            assert(out[k] == rest[k - 1]);
                        }
                    }
                },
                None => {},
            },
        }
    }
}

/// What a cell holds.
spec fn cell(st: St, fl: Files, c: Cell) -> int {
    match c {
        Cell::Reg(k) => reg(st, fl(k), k) as int,
        Cell::Slot(o) => st.at(o) as int,
    }
}

/// Whether cells are what a state holds.
spec fn agrees(f: spec_fn(Cell) -> int, st: St, fl: Files, lim: int) -> bool {
    forall|c: Cell|
        (match c {
            Cell::Reg(k) => true,
            Cell::Slot(o) => clean(o, lim),
        }) ==> #[trigger] f(c) == cell(st, fl, c)
}

/// Whether a state is another but for registers and scratch words.
spec fn regs_only(st: St, after: St, fl: Files, lim: int) -> bool {
    &&& forall|x: int| x < lim ==> #[trigger] (after.frame)(x) == (st.frame)(x)
    &&& after.heap == st.heap
    &&& after.used == st.used
    &&& after.log == st.log
    &&& after.stopped == st.stopped
    &&& forall|k: u8| #[trigger] fl(k) ==> (after.regs)(k) == (st.regs)(k)
    &&& forall|k: u8| !#[trigger] fl(k) ==> (after.floats)(k) == (st.floats)(k)
}

/// One copy into or out of a register.
proof fn lemma_copy_reg(
    r: Run,
    s: Sel,
    m: Move,
    f: spec_fn(Cell) -> int,
    fl: Files,
    lim: int,
    st: St,
) -> (after: St)
    requires
        moves_registers(r.m),
        r.has(s.copy(m)),
        reg_form(m, fl, lim),
        agrees(f, st, fl, lim),
    ensures
        r.has(s),
        r.goes(s.ops.len() as int, st, s.copy(m).ops.len() as int, after),
        agrees(
            |c: Cell|
                if c == m.to {
                    f(m.from)
                } else {
                    f(c)
                },
            after,
            fl,
            lim,
        ),
        regs_only(st, after, fl, lim),
{
    broadcast use {word_of_put, word_beside_put, byte_beside_put};

    reveal_with_fuel(hole, 5);
    let g = |c: Cell|
        if c == m.to {
            f(m.from)
        } else {
            f(c)
        };
    let o = match (m.to, m.from) {
        (Cell::Reg(k), Cell::Reg(j)) => op_reg(
            (if m.float {
                "mvg/r"@
            } else {
                "mvr/r"@
            }) + decimal(k as nat) + "/r"@ + decimal(j as nat),
        ),
        (Cell::Reg(k), Cell::Slot(a)) => op_from(
            (if m.float {
                "ldg/r"@
            } else {
                "ld/r"@
            }) + decimal(k as nat),
            a,
        ),
        (Cell::Slot(d), Cell::Reg(j)) => op_to(
            (if m.float {
                "stwg/r"@
            } else {
                "stw/r"@
            }) + decimal(j as nat),
            d,
        ),
        _ => op_reg(Seq::empty()),
    };
    assert(s.copy(m) == s.add(o));
    r.lemma_add(s, o, st);
    let after = (r.m.does)(o, st);
    assert(f(m.from) == cell(st, fl, m.from));
    match m.to {
        Cell::Reg(k) => {
            assert(after == with_reg(st, m.float, k, f(m.from) as u64));
        },
        Cell::Slot(d) => {
            assert(after == st.with(d, f(m.from) as u64));
        },
    }
    assert forall|c: Cell|
        (match c {
            Cell::Reg(k) => true,
            Cell::Slot(o) => clean(o, lim),
        }) implies #[trigger] g(c) == cell(after, fl, c) by {
        assert(f(c) == cell(st, fl, c));
        match (c, m.to) {
            (Cell::Slot(a), Cell::Slot(d)) => {
                if a != d {
                    assert(clear(d as int, 8, a as int, 8));
                }
            },
            _ => {},
        }
    }
    after
}

/// Copies into and out of registers, one after another.
proof fn lemma_copies_reg(
    r: Run,
    s: Sel,
    ms: Seq<Move>,
    i: int,
    f: spec_fn(Cell) -> int,
    fl: Files,
    lim: int,
    st: St,
) -> (after: St)
    requires
        moves_registers(r.m),
        0 <= i <= ms.len(),
        r.has(s.copies(ms, i)),
        forall|k: int| 0 <= k < ms.len() ==> reg_form(#[trigger] ms[k], fl, lim),
        agrees(f, st, fl, lim),
    ensures
        r.has(s),
        r.goes(s.ops.len() as int, st, s.copies(ms, i).ops.len() as int, after),
        agrees(run(f, ms.subrange(i, ms.len() as int)), after, fl, lim),
        regs_only(st, after, fl, lim),
    decreases ms.len() - i,
{
    let left = ms.subrange(i, ms.len() as int);
    let pc = s.ops.len() as int;
    if i >= ms.len() {
        r.lemma_stays(pc, st);
        assert(left.len() == 0);
        st
    } else {
        let m = ms[i];
        let t = s.copy(m);
        assert(s.copies(ms, i) == t.copies(ms, i + 1));
        assert(r.has(t)) by {
            broadcast use adds_copies;

            reveal(adds);
        }
        let mid = lemma_copy_reg(r, s, m, f, fl, lim, st);
        let g = |c: Cell|
            if c == m.to {
                f(m.from)
            } else {
                f(c)
            };
        let after = lemma_copies_reg(r, t, ms, i + 1, g, fl, lim, mid);
        assert(left[0] == m);
        assert(left.drop_first() =~= ms.subrange(i + 1, ms.len() as int));
        assert(run(f, left) == run(g, left.drop_first()));
        r.lemma_on(
            pc,
            st,
            t.ops.len() as int,
            mid,
            s.copies(ms, i).ops.len() as int,
            after,
        );
        after
    }
}

// ---------------------------------------------------------------------------
// Slots
// ---------------------------------------------------------------------------

/// Whether a copy is between two slots with no byte in common.
spec fn slot_form(m: Move) -> bool {
    &&& m.to is Slot
    &&& m.from is Slot
    &&& disjoint(offset(m.to), m.n as int, offset(m.from), m.n as int)
    &&& offset(m.to) + m.n <= u64::MAX
    &&& offset(m.from) + m.n <= u64::MAX
}

/// Whether the copies of a list go into slots below `lim`, from there or from scratch words.
spec fn slots_below(p: Seq<Move>, lim: int, most: int) -> bool {
    forall|i: int|
        0 <= i < p.len() ==> {
            &&& slot_form(#[trigger] p[i])
            &&& p[i].n <= most
            &&& offset(p[i].to) + p[i].n <= lim
            &&& offset(p[i].from) + p[i].n <= lim || offset(p[i].from) >= lim
            &&& p[i].n > 0
        }
}

proof fn lemma_slot_shape(p: Seq<Move>, tmp: u64, lim: int, most: int)
    requires
        slots_below(p, lim, most),
        lim <= tmp,
        tmp + 8 * blocks(p, p.len() as int) + most <= u64::MAX,
    ensures
        forall|i: int|
            0 <= i < shuffle(p, tmp).0.len() ==> slot_form(#[trigger] shuffle(p, tmp).0[i]),
    decreases p.len(), blocks(p, p.len() as int),
{
    if p.len() > 0 {
        lemma_ready(p, 0);
        lemma_blocked(p, 0);
        match ready(p, 0) {
            Some(i) => {
                let q = p.remove(i);
                assert forall|k: int| 0 <= k < q.len() implies #[trigger] q[k] == p[if k < i {
                    k
                } else {
                    k + 1
                }] by {}
                assert(slots_below(q, lim, most)) by {
                    assert forall|k: int| 0 <= k < q.len() implies ({
                        &&& slot_form(#[trigger] q[k])
                        &&& q[k].n <= most
                        &&& offset(q[k].to) + q[k].n <= lim
                        &&& offset(q[k].from) + q[k].n <= lim || offset(q[k].from) >= lim
                        &&& q[k].n > 0
                    }) by {
                        let b = p[if k < i {
                            k
                        } else {
                            k + 1
                        }];
                        assert(q[k] == b);
                    }
                }
                lemma_blocks_remove(p, i);
                lemma_slot_shape(q, tmp, lim, most);
                let out = seq![p[i]] + shuffle(q, tmp).0;
                assert(out == shuffle(p, tmp).0);
                assert forall|k: int| 0 <= k < out.len() implies slot_form(#[trigger] out[k]) by {
                    if k > 0 {
                        assert(out[k] == shuffle(q, tmp).0[k - 1]);
                    }
                }
            },
            None => match blocked(p, 0) {
                Some(i) => if !writes(p, Cell::Slot(tmp), 0) {
                    let t = Cell::Slot(tmp);
                    lemma_redirect(p, i, t);
                    let q = redirect(p, p[i].from, t);
                    assert forall|k: int| 0 <= k < q.len() implies ({
                        &&& slot_form(#[trigger] q[k])
                        &&& q[k].n <= most
                        &&& offset(q[k].to) + q[k].n <= lim
                        &&& offset(q[k].from) + q[k].n <= lim || offset(q[k].from) >= lim
                        &&& q[k].n > 0
                    }) by {
                        assert(slot_form(p[k]));
                    }
                    lemma_slot_shape(q, (tmp + 8) as u64, lim, most);
                    lemma_writes(p, p[i].from, 0);
                    let w = choose|j: int| 0 <= j < p.len() && (#[trigger] p[j]).to == p[i].from;
                    assert(slot_form(p[w]));
                    let first = Move { to: t, ..p[i] };
                    assert(slot_form(first));
                    let rest = shuffle(q, (tmp + 8) as u64).0;
                    let out = seq![first] + rest;
                    assert(out == shuffle(p, tmp).0);
                    assert forall|k: int| 0 <= k < out.len() implies slot_form(
                        #[trigger] out[k],
                    ) by {
                        if k > 0 {
                            assert(out[k] == rest[k - 1]);
                        }
                    }
                },
                None => {},
            },
        }
    }
}

/// Copies between slots, one after another.
proof fn lemma_copies_slot(r: Run, s: Sel, ms: Seq<Move>, i: int, st: St) -> (after: St)
    requires
        copies_words(r.m),
        0 <= i <= ms.len(),
        r.has(s.copies(ms, i)),
        forall|k: int| 0 <= k < ms.len() ==> slot_form(#[trigger] ms[k]),
    ensures
        r.has(s),
        r.goes(s.ops.len() as int, st, s.copies(ms, i).ops.len() as int, after),
        after == (St { frame: run_bytes(st.frame, ms.subrange(i, ms.len() as int)), ..st }),
    decreases ms.len() - i,
{
    let left = ms.subrange(i, ms.len() as int);
    let pc = s.ops.len() as int;
    if i >= ms.len() {
        r.lemma_stays(pc, st);
        assert(left.len() == 0);
        st
    } else {
        let m = ms[i];
        let t = s.copy(m);
        assert(s.copies(ms, i) == t.copies(ms, i + 1));
        assert(r.has(t)) by {
            broadcast use adds_copies;

            reveal(adds);
        }
        let d = m.to->Slot_0;
        let a = m.from->Slot_0;
        r.lemma_mv(s, d, a, m.n, st);
        let mid = st.moved(d, a, m.n);
        let after = lemma_copies_slot(r, t, ms, i + 1, mid);
        assert(left[0] == m);
        assert(left.drop_first() =~= ms.subrange(i + 1, ms.len() as int));
        r.lemma_on(pc, st, t.ops.len() as int, mid, s.copies(ms, i).ops.len() as int, after);
        after
    }
}

// ---------------------------------------------------------------------------
// Edges
// ---------------------------------------------------------------------------

/// The bytes of the slot of a value.
pub open spec fn room(e: Env, code: Code, v: usize) -> int {
    e.slot_bytes(code.ty(v)) as int
}

/// What a value that is a word is: its register, or its slot.
pub open spec fn value(e: Env, st: St, fl: Files, v: usize) -> u64 {
    match e.loc(v) {
        Loc::Reg(k) => reg(st, fl(k), k),
        _ => st.at(e.at(v)),
    }
}

/// Whether a parameter is handed over in the register that it already is in.
pub open spec fn in_place(e: Env, p: usize, a: usize) -> bool {
    e.loc(p) is Reg && e.loc(a) == e.loc(p)
}

/// Whether a parameter has a slot that is kept.
pub open spec fn has_slot(e: Env, p: usize) -> bool {
    !(e.loc(p) is Reg) || e.write_through(p)
}

/// Whether `i` is a parameter that an edge assigns.
pub open spec fn assigns(params: Seq<usize>, args: Seq<usize>, i: int) -> bool {
    0 <= i < params.len() && i < args.len()
}

/// What a parameter and an argument of an edge are: slots below the scratch words, registers of
/// one file, a register's worth where the parameter is in one.
pub open spec fn fair(e: Env, code: Code, fl: Files, p: usize, a: usize) -> bool {
    &&& e.at(p) + room(e, code, p) <= e.scratch
    &&& e.at(a) + room(e, code, p) <= e.scratch
    &&& e.loc(p) matches Loc::Reg(k) ==> {
        &&& room(e, code, p) == 8
        &&& fl(k) == (code.ty(p) == Type::F64)
        &&& e.loc(a) matches Loc::Reg(j) ==> fl(j) == fl(k)
    }
}

/// What holds of the places of the values on an edge. Every parameter has a place of its own. An
/// argument's slot is a parameter's of the same size, or has no byte in common with it. A slot that is
/// written from its register before anything is read is no argument's, or is in step already.
#[verifier::opaque]
pub open spec fn edge_fair(
    e: Env,
    code: Code,
    fl: Files,
    params: Seq<usize>,
    args: Seq<usize>,
    st: St,
) -> bool {
    &&& params.len() <= 0xffff_ffff
    &&& forall|i: int| #[trigger]
        assigns(params, args, i) ==> fair(e, code, fl, params[i], args[i])
    &&& forall|i: int, j: int|
        #![trigger assigns(params, args, i), assigns(params, args, j)]
        assigns(params, args, i) && assigns(params, args, j) ==> pair_fair(
            e,
            code,
            fl,
            params,
            args,
            i,
            j,
            st,
        )
}

/// What holds of two of them.
pub open spec fn pair_fair(
    e: Env,
    code: Code,
    fl: Files,
    params: Seq<usize>,
    args: Seq<usize>,
    i: int,
    j: int,
    st: St,
) -> bool {
    &&& i != j ==> !(e.loc(params[i]) is Reg && e.loc(params[i]) == e.loc(params[j]))
    &&& i != j ==> clear(
        e.at(params[i]) as int,
        room(e, code, params[i]),
        e.at(params[j]) as int,
        room(e, code, params[j]),
    )
    &&& if e.at(args[i]) == e.at(params[j]) {
        room(e, code, params[i]) == room(e, code, params[j])
    } else {
        clear(
            e.at(args[i]) as int,
            room(e, code, params[i]),
            e.at(params[j]) as int,
            room(e, code, params[j]),
        )
    }
    &&& e.at(args[i]) == e.at(args[j]) ==> room(e, code, params[i]) == room(
        e,
        code,
        params[j],
    )
    &&& in_place(e, params[i], args[i]) && e.write_through(params[i]) && e.at(args[j])
        == e.at(params[i]) ==> st.at(e.at(params[i])) == value(e, st, fl, args[i])
}

proof fn lemma_fair(e: Env, code: Code, fl: Files, params: Seq<usize>, args: Seq<usize>, i: int, j: int, st: St)
    requires
        edge_fair(e, code, fl, params, args, st),
        assigns(params, args, i),
        assigns(params, args, j),
    ensures
        params.len() <= 0xffff_ffff,
        fair(e, code, fl, params[i], args[i]),
        fair(e, code, fl, params[j], args[j]),
        pair_fair(e, code, fl, params, args, i, j, st),
        pair_fair(e, code, fl, params, args, j, i, st),
{
    reveal(edge_fair);
}

/// Whether a state is another after an edge: every parameter is what its argument was, in its
/// register and in its slot, and nothing else below the scratch words has changed.
pub open spec fn edge_done(
    e: Env,
    code: Code,
    fl: Files,
    params: Seq<usize>,
    args: Seq<usize>,
    st: St,
    after: St,
) -> bool {
    &&& forall|i: int| #[trigger]
        assigns(params, args, i) ==> {
            &&& e.loc(params[i]) is Reg ==> value(e, after, fl, params[i]) == value(
                e,
                st,
                fl,
                args[i],
            )
            &&& has_slot(e, params[i]) && in_place(e, params[i], args[i]) ==> after.at(
                e.at(params[i]),
            ) == value(e, st, fl, args[i])
            &&& has_slot(e, params[i]) && !in_place(e, params[i], args[i]) ==> forall|b: int|
                0 <= b < room(e, code, params[i]) ==> #[trigger] (after.frame)(
                    e.at(params[i]) + b,
                ) == (st.frame)(e.at(args[i]) + b)
        }
    &&& forall|k: u8|
        #![trigger (after.regs)(k)]
        #![trigger (after.floats)(k)]
        (forall|i: int| #[trigger]
            assigns(params, args, i) ==> e.loc(params[i]) != Loc::Reg(k)) ==> (after.regs)(k)
            == (st.regs)(k) && (after.floats)(k) == (st.floats)(k)
    &&& forall|x: int|
        x < e.scratch && (forall|i: int| #[trigger]
            assigns(params, args, i) && has_slot(e, params[i]) ==> x < e.at(params[i]) || e.at(
                params[i],
            ) + room(e, code, params[i]) <= x) ==> #[trigger] (after.frame)(x) == (st.frame)(x)
    &&& after.heap == st.heap
    &&& after.used == st.used
    &&& after.log == st.log
    &&& after.stopped == st.stopped
}

/// The copy into a register that an edge makes for parameter `j`.
spec fn reg_move(e: Env, code: Code, params: Seq<usize>, args: Seq<usize>, j: int) -> Move {
    Move {
        to: Cell::Reg(e.loc(params[j])->Reg_0),
        from: match e.loc(args[j]) {
            Loc::Reg(k) => Cell::Reg(k),
            _ => Cell::Slot(e.at(args[j])),
        },
        n: 8,
        float: code.ty(params[j]) == Type::F64,
    }
}

/// Whether an edge copies into a register for parameter `j`.
spec fn reg_moved(e: Env, params: Seq<usize>, args: Seq<usize>, j: int) -> bool {
    assigns(params, args, j) && e.loc(params[j]) is Reg && !in_place(e, params[j], args[j])
}

/// Whether a copy is that of a parameter from `i` on.
#[verifier::opaque]
spec fn of_reg(e: Env, code: Code, params: Seq<usize>, args: Seq<usize>, i: int, m: Move) -> bool {
    exists|j: int|
        i <= j && #[trigger] reg_moved(e, params, args, j) && m == reg_move(
            e,
            code,
            params,
            args,
            j,
        )
}

proof fn lemma_reg_moves(
    e: Env,
    code: Code,
    fl: Files,
    params: Seq<usize>,
    args: Seq<usize>,
    i: int,
    st: St,
)
    requires
        0 <= i,
        edge_fair(e, code, fl, params, args, st),
    ensures
        ({
            let ms = e.reg_moves(code, params, args, i);
            &&& ms.len() <= params.len() - i || ms.len() == 0
            &&& forall|j: int|
                i <= j && #[trigger] reg_moved(e, params, args, j) ==> ms.contains(
                    reg_move(e, code, params, args, j),
                )
            &&& forall|a: int|
                0 <= a < ms.len() ==> of_reg(e, code, params, args, i, #[trigger] ms[a])
            &&& forall|a: int, b: int|
                0 <= a < b < ms.len() ==> (#[trigger] ms[a]).to != (#[trigger] ms[b]).to
        }),
    decreases params.len() - i,
{
    let ms = e.reg_moves(code, params, args, i);
    if i < params.len() && i < args.len() {
        lemma_reg_moves(e, code, fl, params, args, i + 1, st);
        let rest = e.reg_moves(code, params, args, i + 1);
        assert(assigns(params, args, i));
        assert forall|a: int| 0 <= a < rest.len() implies of_reg(
            e,
            code,
            params,
            args,
            i,
            #[trigger] rest[a],
        ) by {
            assert(of_reg(e, code, params, args, i + 1, rest[a]));
            reveal(of_reg);
        }
        if reg_moved(e, params, args, i) {
            let m = reg_move(e, code, params, args, i);
            assert(ms =~= seq![m] + rest);
            assert(ms[0] == m);
            assert(of_reg(e, code, params, args, i, m)) by {
                reveal(of_reg);
            }
            assert forall|j: int| i <= j && #[trigger] reg_moved(e, params, args, j) implies
                ms.contains(reg_move(e, code, params, args, j)) by {
                if j > i {
                    let x = reg_move(e, code, params, args, j);
                    assert(rest.contains(x));
                    let a = choose|a: int| 0 <= a < rest.len() && rest[a] == x;
                    assert(ms[a + 1] == x);
                }
            }
            assert forall|a: int| 0 <= a < ms.len() implies of_reg(
                e,
                code,
                params,
                args,
                i,
                #[trigger] ms[a],
            ) by {
                if a > 0 {
                    assert(ms[a] == rest[a - 1]);
                }
            }
            assert forall|a: int, b: int| 0 <= a < b < ms.len() implies (#[trigger] ms[a]).to != (#[trigger] ms[b]).to by {
                assert(ms[b] == rest[b - 1]);
                if a > 0 {
                    assert(ms[a] == rest[a - 1]);
                } else {
                    assert(of_reg(e, code, params, args, i + 1, rest[b - 1]));
                    reveal(of_reg);
                    let j = choose|j: int|
                        i + 1 <= j && #[trigger] reg_moved(e, params, args, j) && rest[b - 1]
                            == reg_move(e, code, params, args, j);
                    lemma_fair(e, code, fl, params, args, i, j, st);
                }
            }
        } else {
            assert(ms == rest);
        }
    }
}

/// Whether the places that two copies write have no byte in common.
spec fn apart_to(a: Move, b: Move) -> bool {
    disjoint(offset(a.to), a.n as int, offset(b.to), b.n as int)
}

/// The copy into a slot that an edge makes for parameter `j`.
spec fn slot_move(e: Env, code: Code, params: Seq<usize>, args: Seq<usize>, j: int) -> Move {
    Move {
        to: Cell::Slot(e.at(params[j])),
        from: Cell::Slot(e.at(args[j])),
        n: e.slot_bytes(code.ty(params[j])),
        float: false,
    }
}

/// Whether an edge copies into a slot for parameter `j`.
spec fn slot_moved(e: Env, params: Seq<usize>, args: Seq<usize>, j: int) -> bool {
    assigns(params, args, j) && has_slot(e, params[j]) && !in_place(e, params[j], args[j]) && e.at(
        params[j],
    ) != e.at(args[j])
}

/// Whether a copy is that of a parameter from `i` on.
#[verifier::opaque]
spec fn of_slot(e: Env, code: Code, params: Seq<usize>, args: Seq<usize>, i: int, m: Move) -> bool {
    exists|j: int|
        i <= j && #[trigger] slot_moved(e, params, args, j) && m == slot_move(
            e,
            code,
            params,
            args,
            j,
        )
}

proof fn lemma_slot_moves(
    e: Env,
    code: Code,
    fl: Files,
    params: Seq<usize>,
    args: Seq<usize>,
    i: int,
    st: St,
)
    requires
        0 <= i,
        edge_fair(e, code, fl, params, args, st),
    ensures
        ({
            let ms = e.slot_moves(code, params, args, i);
            &&& ms.len() <= params.len() - i || ms.len() == 0
            &&& forall|j: int|
                i <= j && #[trigger] slot_moved(e, params, args, j) ==> ms.contains(
                    slot_move(e, code, params, args, j),
                )
            &&& forall|a: int|
                0 <= a < ms.len() ==> of_slot(e, code, params, args, i, #[trigger] ms[a])
            &&& forall|a: int, b: int|
                0 <= a < b < ms.len() ==> apart_to((#[trigger] ms[a]), (#[trigger] ms[b]))
        }),
    decreases params.len() - i,
{
    let ms = e.slot_moves(code, params, args, i);
    if i < params.len() && i < args.len() {
        lemma_slot_moves(e, code, fl, params, args, i + 1, st);
        let rest = e.slot_moves(code, params, args, i + 1);
        assert(assigns(params, args, i));
        assert forall|a: int| 0 <= a < rest.len() implies of_slot(
            e,
            code,
            params,
            args,
            i,
            #[trigger] rest[a],
        ) by {
            assert(of_slot(e, code, params, args, i + 1, rest[a]));
            reveal(of_slot);
        }
        if slot_moved(e, params, args, i) {
            let m = slot_move(e, code, params, args, i);
            assert(ms =~= seq![m] + rest);
            assert(ms[0] == m);
            assert(of_slot(e, code, params, args, i, m)) by {
                reveal(of_slot);
            }
            assert forall|j: int| i <= j && #[trigger] slot_moved(e, params, args, j) implies
                ms.contains(slot_move(e, code, params, args, j)) by {
                if j > i {
                    let x = slot_move(e, code, params, args, j);
                    assert(rest.contains(x));
                    let a = choose|a: int| 0 <= a < rest.len() && rest[a] == x;
                    assert(ms[a + 1] == x);
                }
            }
            assert forall|a: int| 0 <= a < ms.len() implies of_slot(
                e,
                code,
                params,
                args,
                i,
                #[trigger] ms[a],
            ) by {
                if a > 0 {
                    assert(ms[a] == rest[a - 1]);
                }
            }
            assert forall|a: int, b: int| 0 <= a < b < ms.len() implies apart_to((#[trigger] ms[a]), (#[trigger] ms[b])) by {
                assert(ms[b] == rest[b - 1]);
                if a > 0 {
                    assert(ms[a] == rest[a - 1]);
                } else {
                    assert(of_slot(e, code, params, args, i + 1, rest[b - 1]));
                    reveal(of_slot);
                    let j = choose|j: int|
                        i + 1 <= j && #[trigger] slot_moved(e, params, args, j) && rest[b - 1]
                            == slot_move(e, code, params, args, j);
                    lemma_fair(e, code, fl, params, args, i, j, st);
                }
            }
        } else {
            assert(ms == rest);
        }
    }
}

proof fn lemma_blocks_most(p: Seq<Move>, n: int)
    requires
        0 <= n,
    ensures
        blocks(p, n) <= n,
    decreases n,
{
    if n > 0 {
        lemma_blocks_most(p, n - 1);
    }
}

/// The bytes of a word are those that it was read from.
pub proof fn lemma_word_bytes(m: Frame, a: int)
    ensures
        le64(word(m, a)) == Seq::new(8, |i: int| m(a + i)),
{
    reveal(word);
    let s = Seq::new(8, |i: int| m(a + i));
    let w = of64(s, 0);
    let lo = crate::bytes::of32(s, 0);
    let hi = crate::bytes::of32(s, 4);
    lemma_bytes_of32(s[0], s[1], s[2], s[3], lo);
    lemma_bytes_of32(s[4], s[5], s[6], s[7], hi);
    assert((w & 0xffff_ffff) as u32 == lo && (w >> 32) as u32 == hi) by (bit_vector)
        requires
            w == (lo as u64) | ((hi as u64) << 32),
    ;
    assert(le64(w) =~= s);
}

/// Writing what a word holds changes nothing.
proof fn lemma_put_same(m: Frame, a: int)
    ensures
        forall|x: int| #[trigger] put(m, a, word(m, a))(x) == m(x),
{
    reveal(put);
    lemma_word_bytes(m, a);
}

proof fn lemma_bytes_of32(a: u8, b: u8, c: u8, d: u8, w: u32)
    requires
        w == (a as u32) | ((b as u32) << 8) | ((c as u32) << 16) | ((d as u32) << 24),
    ensures
        (w & 0xff) as u8 == a,
        ((w >> 8) & 0xff) as u8 == b,
        ((w >> 16) & 0xff) as u8 == c,
        ((w >> 24) & 0xff) as u8 == d,
{
    assert((w & 0xff) as u8 == a && ((w >> 8) & 0xff) as u8 == b && ((w >> 16) & 0xff) as u8 == c
        && ((w >> 24) & 0xff) as u8 == d) by (bit_vector)
        requires
            w == (a as u32) | ((b as u32) << 8) | ((c as u32) << 16) | ((d as u32) << 24),
    ;
}

/// Whether an edge writes the slot of parameter `j` from its register before anything else.
spec fn early(e: Env, params: Seq<usize>, args: Seq<usize>, j: int) -> bool {
    assigns(params, args, j) && in_place(e, params[j], args[j]) && e.write_through(params[j])
}

/// What has been done before parameter `i`.
spec fn early_done(
    e: Env,
    code: Code,
    fl: Files,
    params: Seq<usize>,
    args: Seq<usize>,
    i: int,
    st: St,
    now: St,
) -> bool {
    &&& now == (St { frame: now.frame, ..st })
    &&& forall|j: int|
        j < i && #[trigger] early(e, params, args, j) ==> now.at(e.at(params[j])) == value(
            e,
            st,
            fl,
            args[j],
        )
    &&& forall|x: int|
        (forall|j: int| #[trigger]
            early(e, params, args, j) ==> x < e.at(params[j]) || e.at(params[j]) + 8 <= x)
            ==> #[trigger] (now.frame)(x) == (st.frame)(x)
    &&& forall|j: int, b: int|
        assigns(params, args, j) && 0 <= b < room(e, code, params[j]) ==> #[trigger] (now.frame)(
            e.at(args[j]) + b,
        ) == (st.frame)(e.at(args[j]) + b)
}

proof fn lemma_early(
    r: Run,
    e: Env,
    code: Code,
    fl: Files,
    s: Sel,
    params: Seq<usize>,
    args: Seq<usize>,
    i: int,
    st: St,
    now: St,
) -> (after: St)
    requires
        moves_registers(r.m),
        0 <= i,
        r.has(s.edge_stores(e, code, params, args, i)),
        edge_fair(e, code, fl, params, args, st),
        early_done(e, code, fl, params, args, i, st, now),
    ensures
        r.has(s),
        r.goes(
            s.ops.len() as int,
            now,
            s.edge_stores(e, code, params, args, i).ops.len() as int,
            after,
        ),
        early_done(e, code, fl, params, args, params.len() as int, st, after),
    decreases params.len() - i,
{
    let pc = s.ops.len() as int;
    let end = s.edge_stores(e, code, params, args, i);
    if i >= params.len() || i >= args.len() {
        r.lemma_stays(pc, now);
        now
    } else if !early(e, params, args, i) {
        assert(assigns(params, args, i));
        assert(end == s.edge_stores(e, code, params, args, i + 1));
        lemma_early(r, e, code, fl, s, params, args, i + 1, st, now)
    } else {
        let p = params[i];
        let a = args[i];
        let d = e.at(p);
        let k = e.loc(p)->Reg_0;
        let float = code.ty(p) == Type::F64;
        let t = s.store_reg(d, k, float);
        assert(end == t.edge_stores(e, code, params, args, i + 1));
        assert(r.has(t)) by {
            broadcast use crate::grown::adds_edge_stores;

            reveal(adds);
        }
        let o = op_to(
            (if float {
                "stwg/r"@
            } else {
                "stw/r"@
            }) + decimal(k as nat),
            d,
        );
        assert(t == s.add(o));
        reveal_with_fuel(hole, 5);
        r.lemma_add(s, o, now);
        lemma_fair(e, code, fl, params, args, i, i, st);
        let v = value(e, st, fl, a);
        assert(v == reg(now, float, k));
        let mid = now.with(d, v);
        assert((r.m.does)(o, now) == mid);
        assert(early_done(e, code, fl, params, args, i + 1, st, mid)) by {
            broadcast use {word_of_put, word_beside_put, byte_beside_put};

            assert forall|j: int| j < i + 1 && #[trigger] early(e, params, args, j) implies mid.at(
                e.at(params[j]),
            ) == value(e, st, fl, args[j]) by {
                if j < i {
                    lemma_fair(e, code, fl, params, args, i, j, st);
                }
            }
            assert forall|x: int|
                (forall|j: int| #[trigger]
                    early(e, params, args, j) ==> x < e.at(params[j]) || e.at(params[j]) + 8 <= x)
                implies #[trigger] (mid.frame)(x) == (st.frame)(x) by {
                assert((now.frame)(x) == (st.frame)(x));
            }
            assert forall|j: int, b: int|
                assigns(params, args, j) && 0 <= b < room(e, code, params[j]) implies #[trigger] (
            mid.frame)(e.at(args[j]) + b) == (st.frame)(e.at(args[j]) + b) by {
                lemma_fair(e, code, fl, params, args, i, j, st);
                assert((now.frame)(e.at(args[j]) + b) == (st.frame)(e.at(args[j]) + b));
                if e.at(args[j]) == d {
                    lemma_put_same(now.frame, d as int);
                    assert(now.at(d) == st.at(d)) by {
                        assert forall|q: int| 0 <= q < 8 implies #[trigger] (now.frame)(d + q)
                            == (st.frame)(d + q) by {
                            assert((now.frame)(e.at(args[j]) + q) == (st.frame)(e.at(args[j]) + q));
                        }
                        reveal(word);
                        assert(Seq::new(8, |q: int| (now.frame)(d + q)) =~= Seq::new(
                            8,
                            |q: int| (st.frame)(d + q),
                        ));
                    }
                }
            }
        }
        let after = lemma_early(r, e, code, fl, t, params, args, i + 1, st, mid);
        r.lemma_on(pc, now, t.ops.len() as int, mid, end.ops.len() as int, after);
        after
    }
}

/// Copies into registers that are made at once.
proof fn lemma_late_regs(
    r: Run,
    e: Env,
    code: Code,
    fl: Files,
    s: Sel,
    params: Seq<usize>,
    args: Seq<usize>,
    st: St,
    now: St,
) -> (after: St)
    requires
        moves_registers(r.m),
        r.has(s.copies_at_once(e.reg_moves(code, params, args, 0), e.word(7))),
        edge_fair(e, code, fl, params, args, st),
        early_done(e, code, fl, params, args, params.len() as int, st, now),
    ensures
        r.has(s),
        r.goes(
            s.ops.len() as int,
            now,
            s.copies_at_once(e.reg_moves(code, params, args, 0), e.word(7)).ops.len() as int,
            after,
        ),
        regs_only(now, after, fl, e.word(7) as int),
        forall|i: int| #[trigger]
            assigns(params, args, i) && e.loc(params[i]) is Reg ==> value(e, after, fl, params[i])
                == value(e, st, fl, args[i]),
        forall|k: u8|
            #![trigger fl(k)]
            (forall|i: int| #[trigger]
                assigns(params, args, i) ==> e.loc(params[i]) != Loc::Reg(k)) ==> reg(
                after,
                fl(k),
                k,
            ) == reg(st, fl(k), k),
{
    let ms = e.reg_moves(code, params, args, 0);
    let tmp = e.word(7);
    let lim = tmp as int;
    lemma_reg_moves(e, code, fl, params, args, 0, st);
    lemma_blocks_most(ms, ms.len() as int);
    reveal(edge_fair);
    let f = |c: Cell| cell(now, fl, c);
    assert forall|a: int| 0 <= a < ms.len() implies reg_form(#[trigger] ms[a], fl, lim)
        && ms[a].to is Reg && !scratch(ms[a].to, lim) && !scratch(ms[a].from, lim) by {
        assert(of_reg(e, code, params, args, 0, ms[a]));
        reveal(of_reg);
        let j = choose|j: int|
            0 <= j && #[trigger] reg_moved(e, params, args, j) && ms[a] == reg_move(
                e,
                code,
                params,
                args,
                j,
            );
        assert(assigns(params, args, j));
    }
    assert(ms.len() <= 0xffff_ffff);
    lemma_reg_shape(ms, tmp, fl, lim);
    a_shuffle_is_a_parallel_assignment(ms, tmp, f);
    let sh = shuffle(ms, tmp).0;
    assert(s.copies_at_once(ms, tmp) == s.copies(sh, 0));
    let after = lemma_copies_reg(r, s, sh, 0, f, fl, lim, now);
    assert(sh.subrange(0, sh.len() as int) =~= sh);
    let out = run(f, sh);
    assert forall|i: int| #[trigger]
        assigns(params, args, i) && e.loc(params[i]) is Reg implies value(e, after, fl, params[i])
        == value(e, st, fl, args[i]) by {
        let k = e.loc(params[i])->Reg_0;
        let c = Cell::Reg(k);
        assert(out(c) == cell(after, fl, c));
        if in_place(e, params[i], args[i]) {
            lemma_writes(ms, c, 0);
            assert(!writes(ms, c, 0)) by {
                if writes(ms, c, 0) {
                    let a = choose|a: int| 0 <= a < ms.len() && (#[trigger] ms[a]).to == c;
                    assert(of_reg(e, code, params, args, 0, ms[a]));
                    reveal(of_reg);
                    let j = choose|j: int|
                        0 <= j && #[trigger] reg_moved(e, params, args, j) && ms[a] == reg_move(
                            e,
                            code,
                            params,
                            args,
                            j,
                        );
                    assert(assigns(params, args, j));
                    lemma_fair(e, code, fl, params, args, i, j, st);
                }
            }
            assert(out(c) == f(c));
        } else {
            assert(reg_moved(e, params, args, i));
            let x = reg_move(e, code, params, args, i);
            assert(ms.contains(x));
            let a = choose|a: int| 0 <= a < ms.len() && ms[a] == x;
            assert(out(ms[a].to) == f(ms[a].from));
            if !(e.loc(args[i]) is Reg) {
                lemma_fair(e, code, fl, params, args, i, i, st);
                let d = e.at(args[i]);
                assert(now.at(d) == st.at(d)) by {
                    assert forall|q: int| 0 <= q < 8 implies #[trigger] (now.frame)(d + q) == (
                    st.frame)(d + q) by {
                        assert((now.frame)(e.at(args[i]) + q) == (st.frame)(e.at(args[i]) + q));
                    }
                    reveal(word);
                    assert(Seq::new(8, |q: int| (now.frame)(d + q)) =~= Seq::new(
                        8,
                        |q: int| (st.frame)(d + q),
                    ));
                }
            }
        }
    }
    assert forall|k: u8|
        #![trigger fl(k)]
        (forall|i: int| #[trigger]
            assigns(params, args, i) ==> e.loc(params[i]) != Loc::Reg(k)) implies reg(
        after,
        fl(k),
        k,
    ) == reg(st, fl(k), k) by {
        let c = Cell::Reg(k);
        lemma_writes(ms, c, 0);
        assert(!writes(ms, c, 0)) by {
            if writes(ms, c, 0) {
                let a = choose|a: int| 0 <= a < ms.len() && (#[trigger] ms[a]).to == c;
                assert(of_reg(e, code, params, args, 0, ms[a]));
                reveal(of_reg);
                let j = choose|j: int|
                    0 <= j && #[trigger] reg_moved(e, params, args, j) && ms[a] == reg_move(
                        e,
                        code,
                        params,
                        args,
                        j,
                    );
                assert(assigns(params, args, j));
            }
        }
        assert(out(c) == f(c));
        assert(out(c) == cell(after, fl, c));
    }
    after
}

/// A byte that an edge copies into is one of the slot of a parameter that it copies for.
proof fn lemma_covered(e: Env, code: Code, params: Seq<usize>, args: Seq<usize>, ms: Seq<Move>, x: int) -> (j:
    int)
    requires
        forall|a: int|
            0 <= a < ms.len() ==> of_slot(e, code, params, args, 0, #[trigger] ms[a]),
        covered(ms, x),
    ensures
        slot_moved(e, params, args, j),
        e.at(params[j]) <= x < e.at(params[j]) + room(e, code, params[j]),
{
    let a = choose|a: int|
        0 <= a < ms.len() && offset((#[trigger] ms[a]).to) <= x < offset(ms[a].to) + ms[a].n;
    assert(of_slot(e, code, params, args, 0, ms[a]));
    reveal(of_slot);
    choose|j: int|
        0 <= j && #[trigger] slot_moved(e, params, args, j) && ms[a] == slot_move(
            e,
            code,
            params,
            args,
            j,
        )
}

/// Copies into slots that are made at once.
proof fn lemma_late_slots(
    r: Run,
    e: Env,
    code: Code,
    fl: Files,
    s: Sel,
    params: Seq<usize>,
    args: Seq<usize>,
    st: St,
    now: St,
) -> (after: St)
    requires
        copies_words(r.m),
        r.has(s.copies_at_once(e.slot_moves(code, params, args, 0), e.word(6))),
        edge_fair(e, code, fl, params, args, st),
    ensures
        r.has(s),
        r.goes(
            s.ops.len() as int,
            now,
            s.copies_at_once(e.slot_moves(code, params, args, 0), e.word(6)).ops.len() as int,
            after,
        ),
        after == (St { frame: after.frame, ..now }),
        forall|i: int, b: int|
            slot_moved(e, params, args, i) && 0 <= b < room(e, code, params[i]) ==> #[trigger] (
            after.frame)(e.at(params[i]) + b) == (now.frame)(e.at(args[i]) + b),
        forall|x: int|
            x < e.scratch && (forall|j: int| #[trigger]
                slot_moved(e, params, args, j) ==> x < e.at(params[j]) || e.at(params[j]) + room(
                    e,
                    code,
                    params[j],
                ) <= x) ==> #[trigger] (after.frame)(x) == (now.frame)(x),
{
    let ms = e.slot_moves(code, params, args, 0);
    let tmp = e.word(6);
    let lim = tmp as int;
    let most = 0x2_0000_0000int;
    lemma_slot_moves(e, code, fl, params, args, 0, st);
    lemma_blocks_most(ms, ms.len() as int);
    assert(ms.len() <= 0xffff_ffff) by {
        reveal(edge_fair);
    }
    assert forall|a: int| 0 <= a < ms.len() implies exists|j: int| #[trigger]
        slot_moved(e, params, args, j) && #[trigger] ms[a] == slot_move(
            e,
            code,
            params,
            args,
            j,
        ) by {
        assert(of_slot(e, code, params, args, 0, ms[a]));
        reveal(of_slot);
    }
    assert(slots_below(ms, lim, most)) by {
        assert forall|a: int| 0 <= a < ms.len() implies ({
            &&& slot_form(#[trigger] ms[a])
            &&& ms[a].n <= most
            &&& offset(ms[a].to) + ms[a].n <= lim
            &&& offset(ms[a].from) + ms[a].n <= lim || offset(ms[a].from) >= lim
            &&& ms[a].n > 0
        }) by {
            let j = choose|j: int| #[trigger]
                slot_moved(e, params, args, j) && ms[a] == slot_move(e, code, params, args, j);
            lemma_fair(e, code, fl, params, args, j, j, st);
        }
    }
    assert(dests_apart(ms, lim)) by {
        assert forall|a: int, b: int| 0 <= a < b < ms.len() implies disjoint(
            offset((#[trigger] ms[a]).to),
            ms[a].n as int,
            offset((#[trigger] ms[b]).to),
            ms[b].n as int,
        ) by {
            assert(apart_to(ms[a], ms[b]));
        }
        assert forall|a: int| 0 <= a < ms.len() implies (#[trigger] ms[a]).to is Slot && ms[a].n > 0
            && offset(ms[a].to) + ms[a].n <= lim by {
            assert(slot_form(ms[a]));
        }
    }
    assert(sources_apart(ms, lim)) by {
        assert forall|a: int| 0 <= a < ms.len() implies (#[trigger] ms[a]).from is Slot && (offset(
            ms[a].from,
        ) >= lim || offset(ms[a].from) + ms[a].n <= lim) by {
            assert(slot_form(ms[a]));
        }
        assert forall|a: int, b: int|
            #![trigger ms[a], ms[b]]
            0 <= a < ms.len() && 0 <= b < ms.len() implies (ms[a].from == ms[b].from ==> ms[a].n
            == ms[b].n) && crate::edges::source_apart(ms[a], ms[b]) by {
            let i = choose|i: int| #[trigger]
                slot_moved(e, params, args, i) && ms[a] == slot_move(e, code, params, args, i);
            let j = choose|j: int| #[trigger]
                slot_moved(e, params, args, j) && ms[b] == slot_move(e, code, params, args, j);
            lemma_fair(e, code, fl, params, args, i, j, st);
        }
    }
    assert forall|a: int| 0 <= a < ms.len() implies offset((#[trigger] ms[a]).from) + ms[a].n
        <= tmp by {
        let j = choose|j: int| #[trigger]
            slot_moved(e, params, args, j) && ms[a] == slot_move(e, code, params, args, j);
        lemma_fair(e, code, fl, params, args, j, j, st);
    }
    lemma_slot_shape(ms, tmp, lim, most);
    a_shuffle_assigns_every_byte(ms, tmp, now.frame);
    let sh = shuffle(ms, tmp).0;
    assert(s.copies_at_once(ms, tmp) == s.copies(sh, 0));
    let after = lemma_copies_slot(r, s, sh, 0, now);
    assert(sh.subrange(0, sh.len() as int) =~= sh);
    assert(assigned(ms, lim, now.frame, after.frame));
    assert forall|i: int, b: int|
        slot_moved(e, params, args, i) && 0 <= b < room(e, code, params[i]) implies #[trigger] (
    after.frame)(e.at(params[i]) + b) == (now.frame)(e.at(args[i]) + b) by {
        let x = slot_move(e, code, params, args, i);
        assert(ms.contains(x));
        let a = choose|a: int| 0 <= a < ms.len() && ms[a] == x;
        assert((after.frame)(byte_at(ms[a].to, b)) == (now.frame)(byte_at(ms[a].from, b)));
    }
    assert forall|x: int|
        x < e.scratch && (forall|j: int| #[trigger]
            slot_moved(e, params, args, j) ==> x < e.at(params[j]) || e.at(params[j]) + room(
                e,
                code,
                params[j],
            ) <= x) implies #[trigger] (after.frame)(x) == (now.frame)(x) by {
        if covered(ms, x) {
            let j = lemma_covered(e, code, params, args, ms, x);
        }
    }
    after
}

/// An edge hands over its arguments: running its operations, however the registers and the slots of
/// the arguments and of the parameters are mixed, leaves every parameter of the block with what its
/// argument was before, as one assignment.
pub proof fn an_edge_assigns_the_parameters(
    r: Run,
    e: Env,
    code: Code,
    fl: Files,
    s: Sel,
    t: Target,
    st: St,
) -> (after: St)
    requires
        copies_words(r.m),
        moves_registers(r.m),
        r.has(s.edge(e, code, t)),
        edge_fair(e, code, fl, code.params(t.block), t.args@, st),
    ensures
        r.has(s),
        r.goes(s.ops.len() as int, st, s.edge(e, code, t).ops.len() as int, after),
        edge_done(e, code, fl, code.params(t.block), t.args@, st, after),
{
    let params = code.params(t.block);
    let args = t.args@;
    let s1 = s.edge_stores(e, code, params, args, 0);
    let rm = e.reg_moves(code, params, args, 0);
    let sm = e.slot_moves(code, params, args, 0);
    let s2 = s1.copies_at_once(rm, e.word(7));
    let s3 = s2.copies_at_once(sm, e.word(6));
    assert(r.has(s2) && r.has(s1)) by {
        broadcast use crate::grown::adds_copies_at_once;

        reveal(adds);
    }
    assert(early_done(e, code, fl, params, args, 0, st, st));
    let a = lemma_early(r, e, code, fl, s, params, args, 0, st, st);
    let b = lemma_late_regs(r, e, code, fl, s1, params, args, st, a);
    let c = lemma_late_slots(r, e, code, fl, s2, params, args, st, b);
    let pc = s.ops.len() as int;
    r.lemma_on(pc, st, s1.ops.len() as int, a, s2.ops.len() as int, b);
    r.lemma_on(pc, st, s2.ops.len() as int, b, s3.ops.len() as int, c);
    assert forall|i: int| #[trigger] assigns(params, args, i) implies ({
        &&& e.loc(params[i]) is Reg ==> value(e, c, fl, params[i]) == value(e, st, fl, args[i])
        &&& has_slot(e, params[i]) && in_place(e, params[i], args[i]) ==> c.at(e.at(params[i]))
            == value(e, st, fl, args[i])
        &&& has_slot(e, params[i]) && !in_place(e, params[i], args[i]) ==> forall|q: int|
            0 <= q < room(e, code, params[i]) ==> #[trigger] (c.frame)(e.at(params[i]) + q) == (
            st.frame)(e.at(args[i]) + q)
    }) by {
        lemma_fair(e, code, fl, params, args, i, i, st);
        let d = e.at(params[i]);
        assert forall|q: int|
            !slot_moved(e, params, args, i) && 0 <= q < room(e, code, params[i]) implies #[trigger] (
        c.frame)(d + q) == (a.frame)(d + q) by {
            assert forall|j: int| #[trigger] slot_moved(e, params, args, j) implies d + q < e.at(
                params[j],
            ) || e.at(params[j]) + room(e, code, params[j]) <= d + q by {
                lemma_fair(e, code, fl, params, args, i, j, st);
            }
            assert((c.frame)(d + q) == (b.frame)(d + q));
        }
        if has_slot(e, params[i]) && in_place(e, params[i], args[i]) {
            assert(early(e, params, args, i));
            assert(c.at(d) == a.at(d)) by {
                reveal(word);
                assert(Seq::new(8, |q: int| (c.frame)(d + q)) =~= Seq::new(
                    8,
                    |q: int| (a.frame)(d + q),
                ));
            }
        }
        if has_slot(e, params[i]) && !in_place(e, params[i], args[i]) {
            assert forall|q: int| 0 <= q < room(e, code, params[i]) implies #[trigger] (c.frame)(
                d + q,
            ) == (st.frame)(e.at(args[i]) + q) by {
                assert((a.frame)(e.at(args[i]) + q) == (st.frame)(e.at(args[i]) + q));
                if slot_moved(e, params, args, i) {
                    assert((c.frame)(e.at(params[i]) + q) == (b.frame)(e.at(args[i]) + q));
                }
            }
        }
    }
    assert forall|x: int|
        x < e.scratch && (forall|i: int| #[trigger]
            assigns(params, args, i) && has_slot(e, params[i]) ==> x < e.at(params[i]) || e.at(
                params[i],
            ) + room(e, code, params[i]) <= x) implies #[trigger] (c.frame)(x) == (st.frame)(x) by {
        assert forall|j: int| #[trigger] slot_moved(e, params, args, j) implies x < e.at(params[j])
            || e.at(params[j]) + room(e, code, params[j]) <= x by {
            assert(assigns(params, args, j));
        }
        assert forall|j: int| #[trigger] early(e, params, args, j) implies x < e.at(params[j])
            || e.at(params[j]) + 8 <= x by {
            assert(assigns(params, args, j));
            lemma_fair(e, code, fl, params, args, j, j, st);
        }
        assert((c.frame)(x) == (b.frame)(x));
        assert((a.frame)(x) == (st.frame)(x));
    }
    assert forall|k: u8|
        #![trigger (c.regs)(k)]
        #![trigger (c.floats)(k)]
        (forall|i: int| #[trigger]
            assigns(params, args, i) ==> e.loc(params[i]) != Loc::Reg(k)) implies (c.regs)(k) == (
    st.regs)(k) && (c.floats)(k) == (st.floats)(k) by {
        let file = fl(k);
    }
    c
}

// ---------------------------------------------------------------------------
// Branches
// ---------------------------------------------------------------------------

/// What comparisons answer, of the words of two values of a type.
pub type Verdict = spec_fn(BinOp, Prim, u64, u64) -> bool;

/// The letters of a comparison in the key of a stencil.
pub open spec fn letters(op: BinOp) -> Seq<char> {
    match op {
        BinOp::Eq => "eq"@,
        BinOp::Ne => "ne"@,
        BinOp::Lt => "lt"@,
        BinOp::Le => "le"@,
        BinOp::Gt => "gt"@,
        _ => "ge"@,
    }
}

/// Whether an operator compares.
pub open spec fn compares(op: BinOp) -> bool {
    op == BinOp::Eq || op == BinOp::Ne || op == BinOp::Lt || op == BinOp::Le || op == BinOp::Gt || op
        == BinOp::Ge
}

/// Where an operand of a branch is.
pub enum Side {
    Slot,
    Reg(u8),
    Literal,
}

impl Side {
    /// The letters of the place in the key of a stencil.
    pub open spec fn letters(self) -> Seq<char> {
        match self {
            Side::Slot => "f"@,
            Side::Reg(k) => "r"@ + decimal(k as nat),
            Side::Literal => "i"@,
        }
    }

    /// The word that is there.
    pub open spec fn word(self, st: St, float: bool, at: u64, k: u64) -> u64 {
        match self {
            Side::Slot => st.at(at),
            Side::Reg(j) => reg(st, float, j),
            Side::Literal => k,
        }
    }
}

/// The operation of a branch on a comparison.
pub open spec fn op_compare(key: Seq<char>, a: u64, b: u64, k: u64, tv: V, fv: V) -> Item {
    Item::Stencil {
        key,
        binds: seq![
            (H::A, V::I(a)),
            (H::B, V::I(b)),
            (H::K, V::I(k)),
            (H::T, tv),
            (H::F, fv),
        ],
    }
}

/// The key of a branch on a comparison.
pub open spec fn compare_key(op: BinOp, p: Prim, a: Side, b: Side) -> Seq<char> {
    "brcmp/"@ + letters(op) + "/"@ + (tag_of(p)->0).0 + "/"@ + a.letters() + b.letters()
}

/// Branches test a truth value or a comparison, and do nothing else.
pub open spec fn branches(m: Machine, v: Verdict) -> bool {
    &&& forall|key: Seq<char>, x: Side, a: u64, tv: V, fv: V, st: St|
        #![trigger (m.does)(crate::machine::op_test(key, a, tv, fv), st), x.letters()]
        twin(key, "br/"@ + x.letters()) ==> {
            let o = crate::machine::op_test(key, a, tv, fv);
            (m.does)(o, st) == st && (m.holds)(o, st) == (x.word(st, false, a, 0) != 0)
        }
    &&& forall|key: Seq<char>, op: BinOp, p: Prim, x: Side, y: Side, a: u64, b: u64, k: u64, tv: V, fv: V, st: St|
        #![trigger (m.does)(op_compare(key, a, b, k, tv, fv), st), compare_key(op, p, x, y)]
        compares(op) && tag_of(p) is Some && twin(key, compare_key(op, p, x, y)) ==> {
            let o = op_compare(key, a, b, k, tv, fv);
            let float = p == Prim::F64;
            (m.does)(o, st) == st && (m.holds)(o, st) == v(
                op,
                p,
                x.word(st, float, a, k),
                y.word(st, float, b, k),
            )
        }
}

/// Where a value is for a branch.
pub open spec fn side(e: Env, v: usize) -> Side {
    match e.loc(v) {
        Loc::Reg(k) => Side::Reg(k),
        Loc::Frame => Side::Slot,
        Loc::Imm => Side::Literal,
    }
}

/// Whether the condition of a branch holds: its truth value, or the comparison that it was folded
/// into.
pub open spec fn decides(
    e: Env,
    v: Verdict,
    cond: usize,
    compare: Option<(BinOp, Prim, usize, usize)>,
    st: St,
) -> bool {
    match compare {
        None => side(e, cond).word(st, false, e.at(cond), 0) != 0,
        Some(c) => {
            let float = c.1 == Prim::F64;
            let k = e.constant(c.3);
            let x = side(e, c.2).word(st, float, e.at(c.2), k);
            let y = if e.folded(c.3) {
                k
            } else {
                side(e, c.3).word(st, float, e.at(c.3), k)
            };
            v(c.0, c.1, x, y)
        },
    }
}

/// A branch's test goes to its one arm where the condition holds and to the other where not.
proof fn lemma_cond(
    r: Run,
    v: Verdict,
    e: Env,
    s: Sel,
    cond: usize,
    compare: Option<(BinOp, Prim, usize, usize)>,
    tv: V,
    fv: V,
    fall: Option<H>,
    st: St,
)
    requires
        branches(r.m, v),
        e.cond_key(cond, compare) is Some,
        compare matches Some(c) ==> compares(c.0),
        r.has(s.cond(e, cond, compare, tv, fv, fall)),
    ensures
        r.has(s),
        s.cond(e, cond, compare, tv, fv, fall).ops.len() == s.ops.len() + 1,
        r.goes(
            s.ops.len() as int,
            st,
            r.goto(
                Some(
                    if decides(e, v, cond, compare, st) {
                        tv
                    } else {
                        fv
                    },
                ),
                s.ops.len() as int,
            ),
            st,
        ),
{
    let k = e.cond_key(cond, compare)->0;
    let key = match fall {
        Some(f) => e.arm(k, f),
        None => k,
    };
    assert(twin(key, k));
    reveal_with_fuel(hole, 7);
    let t = s.cond(e, cond, compare, tv, fv, fall);
    match compare {
        None => {
            let x = side(e, cond);
            assert(x.letters() == e.loc(cond).letters());
            let o = crate::machine::op_test(key, e.at(cond), tv, fv);
            assert(t == s.add(o));
            r.lemma_two(s, o, tv, fv, st);
        },
        Some(c) => {
            let x = side(e, c.2);
            let y = if e.folded(c.3) {
                Side::Literal
            } else {
                side(e, c.3)
            };
            assert(x.letters() == e.loc(c.2).letters());
            assert(k == compare_key(c.0, c.1, x, y));
            let o = op_compare(key, e.at(c.2), e.at(c.3), e.constant(c.3), tv, fv);
            assert(t == s.add(o));
            r.lemma_two(s, o, tv, fv, st);
        },
    }
}

/// Whether the block laid out next starts where some operations end.
pub open spec fn laid_out(r: Run, next: Option<usize>, s: Sel) -> bool {
    next matches Some(b) ==> (r.at)(b) == s.ops.len()
}

/// A branch goes where its condition says: to the block of its first target where the condition
/// holds and to that of its second where it does not, whichever of them is laid out next, with the
/// parameters of that block assigned from the arguments of that target.
pub proof fn a_branch_reaches_the_block_that_its_condition_picks(
    r: Run,
    v: Verdict,
    e: Env,
    code: Code,
    fl: Files,
    s: Sel,
    next: Option<usize>,
    cond: usize,
    yes: Target,
    no: Target,
    compare: Option<(BinOp, Prim, usize, usize)>,
    tagsw: Option<usize>,
    st: St,
) -> (after: St)
    requires
        r.wf(),
        leads(r.m),
        copies_words(r.m),
        moves_registers(r.m),
        branches(r.m, v),
        e.cond_key(cond, compare) is Some,
        compare matches Some(c) ==> compares(c.0),
        edge_fair(e, code, fl, code.params(yes.block), yes.args@, st),
        edge_fair(e, code, fl, code.params(no.block), no.args@, st),
        r.has(
            s.term(
                e,
                code,
                next,
                Term::Branch { cond, then: yes, else_: no },
                compare,
                tagsw,
            ),
        ),
        laid_out(
            r,
            next,
            s.term(
                e,
                code,
                next,
                Term::Branch { cond, then: yes, else_: no },
                compare,
                tagsw,
            ),
        ),
    ensures
        ({
            let to = if decides(e, v, cond, compare, st) {
                yes
            } else {
                no
            };
            &&& r.goes(s.ops.len() as int, st, (r.at)(to.block), after)
            &&& edge_done(e, code, fl, code.params(to.block), to.args@, st, after)
        }),
{
    let holds = decides(e, v, cond, compare, st);
    let to = if holds {
        yes
    } else {
        no
    };
    let pc = s.ops.len() as int;
    let end = s.branch(e, code, next, cond, yes, no, compare);
    if yes.args.len() == 0 && no.args.len() == 0 {
        let tv = crate::flow::to_block(yes.block, next);
        let fv = crate::flow::to_block(no.block, next);
        let fall = if next == Some(yes.block) {
            Some(H::T)
        } else if next == Some(no.block) {
            Some(H::F)
        } else {
            None
        };
        assert(end == s.cond(e, cond, compare, tv, fv, fall));
        lemma_cond(r, v, e, s, cond, compare, tv, fv, fall, st);
        st
    } else {
        let swap = next == Some(yes.block);
        let lf = s.next();
        let first = if swap {
            no
        } else {
            yes
        };
        let second = if swap {
            yes
        } else {
            no
        };
        let tv = if swap {
            V::Blk(lf)
        } else {
            V::Fall
        };
        let fv = if swap {
            V::Fall
        } else {
            V::Blk(lf)
        };
        let fall = if swap {
            Some(H::F)
        } else {
            Some(H::T)
        };
        let last = crate::flow::to_block(second.block, next);
        let s0 = s.fresh();
        let s1 = s0.cond(e, cond, compare, tv, fv, fall);
        let s2 = s1.edge(e, code, first);
        let s3 = s2.jump(V::Blk(first.block));
        let s4 = s3.place(lf);
        let s5 = s4.edge(e, code, second);
        let s6 = s5.jump(last);
        assert(end == s6);
        r.lemma_jump(s5, last, st);
        let b = an_edge_assigns_the_parameters(r, e, code, fl, s4, second, st);
        r.lemma_place(s3, lf, st);
        r.lemma_jump(s2, V::Blk(first.block), st);
        let a = an_edge_assigns_the_parameters(r, e, code, fl, s1, first, st);
        lemma_cond(r, v, e, s0, cond, compare, tv, fv, fall, st);
        if holds != swap {
            r.lemma_jump(s2, V::Blk(first.block), a);
            r.lemma_on(pc, st, s1.ops.len() as int, st, s2.ops.len() as int, a);
            r.lemma_on(pc, st, s2.ops.len() as int, a, (r.at)(first.block), a);
            a
        } else {
            r.lemma_jump(s5, last, b);
            r.lemma_on(pc, st, s3.ops.len() as int, st, s4.ops.len() as int, st);
            r.lemma_on(pc, st, s4.ops.len() as int, st, s5.ops.len() as int, b);
            r.lemma_on(pc, st, s5.ops.len() as int, b, (r.at)(second.block), b);
            b
        }
    }
}

// ---------------------------------------------------------------------------
// Switches and jumps
// ---------------------------------------------------------------------------

/// The operation of one case: the hole `h` is bound to the number that the case is for.
pub open spec fn op_case(key: Seq<char>, a: u64, tv: V, fv: V, h: H, k: u64) -> Item {
    Item::Stencil { key, binds: seq![(H::A, V::I(a)), (H::T, tv), (H::F, fv), (h, V::I(k))] }
}

/// Cases test a word, or a tag where it is, and do nothing else.
pub open spec fn picks_cases(m: Machine) -> bool {
    &&& forall|key: Seq<char>, a: u64, tv: V, fv: V, k: u64, st: St|
        twin(key, "brcmp/eq/u64/fi"@) ==> #[trigger] (m.does)(
            op_case(key, a, tv, fv, H::K, k),
            st,
        ) == st && (m.holds)(op_case(key, a, tv, fv, H::K, k), st) == (st.at(a) == k)
    &&& forall|key: Seq<char>, w: u32, a: u64, tv: V, fv: V, k: u64, st: St|
        #![trigger (m.does)(op_case(key, a, tv, fv, H::N, k), st), tag_key(w)]
        (w == 1 || w == 4 || w == 8) && twin(key, tag_key(w)) ==> (m.does)(
            op_case(key, a, tv, fv, H::N, k),
            st,
        ) == st && (m.holds)(op_case(key, a, tv, fv, H::N, k), st) == (tag_number(
            st.frame,
            a as int,
            w as int,
        ) == k)
}

/// The key of the test of a tag of `w` bytes where it is.
pub open spec fn tag_key(w: u32) -> Seq<char> {
    if w == 1 {
        "tagbr/eq8"@
    } else if w == 4 {
        "tagbr/eq32"@
    } else {
        "tagbr/eq"@
    }
}

/// The number that a switch is on: a word, or which variant an enum is.
pub open spec fn discriminant(e: Env, code: Code, on: usize, tagsw: Option<usize>, st: St) -> u64 {
    match tagsw {
        None => st.at(e.at(on)),
        Some(agg) => {
            let at = e.at(agg);
            let l = e.layout(code.ty(agg)->Agg_0);
            match l.tagging() {
                Some(EnumRepr::Niche { null_at }) => if (st.at((at + null_at) as u64) == 0) == (
                l.empty_variant() == 0) {
                    0
                } else {
                    1
                },
                _ => tag_number(st.frame, at as int, l.tag()->0 as int),
            }
        },
    }
}

/// Whether a switch is on a word below the scratch words, or on an enum there with a tag or a null
/// pointer to tell its variants by.
pub open spec fn switches(e: Env, code: Code, on: usize, tagsw: Option<usize>) -> bool {
    match tagsw {
        None => e.at(on) + 8 <= e.scratch,
        Some(agg) => code.ty(agg) is Agg && {
            let at = e.at(agg);
            let l = e.layout(code.ty(agg)->Agg_0);
            match l.tagging() {
                Some(EnumRepr::Niche { null_at }) => at + null_at + 8 <= e.scratch
                    && 0 <= l.empty_variant() <= 1,
                Some(_) => {
                    let tag = l.tag()->0;
                    (tag == 1 || tag == 2 || tag == 4 || tag == 8) && at + 8 <= e.scratch
                },
                None => false,
            }
        },
    }
}

/// The target of the first case from `i` on that is for a number, or the default where none is.
pub open spec fn picked(
    cases: Seq<(u64, Target)>,
    default: Option<Target>,
    v: u64,
    i: int,
) -> Option<Target>
    decreases cases.len() - i,
{
    if i >= cases.len() {
        default
    } else if cases[i].0 == v {
        Some(cases[i].1)
    } else {
        picked(cases, default, v, i + 1)
    }
}

/// What is fair of an edge from one state is from another with the same slots and registers.
proof fn lemma_fair_same(
    e: Env,
    code: Code,
    fl: Files,
    params: Seq<usize>,
    args: Seq<usize>,
    st: St,
    now: St,
)
    requires
        edge_fair(e, code, fl, params, args, st),
        now == (St { frame: now.frame, ..st }),
        forall|x: int| x < e.scratch ==> #[trigger] (now.frame)(x) == (st.frame)(x),
    ensures
        edge_fair(e, code, fl, params, args, now),
        forall|i: int| #[trigger]
            assigns(params, args, i) ==> value(e, now, fl, args[i]) == value(e, st, fl, args[i]),
{
    reveal(edge_fair);
    assert forall|i: int| #[trigger] assigns(params, args, i) implies value(e, now, fl, args[i])
        == value(e, st, fl, args[i]) && now.at(e.at(params[i])) == st.at(e.at(params[i])) by {
        assert(fair(e, code, fl, params[i], args[i]));
        lemma_slot_same(e, st, now, e.at(args[i]));
        lemma_slot_same(e, st, now, e.at(params[i]));
    }
    assert forall|i: int, j: int|
        #![trigger assigns(params, args, i), assigns(params, args, j)]
        assigns(params, args, i) && assigns(params, args, j) implies pair_fair(
        e,
        code,
        fl,
        params,
        args,
        i,
        j,
        now,
    ) by {
        assert(pair_fair(e, code, fl, params, args, i, j, st));
    }
}

proof fn lemma_slot_same(e: Env, st: St, now: St, a: u64)
    requires
        a + 8 <= e.scratch,
        forall|x: int| x < e.scratch ==> #[trigger] (now.frame)(x) == (st.frame)(x),
    ensures
        now.at(a) == st.at(a),
{
    reveal(word);
    assert(Seq::new(8, |q: int| (now.frame)(a + q)) =~= Seq::new(8, |q: int| (st.frame)(a + q)));
}

/// An edge from a state is one from another with the same slots and registers.
proof fn lemma_done_same(
    e: Env,
    code: Code,
    fl: Files,
    params: Seq<usize>,
    args: Seq<usize>,
    st: St,
    now: St,
    after: St,
)
    requires
        edge_fair(e, code, fl, params, args, st),
        now == (St { frame: now.frame, ..st }),
        forall|x: int| x < e.scratch ==> #[trigger] (now.frame)(x) == (st.frame)(x),
        edge_done(e, code, fl, params, args, now, after),
    ensures
        edge_done(e, code, fl, params, args, st, after),
{
    lemma_fair_same(e, code, fl, params, args, st, now);
    assert forall|i: int| #[trigger] assigns(params, args, i) implies ({
        &&& e.loc(params[i]) is Reg ==> value(e, after, fl, params[i]) == value(e, st, fl, args[i])
        &&& has_slot(e, params[i]) && in_place(e, params[i], args[i]) ==> after.at(e.at(params[i]))
            == value(e, st, fl, args[i])
        &&& has_slot(e, params[i]) && !in_place(e, params[i], args[i]) ==> forall|b: int|
            0 <= b < room(e, code, params[i]) ==> #[trigger] (after.frame)(e.at(params[i]) + b) == (
            st.frame)(e.at(args[i]) + b)
    }) by {
        lemma_fair(e, code, fl, params, args, i, i, st);
        if has_slot(e, params[i]) && !in_place(e, params[i], args[i]) {
            assert forall|b: int| 0 <= b < room(e, code, params[i]) implies #[trigger] (after.frame)(
                e.at(params[i]) + b,
            ) == (st.frame)(e.at(args[i]) + b) by {
                assert((now.frame)(e.at(args[i]) + b) == (st.frame)(e.at(args[i]) + b));
            }
        }
    }
}

/// The cases of a switch from one on.
proof fn lemma_cases(
    r: Run,
    e: Env,
    code: Code,
    fl: Files,
    s: Sel,
    next: Option<usize>,
    src: u64,
    fused: Option<u32>,
    cases: Seq<(u64, Target)>,
    default: Option<Target>,
    i: int,
    v: u64,
    st: St,
) -> (after: St)
    requires
        r.wf(),
        leads(r.m),
        copies_words(r.m),
        moves_registers(r.m),
        picks_cases(r.m),
        0 <= i <= cases.len(),
        fused matches Some(w) ==> (w == 1 || w == 4 || w == 8),
        v == match fused {
            Some(w) => tag_number(st.frame, src as int, w as int),
            None => st.at(src),
        },
        picked(cases, default, v, i) is Some,
        forall|k: int|
            0 <= k < cases.len() ==> edge_fair(
                e,
                code,
                fl,
                code.params((#[trigger] cases[k]).1.block),
                cases[k].1.args@,
                st,
            ),
        default matches Some(t) ==> edge_fair(e, code, fl, code.params(t.block), t.args@, st),
        r.has(
            s.switch_cases(
                e,
                code,
                next,
                src,
                match fused {
                    Some(w) => Some(tag_key(w)),
                    None => None,
                },
                cases,
                default,
                i,
            ),
        ),
        laid_out(
            r,
            next,
            s.switch_cases(
                e,
                code,
                next,
                src,
                match fused {
                    Some(w) => Some(tag_key(w)),
                    None => None,
                },
                cases,
                default,
                i,
            ),
        ),
    ensures
        r.has(s),
        ({
            let to = picked(cases, default, v, i)->0;
            &&& r.goes(s.ops.len() as int, st, (r.at)(to.block), after)
            &&& edge_done(e, code, fl, code.params(to.block), to.args@, st, after)
        }),
    decreases cases.len() - i,
{
    let keyed = match fused {
        Some(w) => Some(tag_key(w)),
        None => None,
    };
    let end = s.switch_cases(e, code, next, src, keyed, cases, default, i);
    let pc = s.ops.len() as int;
    if i >= cases.len() {
        let t = default->0;
        let s1 = s.edge(e, code, t);
        assert(end == s1.jump(V::Blk(t.block)));
        r.lemma_jump(s1, V::Blk(t.block), st);
        let a = an_edge_assigns_the_parameters(r, e, code, fl, s, t, st);
        r.lemma_jump(s1, V::Blk(t.block), a);
        r.lemma_on(pc, st, s1.ops.len() as int, a, (r.at)(t.block), a);
        a
    } else {
        let k = cases[i].0;
        let t = cases[i].1;
        assert(edge_fair(e, code, fl, code.params(cases[i].1.block), cases[i].1.args@, st));
        if default is None && cases.len() > 1 && i == cases.len() - 1 {
            let last = crate::flow::to_block(t.block, next);
            let s1 = s.edge(e, code, t);
            assert(end == s1.jump(last));
            assert(picked(cases, default, v, i + 1) is None);
            r.lemma_jump(s1, last, st);
            let a = an_edge_assigns_the_parameters(r, e, code, fl, s, t, st);
            r.lemma_jump(s1, last, a);
            r.lemma_on(pc, st, s1.ops.len() as int, a, (r.at)(t.block), a);
            a
        } else {
            let lnext = s.next();
            let direct = code.params(t.block).len() == 0;
            let base = match keyed {
                Some(f) => f,
                None => "brcmp/eq/u64/fi"@,
            };
            let key = e.arm(base, H::T);
            assert(twin(key, base));
            let tv = if direct {
                V::Blk(t.block)
            } else {
                V::Fall
            };
            let h = if keyed is Some {
                H::N
            } else {
                H::K
            };
            let s0 = s.fresh();
            let o = op_case(key, src, tv, V::Blk(lnext), h, k);
            let s1 = s0.add(o);
            let s2 = if direct {
                s1
            } else {
                s1.edge(e, code, t).jump(V::Blk(t.block))
            };
            let s3 = s2.place(lnext);
            assert(end == s3.switch_cases(e, code, next, src, keyed, cases, default, i + 1));
            assert(r.has(s3)) by {
                broadcast use crate::grown::adds_switch_cases;

                reveal(adds);
            }
            r.lemma_place(s2, lnext, st);
            let a = if direct {
                st
            } else {
                r.lemma_jump(s1.edge(e, code, t), V::Blk(t.block), st);
                an_edge_assigns_the_parameters(r, e, code, fl, s1, t, st)
            };
            reveal_with_fuel(hole, 6);
            r.lemma_two(s0, o, tv, V::Blk(lnext), st);
            if fused is Some {
                let w = fused->0;
                assert(base == tag_key(w));
            }
            assert((r.m.does)(o, st) == st);
            assert((r.m.holds)(o, st) == (v == k));
            if v == k {
                if !direct {
                    let s4 = s1.edge(e, code, t);
                    r.lemma_jump(s4, V::Blk(t.block), a);
                    r.lemma_on(pc, st, s1.ops.len() as int, st, s4.ops.len() as int, a);
                    r.lemma_on(pc, st, s4.ops.len() as int, a, (r.at)(t.block), a);
                }
                a
            } else {
                r.lemma_on(pc, st, s2.ops.len() as int, st, s3.ops.len() as int, st);
                let b = lemma_cases(
                    r,
                    e,
                    code,
                    fl,
                    s3,
                    next,
                    src,
                    fused,
                    cases,
                    default,
                    i + 1,
                    v,
                    st,
                );
                let to = picked(cases, default, v, i)->0;
                r.lemma_on(pc, st, s3.ops.len() as int, st, (r.at)(to.block), b);
                b
            }
        }
    }
}

/// A switch goes to the block of the first case that is for the number it is on, or of its default,
/// with the parameters of that block assigned from the arguments of that target. The number is a word,
/// or the variant that an enum is, read where the enum is.
pub proof fn a_switch_reaches_the_block_of_its_case(
    r: Run,
    e: Env,
    code: Code,
    fl: Files,
    s: Sel,
    next: Option<usize>,
    on: usize,
    cases: Vec<(u64, Target)>,
    default: Option<Target>,
    compare: Option<(BinOp, Prim, usize, usize)>,
    tagsw: Option<usize>,
    st: St,
) -> (after: St)
    requires
        r.wf(),
        leads(r.m),
        copies_words(r.m),
        moves_fields(r.m),
        moves_registers(r.m),
        picks_cases(r.m),
        tells_niches(r.m),
        switches(e, code, on, tagsw),
        picked(cases@, default, discriminant(e, code, on, tagsw, st), 0) is Some,
        forall|k: int|
            0 <= k < cases@.len() ==> edge_fair(
                e,
                code,
                fl,
                code.params((#[trigger] cases@[k]).1.block),
                cases@[k].1.args@,
                st,
            ),
        default matches Some(t) ==> edge_fair(e, code, fl, code.params(t.block), t.args@, st),
        r.has(s.term(e, code, next, Term::Switch { on, cases, default }, compare, tagsw)),
        laid_out(
            r,
            next,
            s.term(e, code, next, Term::Switch { on, cases, default }, compare, tagsw),
        ),
    ensures
        ({
            let to = picked(cases@, default, discriminant(e, code, on, tagsw, st), 0)->0;
            &&& r.goes(s.ops.len() as int, st, (r.at)(to.block), after)
            &&& edge_done(e, code, fl, code.params(to.block), to.args@, st, after)
        }),
{
    let v = discriminant(e, code, on, tagsw, st);
    let pc = s.ops.len() as int;
    let s1 = s.switch_source(e, code, tagsw);
    let src = crate::flow::switch_at(e, code, on, tagsw);
    let keyed = crate::flow::switch_fused(e, code, tagsw);
    let fused = match tagsw {
        None => None,
        Some(agg) => {
            let f = e.tag_field(code, agg);
            if !f.2 && crate::flow::tag_test(f.1) is Some {
                Some(f.1)
            } else {
                None
            }
        },
    };
    assert(keyed == match fused {
        Some(w) => Some(tag_key(w)),
        None => None,
    });
    let end = s1.switch_cases(e, code, next, src, keyed, cases@, default, 0);
    assert(r.has(s1)) by {
        broadcast use crate::grown::adds_switch_cases;

        reveal(adds);
    }
    let st1 = lemma_source(r, e, code, s, on, tagsw, st);
    assert forall|k: int| 0 <= k < cases@.len() implies edge_fair(
        e,
        code,
        fl,
        code.params((#[trigger] cases@[k]).1.block),
        cases@[k].1.args@,
        st1,
    ) by {
        lemma_fair_same(
            e,
            code,
            fl,
            code.params(cases@[k].1.block),
            cases@[k].1.args@,
            st,
            st1,
        );
    }
    if default is Some {
        let t = default->0;
        lemma_fair_same(e, code, fl, code.params(t.block), t.args@, st, st1);
    }
    let after = lemma_cases(
        r,
        e,
        code,
        fl,
        s1,
        next,
        src,
        fused,
        cases@,
        default,
        0,
        v,
        st1,
    );
    let to = picked(cases@, default, v, 0)->0;
    lemma_picked(cases@, default, v, 0);
    r.lemma_on(pc, st, s1.ops.len() as int, st1, (r.at)(to.block), after);
    lemma_done_same(e, code, fl, code.params(to.block), to.args@, st, st1, after);
    after
}

/// What is picked is a case or the default.
proof fn lemma_picked(cases: Seq<(u64, Target)>, default: Option<Target>, v: u64, i: int)
    requires
        0 <= i,
    ensures
        picked(cases, default, v, i) == default || exists|k: int|
            0 <= k < cases.len() && picked(cases, default, v, i) == Some((#[trigger] cases[k]).1),
    decreases cases.len() - i,
{
    if i < cases.len() && cases[i].0 != v {
        lemma_picked(cases, default, v, i + 1);
    }
}

/// The number that a switch is on, where its cases read it.
proof fn lemma_source(
    r: Run,
    e: Env,
    code: Code,
    s: Sel,
    on: usize,
    tagsw: Option<usize>,
    st: St,
) -> (after: St)
    requires
        copies_words(r.m),
        moves_fields(r.m),
        tells_niches(r.m),
        switches(e, code, on, tagsw),
        r.has(s.switch_source(e, code, tagsw)),
    ensures
        r.has(s),
        r.goes(
            s.ops.len() as int,
            st,
            s.switch_source(e, code, tagsw).ops.len() as int,
            after,
        ),
        after == (St { frame: after.frame, ..st }),
        forall|x: int| x < e.scratch ==> #[trigger] (after.frame)(x) == (st.frame)(x),
        ({
            let src = crate::flow::switch_at(e, code, on, tagsw);
            let v = discriminant(e, code, on, tagsw, st);
            if crate::flow::switch_fused(e, code, tagsw) is Some {
                v == tag_number(
                    after.frame,
                    src as int,
                    e.tag_field(code, tagsw->0).1 as int,
                )
            } else {
                v == after.at(src)
            }
        }),
{
    broadcast use {word_of_put, byte_beside_put};

    let pc = s.ops.len() as int;
    reveal_with_fuel(hole, 7);
    match tagsw {
        None => {
            r.lemma_stays(pc, st);
            st
        },
        Some(agg) => {
            let f = e.tag_field(code, agg);
            let l = e.layout(code.ty(agg)->Agg_0);
            let d = e.word(3);
            if f.2 {
                let null = f.1 as u64;
                let other = if null == 0 {
                    1u64
                } else {
                    0
                };
                let o = op_niche(d, f.0, null, other);
                assert(s.switch_source(e, code, tagsw) == s.add(o));
                r.lemma_add(s, o, st);
                (r.m.does)(o, st)
            } else if crate::flow::tag_test(f.1) is Some {
                r.lemma_stays(pc, st);
                st
            } else {
                assert(f.1 == 2);
                let o = crate::machine::op_da("loadu/"@ + decimal(2), d, f.0);
                assert(s.switch_source(e, code, tagsw) == s.add(o));
                r.lemma_add(s, o, st);
                let after = (r.m.does)(o, st);
                assert(after.at(d) == tag_number(st.frame, f.0 as int, 2)) by {
                    reveal(word);
                    assert(Seq::new(8, |i: int| (after.frame)(d + i)) =~= Seq::new(
                        8,
                        |i: int|
                            if i < 2 {
                                (st.frame)(f.0 + i)
                            } else {
                                0u8
                            },
                    ));
                }
                after
            }
        },
    }
}

/// The operation that makes copies of words at once and jumps.
pub open spec fn op_jump_with(pairs: Seq<(u64, u64)>, to: V) -> Item {
    let one = seq![(H::A, V::I(pairs[0].1)), (H::D, V::I(pairs[0].0))];
    let two = seq![(H::B, V::I(pairs[1].1)), (H::N, V::I(pairs[1].0))];
    let three = seq![(H::C, V::I(pairs[2].1)), (H::P, V::I(pairs[2].0))];
    let four = seq![(H::E, V::I(pairs[3].1)), (H::Q, V::I(pairs[3].0))];
    let end = seq![(H::T, to)];
    Item::Stencil {
        key: "movjump/"@ + decimal(pairs.len()),
        binds: if pairs.len() == 1 {
            one + end
        } else if pairs.len() == 2 {
            one + two + end
        } else if pairs.len() == 3 {
            one + two + three + end
        } else {
            one + two + three + four + end
        },
    }
}

/// Whether the words that some copies write have no byte in common.
pub open spec fn words_apart(pairs: Seq<(u64, u64)>) -> bool {
    forall|i: int, k: int|
        0 <= i < k < pairs.len() ==> clear(
            (#[trigger] pairs[i]).0 as int,
            8,
            (#[trigger] pairs[k]).0 as int,
            8,
        )
}

/// Whether a state is another after copies of words that were made at once.
pub open spec fn at_once(pairs: Seq<(u64, u64)>, st: St, after: St) -> bool {
    &&& after == (St { frame: after.frame, ..st })
    &&& forall|i: int, b: int|
        0 <= i < pairs.len() && 0 <= b < 8 ==> #[trigger] (after.frame)(pairs[i].0 + b) == (
        st.frame)(pairs[i].1 + b)
    &&& forall|x: int|
        (forall|i: int|
            0 <= i < pairs.len() ==> x < (#[trigger] pairs[i]).0 || pairs[i].0 + 8 <= x)
            ==> #[trigger] (after.frame)(x) == (st.frame)(x)
}

/// Copies of words are made at once by the operation that jumps with them.
pub open spec fn jumps_with(m: Machine) -> bool {
    forall|pairs: Seq<(u64, u64)>, to: V, st: St|
        0 < pairs.len() <= 4 && words_apart(pairs) ==> at_once(
            pairs,
            st,
            #[trigger] (m.does)(op_jump_with(pairs, to), st),
        )
}

/// Where an edge is all words of the frame, its copies are those between its slots.
proof fn lemma_pairs(e: Env, code: Code, params: Seq<usize>, args: Seq<usize>, i: int)
    requires
        0 <= i,
        e.framed(code, params, args, i),
    ensures
        ({
            let ms = e.slot_moves(code, params, args, i);
            let ps = e.pairs(params, args, i);
            ms.len() == ps.len() && forall|k: int|
                0 <= k < ps.len() ==> #[trigger] ms[k] == (Move {
                    to: Cell::Slot(ps[k].0),
                    from: Cell::Slot(ps[k].1),
                    n: 8,
                    float: false,
                })
        }),
        forall|k: int|
            i <= k && #[trigger] assigns(params, args, k) ==> !(e.loc(params[k]) is Reg),
    decreases params.len() - i,
{
    if i < params.len() && i < args.len() {
        lemma_pairs(e, code, params, args, i + 1);
        let ms = e.slot_moves(code, params, args, i);
        let ps = e.pairs(params, args, i);
        let mr = e.slot_moves(code, params, args, i + 1);
        let pr = e.pairs(params, args, i + 1);
        assert forall|k: int| 0 <= k < ps.len() implies #[trigger] ms[k] == (Move {
            to: Cell::Slot(ps[k].0),
            from: Cell::Slot(ps[k].1),
            n: 8,
            float: false,
        }) by {
            if e.at(params[i]) != e.at(args[i]) {
                if k > 0 {
                    assert(ms[k] == mr[k - 1]);
                    assert(ps[k] == pr[k - 1]);
                }
            } else {
                assert(ms == mr);
                assert(ps =~= pr);
            }
        }
    }
}

/// A jump that copies on its way.
proof fn lemma_jump_fused(
    r: Run,
    e: Env,
    code: Code,
    fl: Files,
    s: Sel,
    to: Target,
    st: St,
) -> (after: St)
    requires
        jumps_with(r.m),
        Sel::fuses(e, code, to),
        edge_fair(e, code, fl, code.params(to.block), to.args@, st),
        r.has(s.jump_fused(e, code, to)),
    ensures
        r.goes(s.ops.len() as int, st, (r.at)(to.block), after),
        edge_done(e, code, fl, code.params(to.block), to.args@, st, after),
{
    let params = code.params(to.block);
    let args = to.args@;
    let ps = e.pairs(params, args, 0);
    let ms = e.slot_moves(code, params, args, 0);
    lemma_pairs(e, code, params, args, 0);
    lemma_slot_moves(e, code, fl, params, args, 0, st);
    assert(words_apart(ps)) by {
        assert forall|i: int, k: int| 0 <= i < k < ps.len() implies clear(
            (#[trigger] ps[i]).0 as int,
            8,
            (#[trigger] ps[k]).0 as int,
            8,
        ) by {
            assert(apart_to(ms[i], ms[k]));
        }
    }
    let v = V::Blk(to.block);
    let o = op_jump_with(ps, v);
    let t = s.jump_fused(e, code, to);
    assert(t == s.add(o)) by {
        reveal_with_fuel(crate::flow::copy_binds, 6);
        let binds = crate::flow::copy_binds(ps, 0).push((H::T, v));
        assert(binds =~= o->Stencil_binds);
    }
    let pc = s.ops.len() as int;
    assert(r.os[pc] == t.ops[pc]);
    reveal_with_fuel(hole, 12);
    assert(hole(o->Stencil_binds, H::F, 0) is None);
    assert(hole(o->Stencil_binds, H::T, 0) == Some(v));
    r.lemma_one(pc, st);
    let after = (r.m.does)(o, st);
    assert forall|i: int| #[trigger] assigns(params, args, i) implies !(e.loc(params[i]) is Reg)
        && (has_slot(e, params[i]) && !in_place(e, params[i], args[i]) ==> forall|b: int|
        0 <= b < room(e, code, params[i]) ==> #[trigger] (after.frame)(e.at(params[i]) + b) == (
        st.frame)(e.at(args[i]) + b)) by {
        lemma_fair(e, code, fl, params, args, i, i, st);
        let d = e.at(params[i]);
        assert forall|b: int| 0 <= b < room(e, code, params[i]) implies #[trigger] (after.frame)(
            e.at(params[i]) + b,
        ) == (st.frame)(e.at(args[i]) + b) by {
            if slot_moved(e, params, args, i) {
                let x = slot_move(e, code, params, args, i);
                assert(ms.contains(x));
                let a = choose|a: int| 0 <= a < ms.len() && ms[a] == x;
                assert(ps[a].0 == d && ps[a].1 == e.at(args[i]));
                assert((after.frame)(ps[a].0 + b) == (st.frame)(ps[a].1 + b));
            } else {
                assert forall|a: int| 0 <= a < ps.len() implies d + b < (#[trigger] ps[a]).0
                    || ps[a].0 + 8 <= d + b by {
                    assert(of_slot(e, code, params, args, 0, ms[a]));
                    reveal(of_slot);
                    let j = choose|j: int|
                        0 <= j && #[trigger] slot_moved(e, params, args, j) && ms[a] == slot_move(
                            e,
                            code,
                            params,
                            args,
                            j,
                        );
                    lemma_fair(e, code, fl, params, args, i, j, st);
                }
            }
        }
    }
    assert forall|x: int|
        x < e.scratch && (forall|i: int| #[trigger]
            assigns(params, args, i) && has_slot(e, params[i]) ==> x < e.at(params[i]) || e.at(
                params[i],
            ) + room(e, code, params[i]) <= x) implies #[trigger] (after.frame)(x) == (st.frame)(
        x,
    ) by {
        assert forall|a: int| 0 <= a < ps.len() implies x < (#[trigger] ps[a]).0 || ps[a].0 + 8
            <= x by {
            assert(of_slot(e, code, params, args, 0, ms[a]));
            reveal(of_slot);
            let j = choose|j: int|
                0 <= j && #[trigger] slot_moved(e, params, args, j) && ms[a] == slot_move(
                    e,
                    code,
                    params,
                    args,
                    j,
                );
            assert(assigns(params, args, j));
        }
    }
    after
}

/// A jump reaches its block with the parameters of the block assigned from the arguments, whether
/// the copies are made before it or on its way.
pub proof fn a_jump_reaches_its_block(
    r: Run,
    e: Env,
    code: Code,
    fl: Files,
    s: Sel,
    next: Option<usize>,
    to: Target,
    compare: Option<(BinOp, Prim, usize, usize)>,
    tagsw: Option<usize>,
    st: St,
) -> (after: St)
    requires
        leads(r.m),
        copies_words(r.m),
        moves_registers(r.m),
        jumps_with(r.m),
        edge_fair(e, code, fl, code.params(to.block), to.args@, st),
        r.has(s.term(e, code, next, Term::Jump(to), compare, tagsw)),
        laid_out(r, next, s.term(e, code, next, Term::Jump(to), compare, tagsw)),
    ensures
        r.goes(s.ops.len() as int, st, (r.at)(to.block), after),
        edge_done(e, code, fl, code.params(to.block), to.args@, st, after),
{
    if next != Some(to.block) && Sel::fuses(e, code, to) {
        lemma_jump_fused(r, e, code, fl, s, to, st)
    } else {
        let t = s.edge(e, code, to);
        let last = crate::flow::to_block(to.block, next);
        r.lemma_jump(t, last, st);
        let a = an_edge_assigns_the_parameters(r, e, code, fl, s, to, st);
        r.lemma_jump(t, last, a);
        r.lemma_on(s.ops.len() as int, st, t.ops.len() as int, a, (r.at)(to.block), a);
        a
    }
}

// ---------------------------------------------------------------------------
// Returns
// ---------------------------------------------------------------------------

/// Whether `i` is a result that a function gives.
pub open spec fn gives(e: Env, vs: Seq<usize>, i: int) -> bool {
    0 <= i < vs.len() && i < e.frame.ret.len()
}

/// Whether the places of the results of a function are apart from one another and from the slots that
/// they are given from, but for one that is given where it is.
pub open spec fn returns_fair(e: Env, code: Code, vs: Seq<usize>) -> bool {
    forall|i: int, j: int|
        #![trigger gives(e, vs, i), gives(e, vs, j)]
        gives(e, vs, i) && gives(e, vs, j) ==> {
            let a = e.frame.ret[i] as int;
            let b = e.frame.ret[j] as int;
            let n = room(e, code, vs[i]);
            let k = room(e, code, vs[j]);
            &&& i != j ==> clear(a, n, b, k)
            &&& clear(a, n, e.at(vs[j]) as int, k) || (i == j && a == e.at(vs[j]))
        }
}

/// Whether the results below `i` are where the caller looks for them, and the others still in their
/// slots.
spec fn given(e: Env, code: Code, vs: Seq<usize>, i: int, st: St, now: St) -> bool {
    &&& now == (St { frame: now.frame, ..st })
    &&& forall|j: int, b: int|
        gives(e, vs, j) && j < i && 0 <= b < room(e, code, vs[j]) ==> #[trigger] (now.frame)(
            e.frame.ret[j] + b,
        ) == (st.frame)(e.at(vs[j]) + b)
    &&& forall|j: int, b: int|
        gives(e, vs, j) && i <= j && 0 <= b < room(e, code, vs[j]) ==> #[trigger] (now.frame)(
            e.at(vs[j]) + b,
        ) == (st.frame)(e.at(vs[j]) + b)
}

proof fn lemma_rets(
    r: Run,
    e: Env,
    code: Code,
    s: Sel,
    vs: Seq<usize>,
    i: int,
    st: St,
    now: St,
) -> (after: St)
    requires
        copies_words(r.m),
        returns_fair(e, code, vs),
        0 <= i,
        r.has(s.give_rets(e, code, vs, i)),
        given(e, code, vs, i, st, now),
    ensures
        r.has(s),
        r.goes(s.ops.len() as int, now, s.give_rets(e, code, vs, i).ops.len() as int, after),
        given(e, code, vs, vs.len() as int, st, after),
    decreases vs.len() - i,
{
    let pc = s.ops.len() as int;
    let end = s.give_rets(e, code, vs, i);
    if !gives(e, vs, i) {
        r.lemma_stays(pc, now);
        now
    } else {
        let d = e.frame.ret[i] as u64;
        let a = e.at(vs[i]);
        let n = e.slot_bytes(code.ty(vs[i]));
        let t = s.mv(d, a, n);
        assert(end == t.give_rets(e, code, vs, i + 1));
        assert(r.has(t)) by {
            broadcast use crate::grown::adds_give_rets;

            reveal(adds);
        }
        r.lemma_mv(s, d, a, n, now);
        let mid = now.moved(d, a, n);
        assert(given(e, code, vs, i + 1, st, mid)) by {
            assert forall|j: int, b: int|
                gives(e, vs, j) && j < i + 1 && 0 <= b < room(e, code, vs[j]) implies #[trigger] (
            mid.frame)(e.frame.ret[j] + b) == (st.frame)(e.at(vs[j]) + b) by {
                if j < i {
                    assert((now.frame)(e.frame.ret[j] + b) == (st.frame)(e.at(vs[j]) + b));
                } else {
                    assert((now.frame)(e.at(vs[i]) + b) == (st.frame)(e.at(vs[i]) + b));
                }
            }
            assert forall|j: int, b: int|
                gives(e, vs, j) && i + 1 <= j && 0 <= b < room(e, code, vs[j]) implies #[trigger] (
            mid.frame)(e.at(vs[j]) + b) == (st.frame)(e.at(vs[j]) + b) by {
                assert((now.frame)(e.at(vs[j]) + b) == (st.frame)(e.at(vs[j]) + b));
            }
        }
        let after = lemma_rets(r, e, code, t, vs, i + 1, st, mid);
        r.lemma_on(pc, now, t.ops.len() as int, mid, end.ops.len() as int, after);
        after
    }
}

/// A return gives every result where the caller looks for it, and then returns.
pub proof fn a_return_gives_the_results(
    r: Run,
    e: Env,
    code: Code,
    s: Sel,
    next: Option<usize>,
    vs: Vec<usize>,
    compare: Option<(BinOp, Prim, usize, usize)>,
    tagsw: Option<usize>,
    st: St,
) -> (after: St)
    requires
        copies_words(r.m),
        returns_fair(e, code, vs@),
        r.has(s.term(e, code, next, Term::Return(vs), compare, tagsw)),
    ensures
        ({
            let end = s.term(e, code, next, Term::Return(vs), compare, tagsw).ops.len() as int;
            &&& r.os[end - 1] == (Item::Stencil { key: "ret"@, binds: Seq::empty() })
            &&& r.goes(s.ops.len() as int, st, end - 1, after)
        }),
        forall|i: int, b: int|
            gives(e, vs@, i) && 0 <= b < room(e, code, vs@[i]) ==> #[trigger] (after.frame)(
                e.frame.ret[i] + b,
            ) == (st.frame)(e.at(vs@[i]) + b),
        after == (St { frame: after.frame, ..st }),
{
    let t = s.give_rets(e, code, vs@, 0);
    let end = s.term(e, code, next, Term::Return(vs), compare, tagsw);
    assert(end == t.ret());
    let o = Item::Stencil { key: "ret"@, binds: Seq::empty() };
    assert(end == t.add(o));
    assert(r.os[t.ops.len() as int] == end.ops[t.ops.len() as int]);
    assert(r.has(t)) by {
        assert forall|i: int| 0 <= i < t.ops.len() implies #[trigger] r.os[i] == t.ops[i] by {
            assert(end.ops[i] == t.ops[i]);
        }
    }
    lemma_rets(r, e, code, s, vs@, 0, st, st)
}

} // verus!
