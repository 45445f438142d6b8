//! What selecting keeps: it only ever adds.
//!
//! An index that was handed out, of a helper, of a reason or of a literal, stands for the same
//! thing ever after, and what was refused is not forgotten. Every label that a body branches to is
//! put down in the body.

use crate::abi::Loc;
use crate::edges::Move;
use crate::emit::piece;
use crate::flow::copy_binds;
use crate::glue::{
    frame_bytes, helper_env, is_context, owned_type, source_bytes, state_end, thunk_arg,
    ThunkFrame, E_CTXP,
    E_STATE, E_ZERO,
};
use crate::ir::{Body, Code, Const, Func, Inst, Ownership, Target, Term, Type};
use crate::lists::{Block, Loop, LoopOps, Step, Stp, Thk};
use crate::order::{block_order, every_block_is_laid_out_once};
use crate::prim::{BinOp, Prim, StructuralOp, UnOp};
use crate::runtime::param_at;
use crate::select::{unit, Env, FrameSig, Helper, Item, Ret, Sel, Src, To, H, V};
use crate::text::decimal;
use crate::types::{at_or, EnumRepr, Layout, Repr, Shape};
use crate::unit::{function_env, Un};
use crate::walk::{RAW_WORD, RC_DEPTH, RC_INLINE, SPARE_WORD};
use vstd::prelude::*;

verus! {

/// Whether a list is the start of another.
pub open spec fn starts<T>(a: Seq<T>, b: Seq<T>) -> bool {
    a.len() <= b.len() && forall|i: int| 0 <= i < a.len() ==> #[trigger] b[i] == a[i]
}

/// Whether a selection is another with more behind it.
#[verifier::opaque]
pub open spec fn adds(a: Sel, b: Sel) -> bool {
    &&& starts(a.ops, b.ops)
    &&& starts(a.helpers, b.helpers)
    &&& starts(a.reasons, b.reasons)
    &&& starts(a.lits, b.lits)
    &&& starts(a.loops, b.loops)
    &&& a.dirty ==> b.dirty
    &&& b.dirty ==> a.dirty || b.reasons.len() > 0
}

/// Whether an operation branches to label `l`.
pub open spec fn aims(o: Item, l: usize) -> bool {
    match o {
        Item::Stencil { key, binds } => bound_labels(binds).contains(l),
        _ => false,
    }
}

/// The labels that holes are bound to.
pub open spec fn bound_labels(binds: Seq<(H, V)>) -> Set<usize> {
    Set::new(|l: usize| exists|i: int| 0 <= i < binds.len() && (#[trigger] binds[i]).1 == V::Blk(l))
}

/// The labels that an operation branches to.
pub open spec fn targets(o: Item) -> Set<usize> {
    Set::new(|l: usize| aims(o, l))
}

/// Whether some operation branches to label `l`.
#[verifier::opaque]
pub open spec fn aimed(s: Sel, l: usize) -> bool {
    exists|i: int| 0 <= i < s.ops.len() && aims(#[trigger] s.ops[i], l)
}

/// Whether label `l` is put somewhere.
#[verifier::opaque]
pub open spec fn laid(s: Sel, l: usize) -> bool {
    exists|i: int| 0 <= i < s.ops.len() && #[trigger] s.ops[i] == Item::Place(l)
}

/// No label.
pub open spec fn none() -> Set<usize> {
    Set::empty()
}

/// One label.
pub open spec fn one(l: usize) -> Set<usize> {
    set![l]
}

/// The label that a hole is bound to.
pub open spec fn of(v: V) -> Set<usize> {
    match v {
        V::Blk(l) => set![l],
        _ => Set::empty(),
    }
}

/// The blocks that the cases of a switch lead to.
pub open spec fn case_blocks(cases: Seq<(u64, Target)>, default: Option<Target>) -> Set<usize> {
    Set::new(
        |l: usize|
            (exists|i: int| 0 <= i < cases.len() && (#[trigger] cases[i]).1.block == l) || (
            default matches Some(t) && t.block == l),
    )
}

/// The blocks that a terminator leads to.
pub open spec fn term_blocks(t: Term) -> Set<usize> {
    match t {
        Term::Jump(x) => one(x.block),
        Term::Branch { cond, then, else_ } => one(then.block).union(one(else_.block)),
        Term::Switch { on, cases, default } => case_blocks(cases@, default),
        _ => none(),
    }
}

/// The blocks that the terminators of a body lead to.
pub open spec fn code_blocks(code: Code) -> Set<usize> {
    Set::new(
        |l: usize|
            exists|b: int|
                0 <= b < code.blocks.len() && #[trigger] term_blocks(
                    code.blocks@[b].term,
                ).contains(l),
    )
}

/// The blocks that the terminators of a function's body lead to.
pub open spec fn body_blocks(e: Env, fi: usize) -> Set<usize> {
    match e.prog.funcs[fi as int].body {
        Body::Code(code) => code_blocks(code),
        Body::Runtime(key) => none(),
    }
}

/// The label that a loop leaves an early decision to, which [`Sel::loop_close`] puts down.
pub open spec fn exit_of(s: Sel, kind: Step) -> Set<usize> {
    if kind == Step::Any || kind == Step::All {
        one(s.next())
    } else {
        none()
    }
}

/// Whether what is put down in `a` is in `b`, and what is refused stays refused.
pub open spec fn keeps(a: Sel, b: Sel) -> bool {
    &&& a.dirty ==> b.dirty
    &&& forall|l: usize| #[trigger] laid(a, l) ==> laid(b, l)
}

/// Whether all that `b` branches to besides what `a` does is put down in `b`, but for the labels of
/// `but`, and but for a body in which something is refused; and what is put down in `a` is in `b`.
pub open spec fn moves(a: Sel, b: Sel, but: Set<usize>) -> bool {
    &&& a.dirty ==> b.dirty
    &&& forall|l: usize|
        #![trigger aimed(b, l)]
        #![trigger laid(a, l)]
        (aimed(b, l) ==> aimed(a, l) || laid(b, l) || but.contains(l) || b.dirty) && (laid(a, l)
            ==> laid(b, l))
}

proof fn lemma_same_ops(a: Sel, b: Sel)
    requires
        a.ops == b.ops,
        a.dirty ==> b.dirty,
    ensures
        moves(a, b, none()),
        forall|l: usize| #[trigger] laid(b, l) == laid(a, l),
{
    reveal(aimed);
    reveal(laid);
}

pub broadcast proof fn adds_self(a: Sel)
    ensures
        #[trigger] adds(a, a),
{
    reveal(adds);
}

pub broadcast proof fn adds_on(a: Sel, b: Sel, c: Sel)
    requires
        #[trigger] adds(a, b),
        #[trigger] adds(b, c),
    ensures
        adds(a, c),
{
    reveal(adds);
    assert(starts(a.ops, c.ops)) by {
        assert forall|i: int| 0 <= i < a.ops.len() implies #[trigger] c.ops[i] == a.ops[i] by {
            assert(b.ops[i] == a.ops[i]);
        }
    }
    assert(starts(a.helpers, c.helpers)) by {
        assert forall|i: int| 0 <= i < a.helpers.len() implies #[trigger] c.helpers[i]
            == a.helpers[i] by {
            assert(b.helpers[i] == a.helpers[i]);
        }
    }
    assert(starts(a.reasons, c.reasons)) by {
        assert forall|i: int| 0 <= i < a.reasons.len() implies #[trigger] c.reasons[i]
            == a.reasons[i] by {
            assert(b.reasons[i] == a.reasons[i]);
        }
    }
    assert(starts(a.lits, c.lits)) by {
        assert forall|i: int| 0 <= i < a.lits.len() implies #[trigger] c.lits[i] == a.lits[i] by {
            assert(b.lits[i] == a.lits[i]);
        }
    }
    assert(starts(a.loops, c.loops)) by {
        assert forall|i: int| 0 <= i < a.loops.len()
        implies #[trigger] c.loops[i] == a.loops[i] by {
            assert(b.loops[i] == a.loops[i]);
        }
    }
}

proof fn lemma_copy_binds(pairs: Seq<(u64, u64)>, i: int)
    ensures
        forall|k: int|
            0 <= k < copy_binds(pairs, i).len() ==> (#[trigger] copy_binds(pairs, i)[k]).1 is I,
    decreases pairs.len() - i,
{
    if i < pairs.len() {
        lemma_copy_binds(pairs, i + 1);
    }
}

/// Whether an order is of blocks of a body.
pub open spec fn in_body(code: Code, order: Seq<usize>) -> bool {
    forall|j: int| 0 <= j < order.len() ==> #[trigger] order[j] < code.blocks.len()
}

proof fn lemma_order_in_body(code: Code)
    ensures
        in_body(code, block_order(code)),
{
    every_block_is_laid_out_once(code);
    assert forall|j: int| 0 <= j < block_order(code).len() implies #[trigger] block_order(code)[j]
        < code.blocks.len() by {
        assert(block_order(code).contains(block_order(code)[j]));
    }
}

// ---------------------------------------------------------------------------
// The steps of the selector, one by one
// ---------------------------------------------------------------------------

pub broadcast proof fn adds_add(sel: Sel, o: Item)
    ensures
        adds(sel, #[trigger] sel.add(o)),
        moves(sel, sel.add(o), targets(o)),
        o matches Item::Place(l) ==> laid(sel.add(o), l),
{
    reveal(adds);
    reveal(aimed);
    reveal(laid);
    let n = sel.add(o);
    assert forall|l: usize| #![trigger aimed(n, l)] aimed(n, l) implies aimed(sel, l) || targets(
        o,
    ).contains(l) by {
        let i = choose|i: int| 0 <= i < n.ops.len() && aims(#[trigger] n.ops[i], l);
        if i < sel.ops.len() {
            assert(aims(sel.ops[i], l));
        }
    }
    assert forall|l: usize| #![trigger laid(sel, l)] laid(sel, l) implies laid(n, l) by {
        let i = choose|i: int| 0 <= i < sel.ops.len() && #[trigger] sel.ops[i] == Item::Place(l);
        assert(n.ops[i] == Item::Place(l));
    }
    assert(n.ops[sel.ops.len() as int] == o);
}

pub broadcast proof fn adds_emit(sel: Sel, key: Seq<char>, binds: Seq<(H, V)>)
    ensures
        adds(sel, #[trigger] sel.emit(key, binds)),
        moves(sel, sel.emit(key, binds), bound_labels(binds)),
{
    broadcast use {adds_self, adds_on, adds_add};

}

pub broadcast proof fn adds_fresh(sel: Sel)
    ensures
        adds(sel, #[trigger] sel.fresh()),
        moves(sel, sel.fresh(), none()),
{
    reveal(adds);
    lemma_same_ops(sel, sel.fresh());
}

pub broadcast proof fn adds_place(sel: Sel, l: usize)
    ensures
        adds(sel, #[trigger] sel.place(l)),
        moves(sel, sel.place(l), none()),
        laid(sel.place(l), l),
{
    broadcast use {adds_self, adds_on, adds_add};

}

pub broadcast proof fn adds_pool(sel: Sel, b: Seq<u8>)
    ensures
        adds(sel, #[trigger] sel.pool(b)),
        moves(sel, sel.pool(b), none()),
{
    reveal(adds);
    let n = sel.add(Item::Pool(sel.literal()));
    broadcast use {adds_on, adds_add};

    lemma_same_ops(n, sel.pool(b));
}

pub broadcast proof fn adds_helper(sel: Sel, h: Helper)
    ensures
        adds(sel, #[trigger] sel.helper(h)),
        moves(sel, sel.helper(h), none()),
{
    reveal(adds);
    lemma_same_ops(sel, sel.helper(h));
}

pub broadcast proof fn adds_unsupported(sel: Sel, why: Seq<char>)
    ensures
        adds(sel, #[trigger] sel.unsupported(why)),
        moves(sel, sel.unsupported(why), none()),
{
    reveal(adds);
    broadcast use {adds_on, adds_emit};

    let s = Sel {
        reasons: match crate::text::position(sel.reasons, why) {
            Some(i) => sel.reasons,
            None => sel.reasons.push(why),
        },
        dirty: true,
        ..sel
    };
    lemma_same_ops(sel, s);
}

pub broadcast proof fn adds_da(sel: Sel, key: Seq<char>, d: u64, a: u64)
    ensures
        adds(sel, #[trigger] sel.da(key, d, a)),
        moves(sel, sel.da(key, d, a), none()),
{
    broadcast use {adds_self, adds_on, adds_emit};

}

pub broadcast proof fn adds_dab(sel: Sel, key: Seq<char>, d: u64, a: u64, b: u64)
    ensures
        adds(sel, #[trigger] sel.dab(key, d, a, b)),
        moves(sel, sel.dab(key, d, a, b), none()),
{
    broadcast use {adds_self, adds_on, adds_emit};

}

pub broadcast proof fn adds_dak(sel: Sel, key: Seq<char>, d: u64, a: u64, k: u64)
    ensures
        adds(sel, #[trigger] sel.dak(key, d, a, k)),
        moves(sel, sel.dak(key, d, a, k), none()),
{
    broadcast use {adds_self, adds_on, adds_emit};

}

pub broadcast proof fn adds_jump(sel: Sel, to: V)
    ensures
        adds(sel, #[trigger] sel.jump(to)),
        moves(sel, sel.jump(to), of(to)),
{
    broadcast use {adds_self, adds_on, adds_emit};

}

pub broadcast proof fn adds_ret(sel: Sel)
    ensures
        adds(sel, #[trigger] sel.ret()),
        moves(sel, sel.ret(), none()),
{
    broadcast use {adds_self, adds_on, adds_emit};

}

pub broadcast proof fn adds_test(sel: Sel, key: Seq<char>, a: u64, tv: V, fv: V)
    ensures
        adds(sel, #[trigger] sel.test(key, a, tv, fv)),
        moves(sel, sel.test(key, a, tv, fv), of(tv).union(of(fv))),
{
    broadcast use {adds_self, adds_on, adds_emit};

}

pub broadcast proof fn adds_test_k(sel: Sel, key: Seq<char>, a: u64, k: u64, tv: V, fv: V)
    ensures
        adds(sel, #[trigger] sel.test_k(key, a, k, tv, fv)),
        moves(sel, sel.test_k(key, a, k, tv, fv), of(tv).union(of(fv))),
{
    broadcast use {adds_self, adds_on, adds_emit};

}

pub broadcast proof fn adds_test_b(sel: Sel, key: Seq<char>, a: u64, b: u64, tv: V, fv: V)
    ensures
        adds(sel, #[trigger] sel.test_b(key, a, b, tv, fv)),
        moves(sel, sel.test_b(key, a, b, tv, fv), of(tv).union(of(fv))),
{
    broadcast use {adds_self, adds_on, adds_emit};

}

pub broadcast proof fn adds_new_elems(sel: Sel, ptr: u64, n: u64, stride: u64)
    ensures
        adds(sel, #[trigger] sel.new_elems(ptr, n, stride)),
        moves(sel, sel.new_elems(ptr, n, stride), none()),
{
    broadcast use {adds_self, adds_on, adds_emit};

}

pub broadcast proof fn adds_call_fn(sel: Sel, base: u64, func: usize)
    ensures
        adds(sel, #[trigger] sel.call_fn(base, func)),
        moves(sel, sel.call_fn(base, func), none()),
{
    broadcast use {adds_self, adds_on, adds_emit};

}

pub broadcast proof fn adds_call_ptr(sel: Sel, a: u64, base: u64)
    ensures
        adds(sel, #[trigger] sel.call_ptr(a, base)),
        moves(sel, sel.call_ptr(a, base), none()),
{
    broadcast use {adds_self, adds_on, adds_emit};

}

pub broadcast proof fn adds_c_call(
    sel: Sel,
    symbol: Seq<char>,
    ints: Seq<Src>,
    floats: Seq<Src>,
    dest: u64,
    ret: Ret,
)
    ensures
        adds(sel, #[trigger] sel.c_call(symbol, ints, floats, dest, ret)),
        moves(sel, sel.c_call(symbol, ints, floats, dest, ret), none()),
{
    broadcast use {adds_self, adds_on, adds_add};

}

pub broadcast proof fn adds_run(sel: Sel, d: u64, s: u64, left: u64)
    ensures
        adds(sel, #[trigger] sel.run(d, s, left)),
        moves(sel, sel.run(d, s, left), none()),
    decreases left,
{
    broadcast use {adds_self, adds_on, adds_da};

    if left == 0 {
    } else {
        let n = unit(left);
        adds_run(
            sel.da("mov/"@ + decimal(n as nat), d, s),
            (d + n) as u64,
            (s + n) as u64,
            (left - n) as u64,
        );
    }
}

pub broadcast proof fn adds_mv(sel: Sel, d: u64, s: u64, n: u64)
    ensures
        adds(sel, #[trigger] sel.mv(d, s, n)),
        moves(sel, sel.mv(d, s, n), none()),
{
    broadcast use {adds_self, adds_on, adds_run};

}

pub broadcast proof fn adds_imm_to(sel: Sel, d: u64, v: u64)
    ensures
        adds(sel, #[trigger] sel.imm_to(d, v)),
        moves(sel, sel.imm_to(d, v), none()),
{
    broadcast use {adds_self, adds_on, adds_emit};

}

pub broadcast proof fn adds_imm_to_ptr(sel: Sel, d: u64, v: V)
    ensures
        adds(sel, #[trigger] sel.imm_to_ptr(d, v)),
        moves(sel, sel.imm_to_ptr(d, v), of(v)),
{
    broadcast use {adds_self, adds_on, adds_emit};

}

pub broadcast proof fn adds_store_w(sel: Sel, d: u64, s: u64, w: u64)
    ensures
        adds(sel, #[trigger] sel.store_w(d, s, w)),
        moves(sel, sel.store_w(d, s, w), none()),
{
    broadcast use {adds_self, adds_on, adds_da, adds_mv};

}

pub broadcast proof fn adds_load_w(sel: Sel, d: u64, s: u64, w: u64)
    ensures
        adds(sel, #[trigger] sel.load_w(d, s, w)),
        moves(sel, sel.load_w(d, s, w), none()),
{
    broadcast use {adds_self, adds_on, adds_da, adds_mv};

}

pub broadcast proof fn adds_imm_w(sel: Sel, d: u64, w: u64, v: u64)
    ensures
        adds(sel, #[trigger] sel.imm_w(d, w, v)),
        moves(sel, sel.imm_w(d, w, v), none()),
{
    broadcast use {adds_self, adds_on, adds_emit, adds_imm_to};

}

pub broadcast proof fn adds_str_literal(sel: Sel, d: u64, bytes: Seq<u8>)
    ensures
        adds(sel, #[trigger] sel.str_literal(d, bytes)),
        moves(sel, sel.str_literal(d, bytes), none()),
{
    broadcast use {adds_self, adds_on, adds_imm_to, adds_imm_to_ptr, adds_pool};

}

pub broadcast proof fn adds_sym_or_zero(sel: Sel, d: u64, h: Option<usize>)
    ensures
        adds(sel, #[trigger] sel.sym_or_zero(d, h)),
        moves(sel, sel.sym_or_zero(d, h), none()),
{
    broadcast use {adds_self, adds_on, adds_imm_to, adds_imm_to_ptr};

}

pub broadcast proof fn adds_rc_block(sel: Sel, at: u64, retain: bool, glue: Option<usize>)
    ensures
        adds(sel, #[trigger] sel.rc_block(at, retain, glue)),
        moves(sel, sel.rc_block(at, retain, glue), none()),
{
    broadcast use {adds_self, adds_on, adds_emit};

}

pub broadcast proof fn adds_rc_glued(sel: Sel, at: u64, retain: bool, wanted: bool, h: Helper)
    ensures
        adds(sel, #[trigger] sel.rc_glued(at, retain, wanted, h)),
        moves(sel, sel.rc_glued(at, retain, wanted, h), none()),
{
    broadcast use {adds_self, adds_on, adds_helper, adds_rc_block};

}

pub broadcast proof fn adds_rc_box(sel: Sel, e: Env, at: u64, ty: usize, retain: bool)
    ensures
        adds(sel, #[trigger] sel.rc_box(e, at, ty, retain)),
        moves(sel, sel.rc_box(e, at, ty, retain), none()),
{
    broadcast use {adds_self, adds_on, adds_rc_glued};

}

pub broadcast proof fn adds_walk_payload(
    sel: Sel,
    e: Env,
    ty: usize,
    at: u64,
    retain: bool,
    depth: nat,
    v: int,
    i: int,
)
    ensures
        adds(sel, (#[trigger] sel.walk_payload(e, ty, at, retain, depth, v, i)).0),
        sel.walk_payload(e, ty, at, retain, depth, v, i).1 is None
            ==> moves(sel, sel.walk_payload(e, ty, at, retain, depth, v, i).0, none()),
        keeps(sel, sel.walk_payload(e, ty, at, retain, depth, v, i).0),
    decreases 9 - depth, 2nat, e.prog.tables.at(ty as int).variant(v).len() - i,
{
    broadcast use {adds_self, adds_on, adds_rc_box};

    let info = e.prog.tables.at(ty as int);
    let fs = info.variant(v);
    if i >= fs.len() || i < 0 || depth > RC_DEPTH {
    } else {
        let f = fs[i];
        let off = match info.layout.payload(v, i) {
            Some(o) => o,
            None => 0,
        };
        let to = (at + off) as u64;
        if f.boxed {
            adds_walk_payload(sel.rc_box(e, to, f.ty, retain), e, ty, at, retain, depth, v, i + 1);
        } else if !e.owns(f.ty) {
            adds_walk_payload(sel, e, ty, at, retain, depth, v, i + 1);
        } else {
            let r = sel.walk_deep(e, f.ty, to, retain, depth);
            adds_walk_deep(sel, e, f.ty, to, retain, depth);
            match r.1 {
                Some(why) => {},
                None => {
                    adds_walk_payload(r.0, e, ty, at, retain, depth, v, i + 1);
                },
            }
        }
    }
}

pub broadcast proof fn adds_walk_variants(
    sel: Sel,
    e: Env,
    ty: usize,
    at: u64,
    retain: bool,
    depth: nat,
    tag: u32,
    done: usize,
    v: int,
)
    ensures
        adds(sel, (#[trigger] sel.walk_variants(e, ty, at, retain, depth, tag, done, v)).0),
        sel.walk_variants(e, ty, at, retain, depth, tag, done, v).1 is None
            ==> moves(sel, sel.walk_variants(e, ty, at, retain, depth, tag, done, v).0, one(done)),
        keeps(sel, sel.walk_variants(e, ty, at, retain, depth, tag, done, v).0),
    decreases 9 - depth, 3nat, e.layout(ty).width() - v,
{
    broadcast use {adds_self, adds_on, adds_fresh, adds_jump, adds_load_w, adds_place, adds_test_k};

    if v >= e.layout(ty).width() || v < 0 || depth > RC_DEPTH {
    } else {
        let fs = e.prog.tables.at(ty as int).variant(v);
        if !e.any_owned(fs, 0) {
            adds_walk_variants(sel, e, ty, at, retain, depth, tag, done, v + 1);
        } else {
            let next = sel.next();
            let scr = e.word(SPARE_WORD as int);
            let s = sel.fresh().load_w(scr, at, tag as u64).test_k(
                e.arm("brcmp/eq/u64/fi"@, H::T),
                scr,
                v as u64,
                V::Fall,
                V::Blk(next),
            );
            let r = s.walk_payload(e, ty, at, retain, depth, v, 0);
            adds_walk_payload(s, e, ty, at, retain, depth, v, 0);
            match r.1 {
                Some(why) => {},
                None => {
                    adds_walk_variants(
                        r.0.jump(V::Blk(done)).place(next),
                        e,
                        ty,
                        at,
                        retain,
                        depth,
                        tag,
                        done,
                        v + 1,
                    );
                },
            }
        }
    }
}

pub broadcast proof fn adds_walk_deep(sel: Sel, e: Env, ty: usize, at: u64, retain: bool, depth: nat)
    ensures
        adds(sel, (#[trigger] sel.walk_deep(e, ty, at, retain, depth)).0),
        sel.walk_deep(e, ty, at, retain, depth).1 is None
            ==> moves(sel, sel.walk_deep(e, ty, at, retain, depth).0, none()),
        keeps(sel, sel.walk_deep(e, ty, at, retain, depth).0),
    decreases 9 - depth, 1nat, 0int,
{
    broadcast use {adds_self, adds_on, adds_add, adds_da, adds_helper};

    if depth > RC_DEPTH {
    } else if e.compound(ty) && depth >= RC_INLINE {
        let h = Helper::Walk { ty, retain };
        let addr = e.word(RAW_WORD + 3);
        let s = sel.helper(h).da("lea"@, addr, at).add(
            Item::Call {
                to: To::Helper(sel.helper_index(h)),
                ints: seq![Src::Word(addr)],
                floats: Seq::empty(),
                dest: 0,
                ret: Ret::Void,
            },
        );
    } else {
        adds_walk_rc(sel, e, ty, at, retain, depth + 1);
    }
}

pub broadcast proof fn adds_walk_fields(
    sel: Sel,
    e: Env,
    ty: usize,
    at: u64,
    retain: bool,
    depth: nat,
    i: int,
)
    ensures
        adds(sel, (#[trigger] sel.walk_fields(e, ty, at, retain, depth, i)).0),
        sel.walk_fields(e, ty, at, retain, depth, i).1 is None
            ==> moves(sel, sel.walk_fields(e, ty, at, retain, depth, i).0, none()),
        keeps(sel, sel.walk_fields(e, ty, at, retain, depth, i).0),
    decreases 9 - depth, 2nat, e.prog.tables.at(ty as int).fields.len() - i,
{
    broadcast use {adds_self, adds_on, adds_rc_box};

    let info = e.prog.tables.at(ty as int);
    if i >= info.fields.len() || i < 0 || depth > RC_DEPTH {
    } else {
        let f = info.fields[i];
        let to = (at + at_or(info.layout.fields@, i, 0u32)) as u64;
        if f.boxed {
            adds_walk_fields(sel.rc_box(e, to, f.ty, retain), e, ty, at, retain, depth, i + 1);
        } else if !e.owns(f.ty) {
            adds_walk_fields(sel, e, ty, at, retain, depth, i + 1);
        } else {
            let r = sel.walk_deep(e, f.ty, to, retain, depth);
            adds_walk_deep(sel, e, f.ty, to, retain, depth);
            match r.1 {
                Some(why) => {},
                None => {
                    adds_walk_fields(r.0, e, ty, at, retain, depth, i + 1);
                },
            }
        }
    }
}

pub broadcast proof fn adds_walk_rc(sel: Sel, e: Env, ty: usize, at: u64, retain: bool, depth: nat)
    ensures
        adds(sel, (#[trigger] sel.walk_rc(e, ty, at, retain, depth)).0),
        sel.walk_rc(e, ty, at, retain, depth).1 is None
            ==> moves(sel, sel.walk_rc(e, ty, at, retain, depth).0, none()),
        keeps(sel, sel.walk_rc(e, ty, at, retain, depth).0),
    decreases 9 - depth, 4nat, 0int,
{
    broadcast use {
        adds_self, adds_on, adds_fresh, adds_place, adds_rc_block, adds_rc_glued, adds_test_k,
    };

    if depth > RC_DEPTH {
    } else {
        match e.layout(ty).repr {
            Repr::Str => {},
            Repr::List => {},
            Repr::Closure => {},
            Repr::Zero => {},
            Repr::Scalar => {},
            Repr::Aggregate => {
                adds_walk_fields(sel, e, ty, at, retain, depth, 0);
            },
            Repr::Enum { repr, variants } => {
                match repr {
                    EnumRepr::Bare { tag } => {},
                    EnumRepr::Tagged { tag } => {
                        let done = sel.next();
                        let r = sel.fresh().walk_variants(e, ty, at, retain, depth, tag, done, 0);
                        adds_walk_variants(sel.fresh(), e, ty, at, retain, depth, tag, done, 0);
                    },
                    EnumRepr::Niche { null_at } => {
                        match e.prog.tables.at(ty as int).shape {
                            Shape::Con { args } => {
                                if args.len() > 0 && e.owns(args[0]) {
                                    let skip = sel.next();
                                    let s = sel.fresh().test_k(
                                        e.arm("brcmp/eq/u64/fi"@, H::T),
                                        (at + null_at) as u64,
                                        0,
                                        V::Blk(skip),
                                        V::Fall,
                                    );
                                    let r = s.walk_rc(e, args[0], at, retain, depth + 1);
                                    adds_walk_rc(s, e, args[0], at, retain, depth + 1);
                                }
                            },
                            _ => {},
                        }
                    },
                }
            },
        }
    }
}

pub broadcast proof fn adds_walk(sel: Sel, e: Env, ty: usize, at: u64, retain: bool)
    ensures
        adds(sel, #[trigger] sel.walk(e, ty, at, retain)),
        moves(sel, sel.walk(e, ty, at, retain), none()),
{
    broadcast use {adds_self, adds_on, adds_unsupported, adds_walk_rc};

}

pub broadcast proof fn adds_rc(sel: Sel, e: Env, code: Code, value: usize, retain: bool)
    ensures
        adds(sel, #[trigger] sel.rc(e, code, value, retain)),
        moves(sel, sel.rc(e, code, value, retain), none()),
{
    broadcast use {adds_self, adds_on, adds_walk};

}

pub broadcast proof fn adds_retain_value(sel: Sel, e: Env, ty: usize, at: u64)
    ensures
        adds(sel, #[trigger] sel.retain_value(e, ty, at)),
        moves(sel, sel.retain_value(e, ty, at), none()),
{
    broadcast use {adds_self, adds_on, adds_walk};

}

pub broadcast proof fn adds_retain_counted(sel: Sel, e: Env, ty: usize, at: u64)
    ensures
        adds(sel, #[trigger] sel.retain_counted(e, ty, at)),
        moves(sel, sel.retain_counted(e, ty, at), none()),
{
    broadcast use {adds_self, adds_on, adds_retain_value};

}

pub broadcast proof fn adds_elem_op(sel: Sel, key: Seq<char>, d: u64, a: u64, b: u64, p: u64)
    ensures
        adds(sel, #[trigger] sel.elem_op(key, d, a, b, p)),
        moves(sel, sel.elem_op(key, d, a, b, p), none()),
{
    broadcast use {adds_self, adds_on, adds_emit};

}

pub broadcast proof fn adds_elem_copy(
    sel: Sel,
    e: Env,
    stem: Seq<char>,
    d: u64,
    base: u64,
    i: u64,
    stride: u64,
    bytes: u64,
)
    ensures
        adds(sel, #[trigger] sel.elem_copy(e, stem, d, base, i, stride, bytes)),
        moves(sel, sel.elem_copy(e, stem, d, base, i, stride, bytes), none()),
{
    broadcast use {adds_self, adds_on, adds_elem_op, adds_emit};

}

pub broadcast proof fn adds_elem_load(
    sel: Sel,
    e: Env,
    d: u64,
    base: u64,
    i: u64,
    stride: u64,
    bytes: u64,
)
    ensures
        adds(sel, #[trigger] sel.elem_load(e, d, base, i, stride, bytes)),
        moves(sel, sel.elem_load(e, d, base, i, stride, bytes), none()),
{
    broadcast use {adds_self, adds_on, adds_elem_copy, adds_elem_op, adds_imm_to};

}

pub broadcast proof fn adds_elem_store(
    sel: Sel,
    e: Env,
    s: u64,
    base: u64,
    i: u64,
    stride: u64,
    bytes: u64,
)
    ensures
        adds(sel, #[trigger] sel.elem_store(e, s, base, i, stride, bytes)),
        moves(sel, sel.elem_store(e, s, base, i, stride, bytes), none()),
{
    broadcast use {adds_self, adds_on, adds_elem_copy};

}

pub broadcast proof fn adds_add_imm(sel: Sel, e: Env, d: u64, a: u64, k: u64, scratch: u64)
    ensures
        adds(sel, #[trigger] sel.add_imm(e, d, a, k, scratch)),
        moves(sel, sel.add_imm(e, d, a, k, scratch), none()),
{
    broadcast use {adds_self, adds_on, adds_dab, adds_dak, adds_imm_to};

}

pub broadcast proof fn adds_addk(sel: Sel, e: Env, d: u64, a: u64, k: u64)
    ensures
        adds(sel, #[trigger] sel.addk(e, d, a, k)),
        moves(sel, sel.addk(e, d, a, k), none()),
{
    broadcast use {adds_self, adds_on, adds_add_imm};

}

pub broadcast proof fn adds_br_lt(sel: Sel, e: Env, a: u64, b: u64, tv: V, fv: V, fall: H)
    ensures
        adds(sel, #[trigger] sel.br_lt(e, a, b, tv, fv, fall)),
        moves(sel, sel.br_lt(e, a, b, tv, fv, fall), of(tv).union(of(fv))),
{
    broadcast use {adds_self, adds_on, adds_dab, adds_test, adds_test_b};

}

pub broadcast proof fn adds_store_disc(sel: Sel, l: Layout, at: u64, v: int)
    ensures
        adds(sel, #[trigger] sel.store_disc(l, at, v)),
        moves(sel, sel.store_disc(l, at, v), none()),
{
    broadcast use {adds_self, adds_on, adds_imm_to, adds_imm_w};

}

pub broadcast proof fn adds_niche_tag(sel: Sel, d: u64, at: u64, null: u64)
    ensures
        adds(sel, #[trigger] sel.niche_tag(d, at, null)),
        moves(sel, sel.niche_tag(d, at, null), none()),
{
    broadcast use {adds_self, adds_on, adds_emit};

}

pub broadcast proof fn adds_load_disc(sel: Sel, l: Layout, at: u64, d: u64)
    ensures
        adds(sel, #[trigger] sel.load_disc(l, at, d)),
        moves(sel, sel.load_disc(l, at, d), none()),
{
    broadcast use {adds_self, adds_on, adds_imm_to, adds_load_w, adds_niche_tag};

}

pub broadcast proof fn adds_loop_start(sel: Sel, e: Env, kind: Step, o: LoopOps)
    ensures
        adds(sel, #[trigger] sel.loop_start(e, kind, o)),
        moves(sel, sel.loop_start(e, kind, o), none()),
{
    broadcast use {adds_self, adds_on, adds_imm_to, adds_mv, adds_retain_value};

}

pub broadcast proof fn adds_loop_args(sel: Sel, e: Env, kind: Step, o: LoopOps, sh: Stp)
    ensures
        adds(sel, #[trigger] sel.loop_args(e, kind, o, sh)),
        moves(sel, sel.loop_args(e, kind, o, sh), none()),
{
    broadcast use {adds_self, adds_on, adds_elem_load, adds_mv, adds_retain_value};

}

pub broadcast proof fn adds_loop_answer(sel: Sel, e: Env, kind: Step, o: LoopOps, sh: Stp)
    ensures
        adds(sel, #[trigger] sel.loop_answer(e, kind, o, sh)),
        moves(sel, sel.loop_answer(e, kind, o, sh), exit_of(sel, kind)),
{
    broadcast use {
        adds_self, adds_on, adds_add_imm, adds_dab, adds_elem_load, adds_elem_store, adds_fresh,
        adds_mv, adds_place, adds_retain_value, adds_test,
    };

}

pub broadcast proof fn adds_loop_next(sel: Sel, e: Env, body: usize, env: u64)
    ensures
        adds(sel, #[trigger] sel.loop_next(e, body, env)),
        moves(sel, sel.loop_next(e, body, env), one(body)),
{
    broadcast use {adds_self, adds_on, adds_add_imm, adds_br_lt, adds_emit};

}

pub broadcast proof fn adds_loop_open(sel: Sel, e: Env, p: Loop)
    ensures
        adds(sel, #[trigger] sel.loop_open(e, p)),
        moves(sel, sel.loop_open(e, p), none()),
{
    broadcast use {adds_self, adds_on, adds_imm_to, adds_loop_start, adds_mv, adds_new_elems};

}

pub broadcast proof fn adds_loop_step(sel: Sel, e: Env, p: Loop)
    ensures
        adds(sel, #[trigger] sel.loop_step(e, p)),
        moves(sel, sel.loop_step(e, p), none()),
{
    broadcast use {adds_self, adds_on, adds_call_fn, adds_call_ptr, adds_loop_args};

}

pub broadcast proof fn adds_loop_close(sel: Sel, e: Env, p: Loop, done: usize, exit: usize)
    ensures
        adds(sel, #[trigger] sel.loop_close(e, p, done, exit)),
        moves(sel, sel.loop_close(e, p, done, exit), one(done)),
        laid(sel.loop_close(e, p, done, exit), done),
        p.kind == Step::Any || p.kind == Step::All ==> laid(sel.loop_close(e, p, done, exit), exit),
{
    broadcast use {adds_self, adds_on, adds_imm_to, adds_jump, adds_mv, adds_place};

    let o = p.ops;
    let s = if p.kind == Step::Any || p.kind == Step::All {
        sel.jump(V::Blk(done)).place(exit).imm_to(
            o.dest as u64,
            if p.kind == Step::Any {
                1
            } else {
                0
            },
        )
    } else {
        sel
    };
    let s = s.place(done);
    let s = if p.kind == Step::Filter {
        s.mv(o.dest as u64, e.word(11), 8).mv((o.dest + 8) as u64, e.word(12), 8)
    } else {
        s
    };
    let n = sel.loop_close(e, p, done, exit);
    assert(n == Sel { loops: s.loops.push(p.shape.direct), ..s });
    assert(adds(s, n)) by {
        reveal(adds);
    }
    lemma_same_ops(s, n);
}

pub broadcast proof fn adds_list_loop(sel: Sel, e: Env, p: Loop)
    ensures
        adds(sel, #[trigger] sel.list_loop(e, p)),
        moves(sel, sel.list_loop(e, p), none()),
{
    reveal(Sel::list_loop);
    broadcast use {
        adds_self, adds_on, adds_br_lt, adds_fresh, adds_loop_answer, adds_loop_close,
        adds_loop_next, adds_loop_open, adds_loop_step, adds_place,
    };

}

pub broadcast proof fn adds_thunk_call(sel: Sel, c: Thk)
    ensures
        adds(sel, #[trigger] sel.thunk_call(c)),
        moves(sel, sel.thunk_call(c), none()),
{
    broadcast use {adds_self, adds_on, adds_call_ptr, adds_mv};

}

pub broadcast proof fn adds_new_block(sel: Sel, ptr: u64, dest: u64, n: u64, stride: u64)
    ensures
        adds(sel, #[trigger] sel.new_block(ptr, dest, n, stride)),
        moves(sel, sel.new_block(ptr, dest, n, stride), none()),
{
    broadcast use {adds_self, adds_on, adds_mv, adds_new_elems};

}

pub broadcast proof fn adds_list_find(
    sel: Sel,
    e: Env,
    x: Block,
    c: Thk,
    l: Layout,
    d: u64,
    index: bool,
)
    ensures
        adds(sel, #[trigger] sel.list_find(e, x, c, l, d, index)),
        moves(sel, sel.list_find(e, x, c, l, d, index), none()),
{
    broadcast use {
        adds_self, adds_on, adds_addk, adds_br_lt, adds_elem_load, adds_fresh, adds_imm_to,
        adds_jump, adds_mv, adds_place, adds_retain_counted, adds_store_disc, adds_test,
        adds_thunk_call,
    };

}

pub broadcast proof fn adds_list_fold_result(
    sel: Sel,
    e: Env,
    x: Block,
    c: Thk,
    l: Layout,
    res: u64,
    res_ty: Type,
    ctx: Option<(u32, Type)>,
    init: (u32, Type),
)
    ensures
        adds(sel, #[trigger] sel.list_fold_result(e, x, c, l, res, res_ty, ctx, init)),
        moves(sel, sel.list_fold_result(e, x, c, l, res, res_ty, ctx, init), none()),
{
    broadcast use {
        adds_self, adds_on, adds_addk, adds_br_lt, adds_elem_load, adds_fresh, adds_imm_to,
        adds_jump, adds_load_disc, adds_mv, adds_place, adds_retain_counted, adds_retain_value,
        adds_store_disc, adds_test_k, adds_thunk_call, adds_unsupported,
    };

}

pub broadcast proof fn adds_list_zip(sel: Sel, e: Env, a: Block, b: Block, out: usize, dest: u64)
    ensures
        adds(sel, #[trigger] sel.list_zip(e, a, b, out, dest)),
        moves(sel, sel.list_zip(e, a, b, out, dest), none()),
{
    broadcast use {
        adds_self, adds_on, adds_addk, adds_br_lt, adds_elem_load, adds_elem_store, adds_fresh,
        adds_imm_to, adds_jump, adds_mv, adds_new_block, adds_place, adds_retain_counted,
        adds_test_b, adds_unsupported,
    };

}

pub broadcast proof fn adds_list_flatten(sel: Sel, e: Env, x: Block, out: usize, dest: u64)
    ensures
        adds(sel, #[trigger] sel.list_flatten(e, x, out, dest)),
        moves(sel, sel.list_flatten(e, x, out, dest), none()),
{
    broadcast use {
        adds_self, adds_on, adds_addk, adds_br_lt, adds_dab, adds_elem_load, adds_elem_store,
        adds_fresh, adds_imm_to, adds_jump, adds_mv, adds_new_block, adds_place,
        adds_retain_counted, adds_unsupported,
    };

}

pub broadcast proof fn adds_clamp(sel: Sel, e: Env, d: u64, n: u64)
    ensures
        adds(sel, #[trigger] sel.clamp(e, d, n)),
        moves(sel, sel.clamp(e, d, n), none()),
{
    broadcast use {adds_self, adds_on, adds_fresh, adds_mv, adds_place, adds_test_b};

}

pub broadcast proof fn adds_sort_copy(sel: Sel, e: Env, x: Block)
    ensures
        adds(sel, #[trigger] sel.sort_copy(e, x)),
        moves(sel, sel.sort_copy(e, x), none()),
{
    broadcast use {
        adds_self, adds_on, adds_addk, adds_br_lt, adds_elem_load, adds_elem_store, adds_fresh,
        adds_imm_to, adds_jump, adds_place, adds_retain_counted,
    };

}

pub broadcast proof fn adds_sort_merge(sel: Sel, e: Env, x: Block, c: Thk)
    ensures
        adds(sel, #[trigger] sel.sort_merge(e, x, c)),
        moves(sel, sel.sort_merge(e, x, c), none()),
{
    broadcast use {
        adds_self, adds_on, adds_addk, adds_br_lt, adds_elem_load, adds_elem_store, adds_fresh,
        adds_jump, adds_load_disc, adds_mv, adds_place, adds_retain_counted, adds_test_k,
        adds_thunk_call,
    };

}

pub broadcast proof fn adds_sort_passes(sel: Sel, e: Env, x: Block, c: Thk)
    ensures
        adds(sel, #[trigger] sel.sort_passes(e, x, c)),
        moves(sel, sel.sort_passes(e, x, c), none()),
{
    broadcast use {
        adds_self, adds_on, adds_br_lt, adds_clamp, adds_dab, adds_fresh, adds_imm_to, adds_jump,
        adds_mv, adds_place, adds_sort_merge,
    };

}

pub broadcast proof fn adds_sort_home(sel: Sel, e: Env, x: Block)
    ensures
        adds(sel, #[trigger] sel.sort_home(e, x)),
        moves(sel, sel.sort_home(e, x), none()),
{
    broadcast use {
        adds_self, adds_on, adds_addk, adds_br_lt, adds_elem_load, adds_elem_store, adds_fresh,
        adds_imm_to, adds_jump, adds_place, adds_rc_block, adds_test_b,
    };

}

pub broadcast proof fn adds_list_sort(sel: Sel, e: Env, x: Block, c: Thk, dest: u64)
    ensures
        adds(sel, #[trigger] sel.list_sort(e, x, c, dest)),
        moves(sel, sel.list_sort(e, x, c, dest), none()),
{
    broadcast use {
        adds_self, adds_on, adds_mv, adds_new_block, adds_new_elems, adds_sort_copy, adds_sort_home,
        adds_sort_passes, adds_unsupported,
    };

}

pub broadcast proof fn adds_derive_array_eq(sel: Sel, e: Env, x: Block, y: u32, c: Thk, d: u64)
    ensures
        adds(sel, #[trigger] sel.derive_array_eq(e, x, y, c, d)),
        moves(sel, sel.derive_array_eq(e, x, y, c, d), none()),
{
    broadcast use {
        adds_self, adds_on, adds_addk, adds_br_lt, adds_elem_load, adds_fresh, adds_imm_to,
        adds_jump, adds_place, adds_retain_counted, adds_test, adds_test_b, adds_thunk_call,
    };

}

pub broadcast proof fn adds_derive_array_show(
    sel: Sel,
    e: Env,
    x: Block,
    c: Thk,
    text: usize,
    dest: u64,
)
    ensures
        adds(sel, #[trigger] sel.derive_array_show(e, x, c, text, dest)),
        moves(sel, sel.derive_array_show(e, x, c, text, dest), none()),
{
    broadcast use {
        adds_self, adds_on, adds_addk, adds_br_lt, adds_c_call, adds_elem_load, adds_elem_store,
        adds_fresh, adds_imm_to, adds_jump, adds_mv, adds_new_elems, adds_place, adds_rc_block,
        adds_retain_counted, adds_thunk_call, adds_unsupported, adds_walk,
    };

}

pub broadcast proof fn adds_extra_find(
    sel: Sel,
    e: Env,
    args: Seq<(u32, Type)>,
    dest: (u32, Type),
    index: bool,
)
    ensures
        adds(sel, (#[trigger] sel.extra_find(e, args, dest, index)).0),
        moves(sel, sel.extra_find(e, args, dest, index).0, none()),
{
    broadcast use {adds_self, adds_on, adds_list_find};

}

pub broadcast proof fn adds_extra_fold(
    sel: Sel,
    e: Env,
    args: Seq<(u32, Type)>,
    dest: (u32, Type),
    ctx: Option<(u32, Type)>,
    f: (u32, Type),
    init: (u32, Type),
)
    ensures
        adds(sel, (#[trigger] sel.extra_fold(e, args, dest, ctx, f, init)).0),
        moves(sel, sel.extra_fold(e, args, dest, ctx, f, init).0, none()),
{
    broadcast use {adds_self, adds_on, adds_list_fold_result};

}

#[verifier::spinoff_prover]
#[verifier::rlimit(60)]
pub broadcast proof fn adds_list_extra(
    sel: Sel,
    e: Env,
    key: Seq<char>,
    args: Seq<(u32, Type)>,
    dest: (u32, Type),
)
    ensures
        adds(sel, (#[trigger] sel.list_extra(e, key, args, dest)).0),
        moves(sel, sel.list_extra(e, key, args, dest).0, none()),
{
    reveal(Sel::list_extra);
    broadcast use {
        adds_self, adds_on, adds_derive_array_eq, adds_derive_array_show, adds_extra_find,
        adds_extra_fold, adds_list_flatten, adds_list_sort, adds_list_zip,
    };

}

pub broadcast proof fn adds_imm_num(sel: Sel, d: u64, p: Prim, v: u128)
    ensures
        adds(sel, #[trigger] sel.imm_num(d, p, v)),
        moves(sel, sel.imm_num(d, p, v), none()),
{
    broadcast use {adds_self, adds_on, adds_imm_to};

}

pub broadcast proof fn adds_widen(sel: Sel, src: u64, scratch: u64, bits: u32, signed: bool)
    ensures
        adds(sel, #[trigger] sel.widen(src, scratch, bits, signed)),
        moves(sel, sel.widen(src, scratch, bits, signed), none()),
{
    broadcast use {adds_self, adds_on, adds_da};

}

pub broadcast proof fn adds_narrow_float(sel: Sel, to: Prim, d: u64)
    ensures
        adds(sel, #[trigger] sel.narrow_float(to, d)),
        moves(sel, sel.narrow_float(to, d), none()),
{
    broadcast use {adds_self, adds_on, adds_da};

}

pub broadcast proof fn adds_convert(sel: Sel, e: Env, from: Prim, to: Prim, src: u64, dest: u64)
    ensures
        adds(sel, (#[trigger] sel.convert(e, from, to, src, dest)).0),
        sel.convert(e, from, to, src, dest).1 is None
            ==> moves(sel, sel.convert(e, from, to, src, dest).0, none()),
        keeps(sel, sel.convert(e, from, to, src, dest).0),
{
    reveal(Sel::convert);
    broadcast use {adds_self, adds_on, adds_da, adds_mv, adds_narrow_float, adds_widen};

}

pub broadcast proof fn adds_bound_test(
    sel: Sel,
    e: Env,
    op: Seq<char>,
    from: Prim,
    tag: Seq<char>,
    v: u128,
    src: u64,
    err: usize,
)
    ensures
        adds(sel, #[trigger] sel.bound_test(e, op, from, tag, v, src, err)),
        moves(sel, sel.bound_test(e, op, from, tag, v, src, err), one(err)),
{
    broadcast use {adds_self, adds_on, adds_dab, adds_imm_num, adds_test};

}

pub broadcast proof fn adds_convert_checked(
    sel: Sel,
    e: Env,
    fi: usize,
    from: Prim,
    to: Prim,
    src: u64,
    dest: u64,
)
    ensures
        adds(sel, (#[trigger] sel.convert_checked(e, fi, from, to, src, dest)).0),
        sel.convert_checked(e, fi, from, to, src, dest).1 is None
            ==> moves(sel, sel.convert_checked(e, fi, from, to, src, dest).0, none()),
        keeps(sel, sel.convert_checked(e, fi, from, to, src, dest).0),
{
    reveal(Sel::convert_checked);
    broadcast use {
        adds_self, adds_on, adds_add, adds_bound_test, adds_convert, adds_fresh, adds_jump,
        adds_place, adds_store_disc, adds_str_literal,
    };

}

pub broadcast proof fn adds_overflowing(sel: Sel, e: Env, key: Seq<char>, a: u64, b: u64)
    ensures
        adds(sel, #[trigger] sel.overflowing(e, key, a, b)),
        moves(sel, sel.overflowing(e, key, a, b), none()),
{
    broadcast use {adds_self, adds_on, adds_emit};

}

pub broadcast proof fn adds_checked(
    sel: Sel,
    e: Env,
    fi: usize,
    p: Prim,
    kind: Seq<char>,
    a: u64,
    b: u64,
    dest: u64,
)
    ensures
        adds(sel, (#[trigger] sel.checked(e, fi, p, kind, a, b, dest)).0),
        moves(sel, sel.checked(e, fi, p, kind, a, b, dest).0, none()),
{
    reveal(Sel::checked);
    broadcast use {
        adds_self, adds_on, adds_fresh, adds_jump, adds_overflowing, adds_place, adds_store_disc,
        adds_store_w, adds_test_k,
    };

}

pub broadcast proof fn adds_lt_zero(sel: Sel, d: u64, a: u64, tag: Seq<char>)
    ensures
        adds(sel, #[trigger] sel.lt_zero(d, a, tag)),
        moves(sel, sel.lt_zero(d, a, tag), none()),
{
    broadcast use {adds_self, adds_on, adds_dak};

}

pub broadcast proof fn adds_ran_off(
    sel: Sel,
    e: Env,
    p: Prim,
    tag: Seq<char>,
    kind: Seq<char>,
    a: u64,
    b: u64,
    dest: u64,
    done: usize,
)
    ensures
        adds(sel, #[trigger] sel.ran_off(e, p, tag, kind, a, b, dest, done)),
        moves(sel, sel.ran_off(e, p, tag, kind, a, b, dest, done), one(done)),
{
    broadcast use {
        adds_self, adds_on, adds_dab, adds_fresh, adds_imm_num, adds_jump, adds_lt_zero, adds_place,
        adds_test,
    };

}

pub broadcast proof fn adds_saturating(
    sel: Sel,
    e: Env,
    p: Prim,
    kind: Seq<char>,
    a: u64,
    b: u64,
    dest: u64,
)
    ensures
        adds(sel, (#[trigger] sel.saturating(e, p, kind, a, b, dest)).0),
        moves(sel, sel.saturating(e, p, kind, a, b, dest).0, none()),
{
    reveal(Sel::saturating);
    broadcast use {
        adds_self, adds_on, adds_fresh, adds_imm_num, adds_jump, adds_mv, adds_overflowing,
        adds_place, adds_ran_off, adds_test_k,
    };

}

pub broadcast proof fn adds_wrapping(
    sel: Sel,
    e: Env,
    p: Prim,
    kind: Seq<char>,
    a: u64,
    b: u64,
    dest: u64,
)
    ensures
        adds(sel, (#[trigger] sel.wrapping(e, p, kind, a, b, dest)).0),
        moves(sel, sel.wrapping(e, p, kind, a, b, dest).0, none()),
{
    reveal(Sel::wrapping);
    broadcast use {adds_self, adds_on, adds_dab};

}

pub broadcast proof fn adds_abs(
    sel: Sel,
    e: Env,
    p: Prim,
    tag: Seq<char>,
    signed: bool,
    a: u64,
    dest: u64,
)
    ensures
        adds(sel, #[trigger] sel.abs(e, p, tag, signed, a, dest)),
        moves(sel, sel.abs(e, p, tag, signed, a, dest), none()),
{
    broadcast use {
        adds_self, adds_on, adds_da, adds_dak, adds_fresh, adds_lt_zero, adds_mv, adds_place,
        adds_test,
    };

}

pub broadcast proof fn adds_sign_test(
    sel: Sel,
    e: Env,
    p: Prim,
    op: Seq<char>,
    tag: Seq<char>,
    a: u64,
    dest: u64,
    v: u128,
)
    ensures
        adds(sel, #[trigger] sel.sign_test(e, p, op, tag, a, dest, v)),
        moves(sel, sel.sign_test(e, p, op, tag, a, dest, v), none()),
{
    broadcast use {adds_self, adds_on, adds_emit, adds_fresh, adds_imm_num, adds_place, adds_test};

}

pub broadcast proof fn adds_signum(sel: Sel, e: Env, p: Prim, tag: Seq<char>, a: u64, dest: u64)
    ensures
        adds(sel, #[trigger] sel.signum(e, p, tag, a, dest)),
        moves(sel, sel.signum(e, p, tag, a, dest), none()),
{
    broadcast use {adds_self, adds_on, adds_imm_num, adds_sign_test};

}

pub broadcast proof fn adds_abs_signum(sel: Sel, e: Env, p: Prim, abs: bool, a: u64, dest: u64)
    ensures
        adds(sel, (#[trigger] sel.abs_signum(e, p, abs, a, dest)).0),
        moves(sel, sel.abs_signum(e, p, abs, a, dest).0, none()),
{
    reveal(Sel::abs_signum);
    broadcast use {adds_self, adds_on, adds_abs, adds_signum};

}

pub broadcast proof fn adds_order_step(sel: Sel, e: Env, key: Seq<char>, a: u64, b: u64, v: u64)
    ensures
        adds(sel, #[trigger] sel.order_step(e, key, a, b, v)),
        moves(sel, sel.order_step(e, key, a, b, v), none()),
{
    broadcast use {adds_self, adds_on, adds_dab, adds_fresh, adds_imm_to, adds_place, adds_test};

}

pub broadcast proof fn adds_order(sel: Sel, e: Env, lt: Seq<char>, gt: Seq<char>, a: u64, b: u64)
    ensures
        adds(sel, #[trigger] sel.order(e, lt, gt, a, b)),
        moves(sel, sel.order(e, lt, gt, a, b), none()),
{
    broadcast use {adds_self, adds_on, adds_imm_to, adds_order_step};

}

pub broadcast proof fn adds_compare_prim(sel: Sel, e: Env, p: Prim, a: u64, b: u64, dest: u64, w: u32)
    ensures
        adds(sel, #[trigger] sel.compare_prim(e, p, a, b, dest, w)),
        moves(sel, sel.compare_prim(e, p, a, b, dest, w), none()),
{
    broadcast use {adds_self, adds_on, adds_order, adds_store_w, adds_unsupported};

}

pub broadcast proof fn adds_hash_prim(sel: Sel, e: Env, p: Prim, acc: u64, v: u64, dest: u64)
    ensures
        adds(sel, #[trigger] sel.hash_prim(e, p, acc, v, dest)),
        moves(sel, sel.hash_prim(e, p, acc, v, dest), none()),
{
    broadcast use {adds_self, adds_on, adds_c_call, adds_da};

}

pub broadcast proof fn adds_shift_count_check(sel: Sel, e: Env, count: u64, width: u32)
    ensures
        adds(sel, #[trigger] sel.shift_count_check(e, count, width)),
        moves(sel, sel.shift_count_check(e, count, width), none()),
{
    broadcast use {adds_self, adds_on, adds_c_call, adds_dak, adds_fresh, adds_place, adds_test};

}

pub broadcast proof fn adds_bits_at(
    sel: Sel,
    e: Env,
    key: Seq<char>,
    d: u64,
    a: u64,
    count: Option<u64>,
)
    ensures
        adds(sel, (#[trigger] sel.bits_at(e, key, d, a, count)).0),
        moves(sel, sel.bits_at(e, key, d, a, count).0, none()),
{
    reveal(Sel::bits_at);
    broadcast use {adds_self, adds_on, adds_da, adds_dab, adds_shift_count_check, adds_unsupported};

}

pub broadcast proof fn adds_prim_trait_at(
    sel: Sel,
    e: Env,
    key: Seq<char>,
    d: u64,
    a: u64,
    b: u64,
    tag: Option<Option<u32>>,
)
    ensures
        adds(sel, (#[trigger] sel.prim_trait_at(e, key, d, a, b, tag)).0),
        moves(sel, sel.prim_trait_at(e, key, d, a, b, tag).0, none()),
{
    reveal(Sel::prim_trait_at);
    broadcast use {
        adds_self, adds_on, adds_add, adds_c_call, adds_dab, adds_imm_to, adds_mv, adds_order,
        adds_store_w, adds_unsupported,
    };

}

pub broadcast proof fn adds_constant(sel: Sel, e: Env, off: u64, ty: Type, value: Const)
    ensures
        adds(sel, #[trigger] sel.constant(e, off, ty, value)),
        moves(sel, sel.constant(e, off, ty, value), none()),
{
    broadcast use {adds_self, adds_on, adds_imm_to, adds_str_literal};

}

pub broadcast proof fn adds_box_into(sel: Sel, e: Env, dest: u64, src: u64, size: u64)
    ensures
        adds(sel, #[trigger] sel.box_into(e, dest, src, size)),
        moves(sel, sel.box_into(e, dest, src, size), none()),
{
    broadcast use {adds_self, adds_on, adds_elem_store, adds_imm_to, adds_mv, adds_new_elems};

}

pub broadcast proof fn adds_unbox_from(sel: Sel, e: Env, dest: u64, at: u64, size: u64)
    ensures
        adds(sel, #[trigger] sel.unbox_from(e, dest, at, size)),
        moves(sel, sel.unbox_from(e, dest, at, size), none()),
{
    broadcast use {adds_self, adds_on, adds_elem_load, adds_imm_to};

}

pub broadcast proof fn adds_write_field(sel: Sel, e: Env, boxed: bool, to: u64, src: u64, w: u64)
    ensures
        adds(sel, #[trigger] sel.write_field(e, boxed, to, src, w)),
        moves(sel, sel.write_field(e, boxed, to, src, w), none()),
{
    broadcast use {adds_self, adds_on, adds_box_into, adds_store_w};

}

pub broadcast proof fn adds_read_field(sel: Sel, e: Env, boxed: bool, d: u64, from: u64, w: u64)
    ensures
        adds(sel, #[trigger] sel.read_field(e, boxed, d, from, w)),
        moves(sel, sel.read_field(e, boxed, d, from, w), none()),
{
    broadcast use {adds_self, adds_on, adds_load_w, adds_unbox_from};

}

pub broadcast proof fn adds_struct_fields(
    sel: Sel,
    e: Env,
    code: Code,
    id: usize,
    d: u64,
    fields: Seq<usize>,
    i: int,
)
    ensures
        adds(sel, #[trigger] sel.struct_fields(e, code, id, d, fields, i)),
        moves(sel, sel.struct_fields(e, code, id, d, fields, i), none()),
    decreases fields.len() - i,
{
    broadcast use {adds_self, adds_on, adds_write_field};

    if i >= fields.len() {
    } else {
        let info = e.prog.tables.at(id as int);
        let w = e.width(code.ty(fields[i]));
        let s = if w == 0 || i >= info.layout.fields.len() {
            sel
        } else {
            sel.write_field(
                e,
                info.field_boxed(i),
                (d + info.layout.fields[i]) as u64,
                e.at(fields[i]),
                w as u64,
            )
        };
        adds_struct_fields(s, e, code, id, d, fields, i + 1);
    }
}

pub broadcast proof fn adds_make_struct(sel: Sel, e: Env, code: Code, dest: usize, fields: Seq<usize>)
    ensures
        adds(sel, #[trigger] sel.make_struct(e, code, dest, fields)),
        moves(sel, sel.make_struct(e, code, dest, fields), none()),
{
    broadcast use {adds_self, adds_on, adds_struct_fields, adds_unsupported};

}

pub broadcast proof fn adds_get_field(
    sel: Sel,
    e: Env,
    code: Code,
    dest: usize,
    agg: usize,
    index: usize,
)
    ensures
        adds(sel, #[trigger] sel.get_field(e, code, dest, agg, index)),
        moves(sel, sel.get_field(e, code, dest, agg, index), none()),
{
    broadcast use {adds_self, adds_on, adds_read_field, adds_unsupported};

}

pub broadcast proof fn adds_store_variant(
    sel: Sel,
    e: Env,
    code: Code,
    id: usize,
    variant: usize,
    d: u64,
    fields: Seq<usize>,
    i: int,
)
    ensures
        adds(sel, #[trigger] sel.store_variant(e, code, id, variant, d, fields, i)),
        moves(sel, sel.store_variant(e, code, id, variant, d, fields, i), none()),
    decreases fields.len() - i,
{
    broadcast use {adds_self, adds_on, adds_write_field};

    if i >= fields.len() {
    } else {
        let info = e.prog.tables.at(id as int);
        let s = match info.layout.payload(variant as int, i) {
            Some(o) => sel.write_field(
                e,
                info.payload_boxed(variant as int, i),
                (d + o) as u64,
                e.at(fields[i]),
                e.width(code.ty(fields[i])) as u64,
            ),
            None => sel,
        };
        adds_store_variant(s, e, code, id, variant, d, fields, i + 1);
    }
}

pub broadcast proof fn adds_make_enum(
    sel: Sel,
    e: Env,
    code: Code,
    dest: usize,
    variant: usize,
    fields: Seq<usize>,
)
    ensures
        adds(sel, #[trigger] sel.make_enum(e, code, dest, variant, fields)),
        moves(sel, sel.make_enum(e, code, dest, variant, fields), none()),
{
    broadcast use {
        adds_self, adds_on, adds_imm_to, adds_imm_w, adds_store_variant, adds_unsupported,
    };

}

pub broadcast proof fn adds_get_payload(
    sel: Sel,
    e: Env,
    code: Code,
    dest: usize,
    agg: usize,
    variant: usize,
    index: usize,
)
    ensures
        adds(sel, #[trigger] sel.get_payload(e, code, dest, agg, variant, index)),
        moves(sel, sel.get_payload(e, code, dest, agg, variant, index), none()),
{
    broadcast use {adds_self, adds_on, adds_read_field, adds_unsupported};

}

pub broadcast proof fn adds_get_tag(sel: Sel, e: Env, code: Code, dest: usize, agg: usize)
    ensures
        adds(sel, #[trigger] sel.get_tag(e, code, dest, agg)),
        moves(sel, sel.get_tag(e, code, dest, agg), none()),
{
    broadcast use {adds_self, adds_on, adds_load_disc, adds_unsupported};

}

pub broadcast proof fn adds_helper_if(sel: Sel, wanted: bool, h: Helper)
    ensures
        adds(sel, #[trigger] sel.helper_if(wanted, h)),
        moves(sel, sel.helper_if(wanted, h), none()),
{
    broadcast use {adds_self, adds_on, adds_helper};

}

pub broadcast proof fn adds_env_word(sel: Sel, e: Env, h: Option<usize>, at: u64)
    ensures
        adds(sel, #[trigger] sel.env_word(e, h, at)),
        moves(sel, sel.env_word(e, h, at), none()),
{
    broadcast use {adds_self, adds_on, adds_emit, adds_sym_or_zero};

}

pub broadcast proof fn adds_build_env(sel: Sel, e: Env, code: Code, dest: u64, env: usize)
    ensures
        adds(sel, #[trigger] sel.build_env(e, code, dest, env)),
        moves(sel, sel.build_env(e, code, dest, env), none()),
{
    broadcast use {
        adds_self, adds_on, adds_elem_store, adds_env_word, adds_helper_if, adds_imm_to, adds_mv,
        adds_new_elems,
    };

}

pub broadcast proof fn adds_make_closure(
    sel: Sel,
    e: Env,
    code: Code,
    dest: usize,
    func: usize,
    env: Option<usize>,
)
    ensures
        adds(sel, #[trigger] sel.make_closure(e, code, dest, func, env)),
        moves(sel, sel.make_closure(e, code, dest, func, env), none()),
{
    broadcast use {
        adds_self, adds_on, adds_build_env, adds_helper, adds_imm_to, adds_imm_to_ptr,
        adds_unsupported,
    };

}

pub broadcast proof fn adds_abort(sel: Sel, bytes: Seq<u8>)
    ensures
        adds(sel, #[trigger] sel.abort(bytes)),
        moves(sel, sel.abort(bytes), none()),
{
    broadcast use {adds_self, adds_on, adds_emit, adds_pool};

}

pub broadcast proof fn adds_store_pieces(sel: Sel, d0: u64, src: u64, base: u64, done: u64, w: u64)
    ensures
        adds(sel, #[trigger] sel.store_pieces(d0, src, base, done, w)),
        moves(sel, sel.store_pieces(d0, src, base, done, w), none()),
    decreases w - done,
{
    broadcast use {adds_self, adds_on, adds_emit};

    if done >= w {
    } else {
        let n = piece((w - done) as u64);
        adds_store_pieces(
            sel.emit(
                "pstore/"@ + decimal(n as nat),
                seq![
                    (H::A, V::I(d0)),
                    (H::B, V::I((src + done) as u64)),
                    (H::N, V::I((base + done) as u64)),
                    (H::Cont, V::Fall),
                ],
            ),
            d0,
            src,
            base,
            (done + n) as u64,
            w,
        );
    }
}

pub broadcast proof fn adds_store_elems(
    sel: Sel,
    e: Env,
    code: Code,
    d0: u64,
    stride: u64,
    elems: Seq<usize>,
    i: int,
    base: u64,
)
    ensures
        adds(sel, #[trigger] sel.store_elems(e, code, d0, stride, elems, i, base)),
        moves(sel, sel.store_elems(e, code, d0, stride, elems, i, base), none()),
    decreases elems.len() - i,
{
    broadcast use {adds_self, adds_on, adds_store_pieces};

    if i >= elems.len() {
    } else {
        let w = e.width(code.ty(elems[i])) as u64;
        let n = if w < stride {
            w
        } else {
            stride
        };
        adds_store_elems(
            sel.store_pieces(d0, e.at(elems[i]), base, 0, n),
            e,
            code,
            d0,
            stride,
            elems,
            i + 1,
            (base + stride) as u64,
        );
    }
}

pub broadcast proof fn adds_make_array(sel: Sel, e: Env, code: Code, dest: usize, elems: Seq<usize>)
    ensures
        adds(sel, #[trigger] sel.make_array(e, code, dest, elems)),
        moves(sel, sel.make_array(e, code, dest, elems), none()),
{
    broadcast use {
        adds_self, adds_on, adds_imm_to, adds_new_elems, adds_store_elems, adds_unsupported,
    };

}

pub broadcast proof fn adds_array_get(
    sel: Sel,
    e: Env,
    code: Code,
    dest: usize,
    array: usize,
    index: usize,
)
    ensures
        adds(sel, #[trigger] sel.array_get(e, code, dest, array, index)),
        moves(sel, sel.array_get(e, code, dest, array, index), none()),
{
    broadcast use {adds_self, adds_on, adds_elem_load, adds_mv, adds_unsupported};

}

pub broadcast proof fn adds_array_slice(
    sel: Sel,
    e: Env,
    code: Code,
    dest: usize,
    array: usize,
    from: usize,
)
    ensures
        adds(sel, #[trigger] sel.array_slice(e, code, dest, array, from)),
        moves(sel, sel.array_slice(e, code, dest, array, from), none()),
{
    broadcast use {adds_self, adds_on, adds_c_call, adds_helper_if, adds_unsupported};

}

pub broadcast proof fn adds_structural(
    sel: Sel,
    e: Env,
    code: Code,
    dest: usize,
    op: StructuralOp,
    ty: usize,
    args: Seq<usize>,
)
    ensures
        adds(sel, #[trigger] sel.structural(e, code, dest, op, ty, args)),
        moves(sel, sel.structural(e, code, dest, op, ty, args), none()),
{
    broadcast use {adds_self, adds_on, adds_add, adds_mv, adds_unsupported};

}

pub broadcast proof fn adds_str_binary(sel: Sel, e: Env, dest: usize, op: BinOp, lhs: usize, rhs: usize)
    ensures
        adds(sel, #[trigger] sel.str_binary(e, dest, op, lhs, rhs)),
        moves(sel, sel.str_binary(e, dest, op, lhs, rhs), none()),
{
    broadcast use {adds_self, adds_on, adds_add, adds_unsupported};

}

pub broadcast proof fn adds_binary_wide(
    sel: Sel,
    e: Env,
    op: BinOp,
    t: (Seq<char>, u32, bool),
    d: u64,
    a: u64,
    b: u64,
)
    ensures
        adds(sel, #[trigger] sel.binary_wide(e, op, t, d, a, b)),
        moves(sel, sel.binary_wide(e, op, t, d, a, b), none()),
{
    broadcast use {adds_self, adds_on, adds_da, adds_dab};

}

pub broadcast proof fn adds_binary(
    sel: Sel,
    e: Env,
    dest: usize,
    op: BinOp,
    p: Prim,
    lhs: usize,
    rhs: usize,
)
    ensures
        adds(sel, #[trigger] sel.binary(e, dest, op, p, lhs, rhs)),
        moves(sel, sel.binary(e, dest, op, p, lhs, rhs), none()),
{
    broadcast use {
        adds_self, adds_on, adds_binary_wide, adds_constant, adds_emit, adds_str_binary,
        adds_unsupported,
    };

}

pub broadcast proof fn adds_unary(sel: Sel, e: Env, dest: usize, op: UnOp, p: Prim, arg: usize)
    ensures
        adds(sel, #[trigger] sel.unary(e, dest, op, p, arg)),
        moves(sel, sel.unary(e, dest, op, p, arg), none()),
{
    broadcast use {adds_self, adds_on, adds_da, adds_unsupported};

}

pub broadcast proof fn adds_pass_args(
    sel: Sel,
    e: Env,
    code: Code,
    offs: Seq<u32>,
    args: Seq<usize>,
    i: int,
)
    ensures
        adds(sel, #[trigger] sel.pass_args(e, code, offs, args, i)),
        moves(sel, sel.pass_args(e, code, offs, args, i), none()),
    decreases args.len() - i,
{
    broadcast use {adds_self, adds_on, adds_mv};

    if i >= args.len() || i >= offs.len() {
    } else {
        adds_pass_args(
            sel.mv((e.frame.size + offs[i]) as u64, e.at(args[i]), e.slot_bytes(code.ty(args[i]))),
            e,
            code,
            offs,
            args,
            i + 1,
        );
    }
}

pub broadcast proof fn adds_take_rets(
    sel: Sel,
    e: Env,
    code: Code,
    offs: Seq<u32>,
    dests: Seq<usize>,
    i: int,
)
    ensures
        adds(sel, #[trigger] sel.take_rets(e, code, offs, dests, i)),
        moves(sel, sel.take_rets(e, code, offs, dests, i), none()),
    decreases dests.len() - i,
{
    broadcast use {adds_self, adds_on, adds_mv};

    if i >= dests.len() || i >= offs.len() {
    } else {
        adds_take_rets(
            sel.mv(
                e.at(dests[i]),
                (e.frame.size + offs[i]) as u64,
                e.slot_bytes(code.ty(dests[i])),
            ),
            e,
            code,
            offs,
            dests,
            i + 1,
        );
    }
}

pub broadcast proof fn adds_call_plain(
    sel: Sel,
    e: Env,
    code: Code,
    dests: Seq<usize>,
    func: usize,
    args: Seq<usize>,
)
    ensures
        adds(sel, #[trigger] sel.call_plain(e, code, dests, func, args)),
        moves(sel, sel.call_plain(e, code, dests, func, args), none()),
{
    broadcast use {adds_self, adds_on, adds_call_fn, adds_pass_args, adds_take_rets};

}

pub broadcast proof fn adds_call(
    sel: Sel,
    e: Env,
    code: Code,
    dests: Seq<usize>,
    func: usize,
    args: Seq<usize>,
)
    ensures
        adds(sel, #[trigger] sel.call(e, code, dests, func, args)),
        moves(sel, sel.call(e, code, dests, func, args), none()),
{
    broadcast use {adds_self, adds_on, adds_add, adds_call_plain, adds_list_extra, adds_list_loop};

}

pub broadcast proof fn adds_push_args(sel: Sel, e: Env, code: Code, args: Seq<usize>, at: u64, i: int)
    ensures
        adds(sel, #[trigger] sel.push_args(e, code, args, at, i)),
        moves(sel, sel.push_args(e, code, args, at, i), none()),
    decreases args.len() - i,
{
    broadcast use {adds_self, adds_on, adds_mv};

    if i >= args.len() {
    } else {
        let n = e.slot_bytes(code.ty(args[i]));
        adds_push_args(
            sel.mv((e.frame.size + at) as u64, e.at(args[i]), n),
            e,
            code,
            args,
            (at + n) as u64,
            i + 1,
        );
    }
}

pub broadcast proof fn adds_pull_rets(sel: Sel, e: Env, code: Code, dests: Seq<usize>, at: u64, i: int)
    ensures
        adds(sel, #[trigger] sel.pull_rets(e, code, dests, at, i)),
        moves(sel, sel.pull_rets(e, code, dests, at, i), none()),
    decreases dests.len() - i,
{
    broadcast use {adds_self, adds_on, adds_mv};

    if i >= dests.len() {
    } else {
        let n = e.slot_bytes(code.ty(dests[i]));
        adds_pull_rets(
            sel.mv(e.at(dests[i]), (e.frame.size + at) as u64, n),
            e,
            code,
            dests,
            (at + n) as u64,
            i + 1,
        );
    }
}

pub broadcast proof fn adds_call_indirect(
    sel: Sel,
    e: Env,
    code: Code,
    dests: Seq<usize>,
    callee: usize,
    args: Seq<usize>,
)
    ensures
        adds(sel, #[trigger] sel.call_indirect(e, code, dests, callee, args)),
        moves(sel, sel.call_indirect(e, code, dests, callee, args), none()),
{
    broadcast use {adds_self, adds_on, adds_call_ptr, adds_mv, adds_pull_rets, adds_push_args};

}

pub broadcast proof fn adds_json_prim(sel: Sel, e: Env, code: Code, p: Prim, arg: usize, dest: usize)
    ensures
        adds(sel, (#[trigger] sel.json_prim(e, code, p, arg, dest)).0),
        sel.json_prim(e, code, p, arg, dest).1 is None
            ==> moves(sel, sel.json_prim(e, code, p, arg, dest).0, none()),
        keeps(sel, sel.json_prim(e, code, p, arg, dest).0),
{
    broadcast use {
        adds_self, adds_on, adds_c_call, adds_convert, adds_imm_w, adds_mv, adds_rc, adds_store_w,
    };

}

pub broadcast proof fn adds_str_arg(sel: Sel, at: u64, scratch: u64)
    ensures
        adds(sel, #[trigger] sel.str_arg(at, scratch)),
        moves(sel, sel.str_arg(at, scratch), none()),
{
    broadcast use {adds_self, adds_on, adds_add};

}

pub broadcast proof fn adds_abort_with(sel: Sel, symbol: Seq<char>, at: u64, scratch: u64)
    ensures
        adds(sel, #[trigger] sel.abort_with(symbol, at, scratch)),
        moves(sel, sel.abort_with(symbol, at, scratch), none()),
{
    broadcast use {adds_self, adds_on, adds_c_call, adds_str_arg};

}

pub broadcast proof fn adds_report(sel: Sel, e: Env, at: u64, text: u64, scratch: u64)
    ensures
        adds(sel, #[trigger] sel.report(e, at, text, scratch)),
        moves(sel, sel.report(e, at, text, scratch), none()),
{
    broadcast use {adds_self, adds_on, adds_abort_with, adds_fresh, adds_place, adds_test};

}

pub broadcast proof fn adds_report_shown(sel: Sel, a: u64, b: u64, c: u64, scratch: u64)
    ensures
        adds(sel, #[trigger] sel.report_shown(a, b, c, scratch)),
        moves(sel, sel.report_shown(a, b, c, scratch), none()),
{
    broadcast use {adds_self, adds_on, adds_c_call, adds_str_arg};

}

pub broadcast proof fn adds_store_reg(sel: Sel, d: u64, k: u8, float: bool)
    ensures
        adds(sel, #[trigger] sel.store_reg(d, k, float)),
        moves(sel, sel.store_reg(d, k, float), none()),
{
    broadcast use {adds_self, adds_on, adds_emit};

}

pub broadcast proof fn adds_copy(sel: Sel, m: Move)
    ensures
        adds(sel, #[trigger] sel.copy(m)),
        moves(sel, sel.copy(m), none()),
{
    broadcast use {adds_self, adds_on, adds_emit, adds_mv, adds_store_reg};

}

pub broadcast proof fn adds_copies(sel: Sel, ms: Seq<Move>, i: int)
    ensures
        adds(sel, #[trigger] sel.copies(ms, i)),
        moves(sel, sel.copies(ms, i), none()),
    decreases ms.len() - i,
{
    broadcast use {adds_self, adds_on, adds_copy};

    if i >= ms.len() {
    } else {
        adds_copies(sel.copy(ms[i]), ms, i + 1);
    }
}

pub broadcast proof fn adds_copies_at_once(sel: Sel, ms: Seq<Move>, tmp: u64)
    ensures
        adds(sel, #[trigger] sel.copies_at_once(ms, tmp)),
        moves(sel, sel.copies_at_once(ms, tmp), none()),
{
    broadcast use {adds_self, adds_on, adds_copies, adds_unsupported};

}

pub broadcast proof fn adds_edge_stores(
    sel: Sel,
    e: Env,
    code: Code,
    params: Seq<usize>,
    args: Seq<usize>,
    i: int,
)
    ensures
        adds(sel, #[trigger] sel.edge_stores(e, code, params, args, i)),
        moves(sel, sel.edge_stores(e, code, params, args, i), none()),
    decreases params.len() - i,
{
    broadcast use {adds_self, adds_on, adds_store_reg};

    if i >= params.len() || i >= args.len() {
    } else {
        let s = match e.loc(params[i]) {
            Loc::Reg(k) => if e.loc(args[i]) == Loc::Reg(k) && e.write_through(params[i]) {
                sel.store_reg(e.at(params[i]), k, code.ty(params[i]) == Type::F64)
            } else {
                sel
            },
            _ => sel,
        };
        adds_edge_stores(s, e, code, params, args, i + 1);
    }
}

pub broadcast proof fn adds_edge(sel: Sel, e: Env, code: Code, t: Target)
    ensures
        adds(sel, #[trigger] sel.edge(e, code, t)),
        moves(sel, sel.edge(e, code, t), none()),
{
    broadcast use {adds_self, adds_on, adds_copies_at_once, adds_edge_stores};

}

pub broadcast proof fn adds_jump_fused(sel: Sel, e: Env, code: Code, t: Target)
    ensures
        adds(sel, #[trigger] sel.jump_fused(e, code, t)),
        moves(sel, sel.jump_fused(e, code, t), one(t.block)),
{
    broadcast use {adds_on, adds_emit};

    let pairs = e.pairs(code.params(t.block), t.args@, 0);
    lemma_copy_binds(pairs, 0);
    let binds = copy_binds(pairs, 0).push((H::T, V::Blk(t.block)));
    assert forall|l: usize| bound_labels(binds).contains(l) implies l == t.block by {
        let i = choose|i: int| 0 <= i < binds.len() && (#[trigger] binds[i]).1 == V::Blk(l);
        if i < copy_binds(pairs, 0).len() {
            assert(copy_binds(pairs, 0)[i].1 is I);
        }
    }
}

pub broadcast proof fn adds_cond(
    sel: Sel,
    e: Env,
    cond: usize,
    compare: Option<(BinOp, Prim, usize, usize)>,
    tv: V,
    fv: V,
    fall: Option<H>,
)
    ensures
        adds(sel, #[trigger] sel.cond(e, cond, compare, tv, fv, fall)),
        moves(sel, sel.cond(e, cond, compare, tv, fv, fall), of(tv).union(of(fv))),
{
    broadcast use {adds_self, adds_on, adds_constant, adds_emit, adds_test, adds_unsupported};

}

pub broadcast proof fn adds_branch(
    sel: Sel,
    e: Env,
    code: Code,
    next: Option<usize>,
    cond: usize,
    then: Target,
    else_: Target,
    compare: Option<(BinOp, Prim, usize, usize)>,
)
    ensures
        adds(sel, #[trigger] sel.branch(e, code, next, cond, then, else_, compare)),
        moves(
            sel,
            sel.branch(e, code, next, cond, then, else_, compare),
            one(then.block).union(one(else_.block)),
        ),
{
    broadcast use {adds_self, adds_on, adds_cond, adds_edge, adds_fresh, adds_jump, adds_place};

}

pub broadcast proof fn adds_switch_source(sel: Sel, e: Env, code: Code, tagsw: Option<usize>)
    ensures
        adds(sel, #[trigger] sel.switch_source(e, code, tagsw)),
        moves(sel, sel.switch_source(e, code, tagsw), none()),
{
    broadcast use {adds_self, adds_on, adds_load_w, adds_niche_tag};

}

pub broadcast proof fn adds_switch_cases(
    sel: Sel,
    e: Env,
    code: Code,
    next: Option<usize>,
    src: u64,
    fused: Option<Seq<char>>,
    cases: Seq<(u64, Target)>,
    default: Option<Target>,
    i: int,
)
    requires
        0 <= i,
    ensures
        adds(sel, #[trigger] sel.switch_cases(e, code, next, src, fused, cases, default, i)),
        moves(
            sel,
            sel.switch_cases(e, code, next, src, fused, cases, default, i),
            case_blocks(cases, default),
        ),
    decreases cases.len() - i,
{
    broadcast use {adds_self, adds_on, adds_edge, adds_emit, adds_fresh, adds_jump, adds_place};

    if i >= cases.len() {
    } else {
        let k = cases[i].0;
        let t = cases[i].1;
        if default is None && cases.len() > 1 && i == cases.len() - 1 {
        } else {
            let lnext = sel.next();
            let direct = code.params(t.block).len() == 0;
            let s = sel.fresh().emit(
                e.arm(
                    match fused {
                        Some(f) => f,
                        None => "brcmp/eq/u64/fi"@,
                    },
                    H::T,
                ),
                seq![
                    (H::A, V::I(src)),
                    (
                        H::T,
                        if direct {
                            V::Blk(t.block)
                        } else {
                            V::Fall
                        },
                    ),
                    (H::F, V::Blk(lnext)),
                    (
                        if fused is Some {
                            H::N
                        } else {
                            H::K
                        },
                        V::I(k),
                    ),
                ],
            );
            let s = if direct {
                s
            } else {
                s.edge(e, code, t).jump(V::Blk(t.block))
            };
            adds_switch_cases(s.place(lnext), e, code, next, src, fused, cases, default, i + 1);
        }
    }
}

pub broadcast proof fn adds_switch(
    sel: Sel,
    e: Env,
    code: Code,
    next: Option<usize>,
    on: usize,
    cases: Seq<(u64, Target)>,
    default: Option<Target>,
    tagsw: Option<usize>,
)
    ensures
        adds(sel, #[trigger] sel.switch(e, code, next, on, cases, default, tagsw)),
        moves(
            sel,
            sel.switch(e, code, next, on, cases, default, tagsw),
            case_blocks(cases, default),
        ),
{
    broadcast use {adds_self, adds_on, adds_switch_cases, adds_switch_source};

}

pub broadcast proof fn adds_give_rets(sel: Sel, e: Env, code: Code, vs: Seq<usize>, i: int)
    ensures
        adds(sel, #[trigger] sel.give_rets(e, code, vs, i)),
        moves(sel, sel.give_rets(e, code, vs, i), none()),
    decreases vs.len() - i,
{
    broadcast use {adds_self, adds_on, adds_mv};

    if i >= vs.len() || i >= e.frame.ret.len() {
    } else {
        adds_give_rets(
            sel.mv(e.frame.ret[i] as u64, e.at(vs[i]), e.slot_bytes(code.ty(vs[i]))),
            e,
            code,
            vs,
            i + 1,
        );
    }
}

pub broadcast proof fn adds_term(
    sel: Sel,
    e: Env,
    code: Code,
    next: Option<usize>,
    t: Term,
    compare: Option<(BinOp, Prim, usize, usize)>,
    tagsw: Option<usize>,
)
    ensures
        adds(sel, #[trigger] sel.term(e, code, next, t, compare, tagsw)),
        moves(sel, sel.term(e, code, next, t, compare, tagsw), term_blocks(t)),
{
    broadcast use {
        adds_self, adds_on, adds_branch, adds_edge, adds_emit, adds_give_rets, adds_jump,
        adds_jump_fused, adds_ret, adds_switch,
    };

}

pub broadcast proof fn adds_fail_shown(sel: Sel, a: u64, b: u64, scratch: u64)
    ensures
        adds(sel, #[trigger] sel.fail_shown(a, b, scratch)),
        moves(sel, sel.fail_shown(a, b, scratch), none()),
{
    broadcast use {adds_self, adds_on, adds_c_call, adds_str_arg};

}

pub broadcast proof fn adds_intrinsic_derived(
    sel: Sel,
    e: Env,
    code: Code,
    dests: Seq<usize>,
    key: Seq<char>,
    args: Seq<usize>,
)
    ensures
        adds(sel, #[trigger] sel.intrinsic_derived(e, code, dests, key, args)),
        moves(sel, sel.intrinsic_derived(e, code, dests, key, args), none()),
{
    broadcast use {adds_self, adds_on, adds_add, adds_hash_prim, adds_json_prim, adds_unsupported};

}

pub broadcast proof fn adds_intrinsic_leaf(
    sel: Sel,
    e: Env,
    code: Code,
    dests: Seq<usize>,
    key: Seq<char>,
    args: Seq<usize>,
)
    ensures
        adds(sel, (#[trigger] sel.intrinsic_leaf(e, code, dests, key, args)).0),
        moves(sel, sel.intrinsic_leaf(e, code, dests, key, args).0, none()),
{
    broadcast use {adds_self, adds_on, adds_bits_at, adds_list_extra, adds_prim_trait_at};

}

pub broadcast proof fn adds_intrinsic_other(
    sel: Sel,
    e: Env,
    code: Code,
    dests: Seq<usize>,
    key: Seq<char>,
    args: Seq<usize>,
)
    ensures
        adds(sel, #[trigger] sel.intrinsic_other(e, code, dests, key, args)),
        moves(sel, sel.intrinsic_other(e, code, dests, key, args), none()),
{
    broadcast use {adds_self, adds_on, adds_intrinsic_derived, adds_intrinsic_leaf, adds_list_loop};

}

pub broadcast proof fn adds_intrinsic(
    sel: Sel,
    e: Env,
    code: Code,
    dests: Seq<usize>,
    key: Seq<char>,
    args: Seq<usize>,
)
    ensures
        adds(sel, #[trigger] sel.intrinsic(e, code, dests, key, args)),
        moves(sel, sel.intrinsic(e, code, dests, key, args), none()),
{
    broadcast use {
        adds_self, adds_on, adds_abort_with, adds_add, adds_fail_shown, adds_imm_to,
        adds_intrinsic_other, adds_mv, adds_report, adds_report_shown,
    };

}

pub broadcast proof fn adds_ret_or_refuse(sel: Sel, why: Option<Seq<char>>)
    ensures
        adds(sel, #[trigger] sel.ret_or_refuse(why)),
        moves(sel, sel.ret_or_refuse(why), none()),
{
    broadcast use {adds_self, adds_on, adds_ret, adds_unsupported};

}

pub broadcast proof fn adds_ret_if(sel: Sel, done: bool, key: Seq<char>)
    ensures
        adds(sel, #[trigger] sel.ret_if(done, key)),
        moves(sel, sel.ret_if(done, key), none()),
{
    broadcast use {adds_self, adds_on, adds_ret, adds_unsupported};

}

pub broadcast proof fn adds_text_lens(sel: Sel, params: Seq<u32>, len_at: u64, i: int)
    ensures
        adds(sel, #[trigger] sel.text_lens(params, len_at, i)),
        moves(sel, sel.text_lens(params, len_at, i), none()),
    decreases params.len() - i,
{
    broadcast use {adds_self, adds_on, adds_str_arg};

    if i >= params.len() {
    } else {
        adds_text_lens(
            sel.str_arg(param_at(params, i), len_at),
            params,
            (len_at + 8) as u64,
            i + 1,
        );
    }
}

pub broadcast proof fn adds_extra_body(sel: Sel, e: Env, fi: usize, key: Seq<char>)
    ensures
        adds(sel, (#[trigger] sel.extra_body(e, fi, key)).0),
        moves(sel, sel.extra_body(e, fi, key).0, none()),
{
    broadcast use {adds_self, adds_on, adds_list_extra};

}

pub broadcast proof fn adds_last_body(sel: Sel, e: Env, fi: usize, key: Seq<char>)
    ensures
        adds(sel, #[trigger] sel.last_body(e, fi, key)),
        moves(sel, sel.last_body(e, fi, key), none()),
{
    broadcast use {
        adds_self, adds_on, adds_add, adds_bits_at, adds_c_call, adds_imm_to, adds_mv,
        adds_prim_trait_at, adds_rc_block, adds_ret, adds_ret_if, adds_str_arg, adds_unsupported,
    };

}

pub broadcast proof fn adds_general_body(sel: Sel, e: Env, fi: usize, key: Seq<char>)
    ensures
        adds(sel, #[trigger] sel.general_body(e, fi, key)),
        moves(sel, sel.general_body(e, fi, key), none()),
{
    broadcast use {
        adds_self, adds_on, adds_add, adds_extra_body, adds_last_body, adds_list_loop, adds_ret,
    };

}

pub broadcast proof fn adds_plain_body(sel: Sel, e: Env, fi: usize, p: Prim, op: Seq<char>)
    ensures
        adds(sel, (#[trigger] sel.plain_body(e, fi, p, op)).0),
        moves(sel, sel.plain_body(e, fi, p, op).0, none()),
{
    broadcast use {adds_self, adds_on, adds_da, adds_emit, adds_ret};

}

pub broadcast proof fn adds_numeric_body(
    sel: Sel,
    e: Env,
    fi: usize,
    key: Seq<char>,
    p: Prim,
    op: Seq<char>,
)
    ensures
        adds(sel, (#[trigger] sel.numeric_body(e, fi, key, p, op)).0),
        moves(sel, sel.numeric_body(e, fi, key, p, op).0, none()),
{
    broadcast use {
        adds_self, adds_on, adds_abs_signum, adds_c_call, adds_checked, adds_compare_prim,
        adds_convert, adds_convert_checked, adds_imm_num, adds_imm_to, adds_plain_body, adds_ret,
        adds_ret_if, adds_ret_or_refuse, adds_saturating, adds_unsupported, adds_wrapping,
    };

}

pub broadcast proof fn adds_runtime_body(sel: Sel, e: Env, fi: usize, key: Seq<char>)
    ensures
        adds(sel, #[trigger] sel.runtime_body(e, fi, key)),
        moves(sel, sel.runtime_body(e, fi, key), none()),
{
    broadcast use {
        adds_self, adds_on, adds_abort_with, adds_add, adds_c_call, adds_general_body,
        adds_numeric_body, adds_report, adds_report_shown, adds_ret, adds_text_lens,
        adds_unsupported,
    };

}

pub broadcast proof fn adds_inst(sel: Sel, e: Env, code: Code, i: Inst)
    ensures
        adds(sel, #[trigger] sel.inst(e, code, i)),
        moves(sel, sel.inst(e, code, i), none()),
{
    broadcast use {
        adds_self, adds_on, adds_abort, adds_array_get, adds_array_slice, adds_binary, adds_call,
        adds_call_indirect, adds_constant, adds_get_field, adds_get_payload, adds_get_tag,
        adds_intrinsic, adds_make_array, adds_make_closure, adds_make_enum, adds_make_struct,
        adds_mv, adds_rc, adds_structural, adds_unary,
    };

}

pub broadcast proof fn adds_refuse_frame(sel: Sel, frame: nat)
    ensures
        adds(sel, #[trigger] sel.refuse_frame(frame)),
        moves(sel, sel.refuse_frame(frame), none()),
{
    broadcast use {adds_self, adds_on, adds_ret, adds_unsupported};

}

pub broadcast proof fn adds_glue_loop_test(sel: Sel, e: Env, tv: V, fv: V, fall: H)
    ensures
        adds(sel, #[trigger] sel.glue_loop_test(e, tv, fv, fall)),
        moves(sel, sel.glue_loop_test(e, tv, fv, fall), of(tv).union(of(fv))),
{
    broadcast use {adds_self, adds_on, adds_test_b};

}

pub broadcast proof fn adds_walk_glue(sel: Sel, e: Env, ty: usize, retain: bool)
    ensures
        adds(sel, #[trigger] sel.walk_glue(e, ty, retain)),
        moves(sel, sel.walk_glue(e, ty, retain), none()),
{
    broadcast use {
        adds_self, adds_on, adds_add, adds_elem_load, adds_imm_to, adds_refuse_frame, adds_ret,
        adds_walk,
    };

}

pub broadcast proof fn adds_copy_glue(sel: Sel, e: Env, ty: usize)
    ensures
        adds(sel, #[trigger] sel.copy_glue(e, ty)),
        moves(sel, sel.copy_glue(e, ty), none()),
{
    broadcast use {
        adds_self, adds_on, adds_add, adds_elem_load, adds_elem_store, adds_imm_to,
        adds_refuse_frame, adds_ret,
    };

}

pub broadcast proof fn adds_count_elems(sel: Sel, e: Env, stride: u64)
    ensures
        adds(sel, #[trigger] sel.count_elems(e, stride)),
        moves(sel, sel.count_elems(e, stride), none()),
{
    broadcast use {adds_self, adds_on, adds_dak, adds_elem_load, adds_imm_to};

}

pub broadcast proof fn adds_elems_glue(sel: Sel, e: Env, ty: usize, copy: bool)
    ensures
        adds(sel, #[trigger] sel.elems_glue(e, ty, copy)),
        moves(sel, sel.elems_glue(e, ty, copy), none()),
{
    broadcast use {
        adds_self, adds_on, adds_add, adds_count_elems, adds_dak, adds_elem_load, adds_elem_store,
        adds_fresh, adds_glue_loop_test, adds_place, adds_refuse_frame, adds_ret, adds_walk,
    };

}

pub broadcast proof fn adds_thunk_env(
    sel: Sel,
    e: Env,
    f: Func,
    callee: FrameSig,
    t: ThunkFrame,
    boxed: bool,
)
    ensures
        adds(sel, #[trigger] sel.thunk_env(e, f, callee, t, boxed)),
        moves(sel, sel.thunk_env(e, f, callee, t, boxed), none()),
{
    broadcast use {adds_self, adds_on, adds_elem_load, adds_imm_to, adds_walk};

}

pub broadcast proof fn adds_thunk_args(
    sel: Sel,
    e: Env,
    f: Func,
    callee: FrameSig,
    t: ThunkFrame,
    j: int,
)
    ensures
        adds(sel, #[trigger] sel.thunk_args(e, f, callee, t, j)),
        moves(sel, sel.thunk_args(e, f, callee, t, j), none()),
    decreases f.params.len() - j,
{
    broadcast use {adds_self, adds_on, adds_mv};

    if j >= f.params.len() {
    } else {
        let next = if j < callee.params.len() {
            sel.mv(
                (t.frame + callee.params[j]) as u64,
                thunk_arg(e, f, t, j) as u64,
                e.slot_bytes(f.params[j]),
            )
        } else {
            sel
        };
        adds_thunk_args(next, e, f, callee, t, j + 1);
    }
}

pub broadcast proof fn adds_thunk_rets(
    sel: Sel,
    e: Env,
    f: Func,
    callee: FrameSig,
    t: ThunkFrame,
    i: int,
)
    ensures
        adds(sel, #[trigger] sel.thunk_rets(e, f, callee, t, i)),
        moves(sel, sel.thunk_rets(e, f, callee, t, i), none()),
    decreases f.rets.len() - i,
{
    broadcast use {adds_self, adds_on, adds_mv};

    if i >= f.rets.len() {
    } else {
        let next = if i < callee.ret.len() {
            sel.mv(
                frame_bytes(e, f.rets@, i) as u64,
                (t.frame + callee.ret[i]) as u64,
                e.slot_bytes(f.rets[i]),
            )
        } else {
            sel
        };
        adds_thunk_rets(next, e, f, callee, t, i + 1);
    }
}

pub broadcast proof fn adds_thunk_release(
    sel: Sel,
    e: Env,
    f: Func,
    callee: FrameSig,
    t: ThunkFrame,
    j: int,
)
    ensures
        adds(sel, #[trigger] sel.thunk_release(e, f, callee, t, j)),
        moves(sel, sel.thunk_release(e, f, callee, t, j), none()),
    decreases f.params.len() - j,
{
    broadcast use {adds_self, adds_on, adds_walk};

    if j >= f.params.len() {
    } else {
        let lent = j < callee.params.len() && j < f.owned.len() && f.owned[j]
            == Ownership::Borrow;
        let next = match owned_type(e, f.params[j]) {
            Some(ty) => if lent {
                sel.walk(e, ty, thunk_arg(e, f, t, j) as u64, false)
            } else {
                sel
            },
            None => sel,
        };
        adds_thunk_release(next, e, f, callee, t, j + 1);
    }
}

pub broadcast proof fn adds_thunk(sel: Sel, e: Env, func: usize, args: usize, boxed: bool)
    ensures
        adds(sel, #[trigger] sel.thunk(e, func, args, boxed)),
        moves(sel, sel.thunk(e, func, args, boxed), none()),
{
    broadcast use {
        adds_self, adds_on, adds_call_fn, adds_ret, adds_thunk_args, adds_thunk_env,
        adds_thunk_release, adds_thunk_rets, adds_unsupported,
    };

}

pub broadcast proof fn adds_entry_contexts(
    sel: Sel,
    e: Env,
    params: Seq<usize>,
    widths: Seq<u32>,
    index: Option<usize>,
    base: nat,
    i: int,
)
    ensures
        adds(sel, #[trigger] sel.entry_contexts(e, params, widths, index, base, i)),
        moves(sel, sel.entry_contexts(e, params, widths, index, base, i), none()),
    decreases params.len() - i,
{
    broadcast use {adds_self, adds_on, adds_dak, adds_elem_load};

    if i >= params.len() {
    } else {
        let next = if is_context(params.len(), index, i) && widths[i] > 0 {
            sel.dak(
                "bin/add/u64/fi/f"@,
                E_CTXP,
                E_STATE,
                state_end(widths, index, i) as u64,
            ).elem_load(
                e,
                (base + source_bytes(e, params, i)) as u64,
                E_CTXP,
                E_ZERO,
                8,
                widths[i] as u64,
            )
        } else {
            sel
        };
        adds_entry_contexts(next, e, params, widths, index, base, i + 1);
    }
}

pub broadcast proof fn adds_entry_element(sel: Sel, e: Env, elem: usize, to: u64)
    ensures
        adds(sel, #[trigger] sel.entry_element(e, elem, to)),
        moves(sel, sel.entry_element(e, elem, to), none()),
{
    broadcast use {adds_self, adds_on, adds_elem_load, adds_mv, adds_walk};

}

pub broadcast proof fn adds_entry_thunk(sel: Sel, e: Env, fty: usize, index: Option<usize>)
    ensures
        adds(sel, #[trigger] sel.entry_thunk(e, fty, index)),
        moves(sel, sel.entry_thunk(e, fty, index), none()),
{
    broadcast use {
        adds_self, adds_on, adds_add, adds_call_ptr, adds_elem_load, adds_elem_store,
        adds_entry_contexts, adds_entry_element, adds_imm_to, adds_mv, adds_ret, adds_unsupported,
    };

}

pub broadcast proof fn adds_generate(sel: Sel, e: Env, h: Helper)
    ensures
        adds(sel, #[trigger] sel.generate(e, h)),
        moves(sel, sel.generate(e, h), none()),
{
    broadcast use {
        adds_self, adds_on, adds_add, adds_copy_glue, adds_elems_glue, adds_entry_thunk, adds_thunk,
        adds_walk_glue,
    };

}

pub broadcast proof fn adds_insts(sel: Sel, e: Env, code: Code, is: Seq<Inst>, skip: Seq<bool>, k: int)
    ensures
        adds(sel, #[trigger] sel.insts(e, code, is, skip, k)),
        moves(sel, sel.insts(e, code, is, skip, k), none()),
    decreases is.len() - k,
{
    broadcast use {adds_self, adds_on, adds_inst};

    if k >= is.len() {
    } else if skip[k] {
        adds_insts(sel, e, code, is, skip, k + 1);
    } else {
        adds_insts(sel.inst(e, code, is[k]), e, code, is, skip, k + 1);
    }
}

pub broadcast proof fn adds_block(sel: Sel, e: Env, code: Code, b: usize, next: Option<usize>)
    ensures
        adds(sel, #[trigger] sel.block(e, code, b, next)),
        moves(sel, sel.block(e, code, b, next), term_blocks(code.blocks[b as int].term)),
        laid(sel.block(e, code, b, next), b),
{
    broadcast use {adds_self, adds_on, adds_insts, adds_place, adds_term};

}

pub broadcast proof fn adds_blocks(sel: Sel, e: Env, code: Code, order: Seq<usize>, i: int)
    requires
        0 <= i && in_body(code, order),
    ensures
        adds(sel, #[trigger] sel.blocks(e, code, order, i)),
        moves(sel, sel.blocks(e, code, order, i), code_blocks(code)),
        forall|j: int|
            i <= j < order.len() ==> laid(sel.blocks(e, code, order, i), #[trigger] order[j]),
    decreases order.len() - i,
{
    broadcast use {adds_self, adds_on, adds_block};

    if i >= order.len() {
    } else {
        let next = if i + 1 < order.len() {
            Some(order[i + 1])
        } else {
            None
        };
        adds_blocks(sel.block(e, code, order[i], next), e, code, order, i + 1);
    }
}

pub broadcast proof fn adds_function(sel: Sel, e: Env, fi: usize)
    ensures
        adds(sel, #[trigger] sel.function(e, fi)),
        moves(sel, sel.function(e, fi), body_blocks(e, fi)),
{
    broadcast use {adds_on, adds_blocks, adds_runtime_body};

    let s = Sel {
        labels: match e.prog.funcs[fi as int].body {
            Body::Code(code) => code.blocks@.len(),
            Body::Runtime(key) => 0,
        },
        ..sel
    };
    assert(adds(sel, s)) by {
        reveal(adds);
    }
    lemma_same_ops(sel, s);
    match e.prog.funcs[fi as int].body {
        Body::Code(code) => {
            lemma_order_in_body(code);
        },
        Body::Runtime(key) => {},
    }
}

// ---------------------------------------------------------------------------
// The unit
// ---------------------------------------------------------------------------

/// Selecting a function only adds: no operation, helper, reason or literal that was there moves or
/// goes, and where something is refused there is a reason.
pub proof fn selecting_a_function_only_adds(sel: Sel, e: Env, fi: usize)
    ensures
        adds(sel, sel.function(e, fi)),
{
    broadcast use adds_function;

}

/// Generating a helper only adds.
pub proof fn generating_a_helper_only_adds(sel: Sel, e: Env, h: Helper)
    ensures
        adds(sel, sel.generate(e, h)),
{
    broadcast use adds_generate;

}

/// Whether the terminators of a body lead to blocks of the body.
pub open spec fn closed(code: Code) -> bool {
    forall|b: int, l: usize|
        0 <= b < code.blocks.len() && #[trigger] term_blocks(code.blocks@[b].term).contains(l) ==> l
            < code.blocks.len()
}

/// Every branch of a function's body is to a block or a label that the body puts down, where the
/// terminators lead to blocks of the body and nothing was refused.
pub proof fn every_branch_of_a_function_lands(sel: Sel, e: Env, fi: usize, l: usize)
    requires
        sel.ops.len() == 0,
        fi < e.prog.funcs.len(),
        e.prog.funcs[fi as int].body matches Body::Code(code) ==> closed(code),
        !sel.function(e, fi).dirty,
        aimed(sel.function(e, fi), l),
    ensures
        laid(sel.function(e, fi), l),
{
    broadcast use {adds_function, adds_blocks};

    assert(!aimed(sel, l)) by {
        reveal(aimed);
    }
    match e.prog.funcs[fi as int].body {
        Body::Runtime(key) => {},
        Body::Code(code) => {
            every_block_is_laid_out_once(code);
            lemma_order_in_body(code);
            if code_blocks(code).contains(l) {
                let order = block_order(code);
                assert(order.contains(l));
                let j = choose|j: int| 0 <= j < order.len() && order[j] == l;
                let s = Sel { labels: code.blocks@.len(), ..sel };
                assert(sel.function(e, fi) == s.blocks(function_env(e, fi), code, order, 0));
                assert(laid(s.blocks(function_env(e, fi), code, order, 0), order[j]));
            }
        },
    }
}

/// Every branch of a generated helper is to a label that the helper puts down, where nothing was
/// refused.
pub proof fn every_branch_of_a_helper_lands(sel: Sel, e: Env, h: Helper, l: usize)
    requires
        sel.ops.len() == 0,
        !sel.generate(e, h).dirty,
        aimed(sel.generate(e, h), l),
    ensures
        laid(sel.generate(e, h), l),
{
    broadcast use adds_generate;

    assert(!aimed(sel, l)) by {
        reveal(aimed);
    }
}

/// Whether a unit is another with more behind it.
pub open spec fn adds_to(a: Un, b: Un) -> bool {
    &&& starts(a.bodies, b.bodies)
    &&& starts(a.helpers, b.helpers)
    &&& starts(a.reasons, b.reasons)
    &&& starts(a.lits, b.lits)
    &&& starts(a.loops, b.loops)
}

/// Whether every refusal of a unit has a reason.
pub open spec fn explains(u: Un) -> bool {
    (exists|i: int| 0 <= i < u.bodies.len() && (#[trigger] u.bodies[i]).dirty)
        ==> u.reasons.len() > 0
}

proof fn lemma_starts_on<T>(a: Seq<T>, b: Seq<T>, c: Seq<T>)
    requires
        starts(a, b),
        starts(b, c),
    ensures
        starts(a, c),
{
    assert forall|i: int| 0 <= i < a.len() implies #[trigger] c[i] == a[i] by {
        assert(b[i] == a[i]);
    }
}

proof fn lemma_adds_to_on(a: Un, b: Un, c: Un)
    requires
        adds_to(a, b),
        adds_to(b, c),
    ensures
        adds_to(a, c),
{
    lemma_starts_on(a.bodies, b.bodies, c.bodies);
    lemma_starts_on(a.helpers, b.helpers, c.helpers);
    lemma_starts_on(a.reasons, b.reasons, c.reasons);
    lemma_starts_on(a.lits, b.lits, c.lits);
    lemma_starts_on(a.loops, b.loops, c.loops);
}

proof fn lemma_with(u: Un, s: Sel, scratch: u32)
    requires
        adds(u.start(), s),
        explains(u),
    ensures
        adds_to(u, u.with(s, scratch)),
        explains(u.with(s, scratch)),
{
    reveal(adds);
    let n = u.with(s, scratch);
    if exists|i: int| 0 <= i < n.bodies.len() && (#[trigger] n.bodies[i]).dirty {
        let i = choose|i: int| 0 <= i < n.bodies.len() && (#[trigger] n.bodies[i]).dirty;
        if i < u.bodies.len() {
            assert(u.bodies[i].dirty);
        }
    }
}

/// Selecting the functions of a unit only adds: an index of a helper or of a literal that one
/// function was given is not given another meaning by the next, and every refusal has a reason.
pub proof fn members_only_add(u: Un, e: Env, ms: Seq<usize>, i: int)
    requires
        0 <= i <= ms.len(),
        explains(u),
    ensures
        adds_to(u, u.members(e, ms, i)),
        explains(u.members(e, ms, i)),
        u.members(e, ms, i).bodies.len() == u.bodies.len() + ms.len() - i,
    decreases ms.len() - i,
{
    if i < ms.len() {
        let s = u.start().function(e, ms[i]);
        selecting_a_function_only_adds(u.start(), e, ms[i]);
        let n = u.with(s, function_env(e, ms[i]).scratch);
        lemma_with(u, s, function_env(e, ms[i]).scratch);
        members_only_add(n, e, ms, i + 1);
        lemma_adds_to_on(u, n, u.members(e, ms, i));
    }
}

/// Generating the helpers of a unit only adds, and every helper that is asked for is generated:
/// there is one body for each, behind the members.
pub proof fn every_helper_is_generated(u: Un, e: Env, i: int)
    requires
        0 <= i <= u.helpers.len(),
        explains(u),
        u.generated(e, i).helpers.len() < usize::MAX,
    ensures
        adds_to(u, u.generated(e, i)),
        explains(u.generated(e, i)),
        u.generated(e, i).bodies.len() == u.bodies.len() + u.generated(e, i).helpers.len() - i,
    decreases usize::MAX - i,
{
    if i < u.helpers.len() && i < usize::MAX {
        let h = u.helpers[i];
        let he = helper_env(e, h);
        let s = u.start().generate(he, h);
        generating_a_helper_only_adds(u.start(), he, h);
        let n = u.with(s, he.scratch);
        lemma_with(u, s, he.scratch);
        every_helper_is_generated(n, e, i + 1);
        lemma_adds_to_on(u, n, u.generated(e, i));
    } else if i >= usize::MAX {
        assert(false);
    }
}

} // verus!
