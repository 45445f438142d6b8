//! What becomes of the constant pool between one call on a region and the end.
//!
//! Whatever is called, what was pooled stays where it is: the pool only grows, a number keeps its
//! slot, and a slot that the linker fills keeps its one relocation.

use crate::bytes::{a_gap_ends_on_a_multiple, le64, zeros};
use crate::region::{
    a_handle_stands_for_its_offset, handle, offset, slot_rel, two_numbers_have_two_slots, RelocKind,
    Rg, Rl, Tg, POOL_TAG,
};
use vstd::prelude::*;

verus! {

/// A call that changes a region.
pub enum Call {
    Put(Seq<u8>),
    AlignCode(nat),
    PoolNumber(u64),
    PoolTarget(Tg),
    PoolBytes(Seq<u8>),
    PoolConsts(Seq<u8>, u32),
    Rel(u64, RelocKind, Tg, i64),
    PoolRef(u64, u64, u64),
    SetWord(u64, u32),
}

/// A region after a call.
pub open spec fn made(g: Rg, c: Call) -> Rg {
    match c {
        Call::Put(b) => g.put(b),
        Call::AlignCode(to) => g.align_code(to),
        Call::PoolNumber(v) => g.pool_u64(v).0,
        Call::PoolTarget(t) => g.pool_target(t).0,
        Call::PoolBytes(b) => g.pool_bytes(b).0,
        Call::PoolConsts(b, align) => g.pool_consts(b, align).0,
        Call::Rel(at, kind, target, addend) => g.rel(at, kind, target, addend),
        Call::PoolRef(adrp, ldr, slot) => g.pool_ref(adrp, ldr, slot),
        Call::SetWord(at, w) => g.set_word(at, w),
    }
}

/// A region after calls, one after another.
pub open spec fn after(g: Rg, cs: Seq<Call>) -> Rg
    decreases cs.len(),
{
    if cs.len() == 0 {
        g
    } else {
        made(after(g, cs.drop_last()), cs.last())
    }
}

/// The relocations of the pool, as the finished region has them.
pub open spec fn pool_rels(g: Rg) -> Seq<Rl> {
    g.targets.map_values(|t: (u64, Tg)| slot_rel(t))
}

/// Whether a region has what another had where it had it, and what is new behind it.
pub open spec fn keeps(a: Rg, b: Rg) -> bool {
    &&& a.pool.len() <= b.pool.len()
    &&& b.pool.subrange(0, a.pool.len() as int) == a.pool
    &&& a.targets.len() <= b.targets.len()
    &&& forall|i: int| 0 <= i < a.targets.len() ==> #[trigger] b.targets[i] == a.targets[i]
    &&& forall|i: int|
        a.targets.len() <= i < b.targets.len() ==> (#[trigger] b.targets[i]).0 >= a.pool.len()
    &&& forall|v: u64| #[trigger]
        a.index.dom().contains(v) ==> b.index.dom().contains(v) && b.index[v] == a.index[v]
    &&& forall|v: u64| #[trigger]
        b.index.dom().contains(v) && !a.index.dom().contains(v) ==> b.index[v] >= a.pool.len()
}

proof fn lemma_made(g: Rg, c: Call)
    requires
        g.wf(),
        made(g, c).pool.len() <= u64::MAX,
    ensures
        made(g, c).wf(),
        keeps(g, made(g, c)),
{
    a_gap_ends_on_a_multiple(g.pool.len(), 8);
    let n = made(g, c);
    assert(n.pool.subrange(0, g.pool.len() as int) =~= g.pool);
    assert forall|at: int| 0 <= at && at + 8 <= g.pool.len() implies #[trigger] n.pool.subrange(
        at,
        at + 8,
    ) == g.pool.subrange(at, at + 8) by {
        assert(n.pool.subrange(at, at + 8) =~= g.pool.subrange(at, at + 8));
    }
    let at = g.aligned().len() as int;
    match c {
        Call::PoolNumber(v) => {
            if !g.index.dom().contains(v) {
                assert(n.pool.subrange(at, at + 8) =~= le64(v));
            }
        },
        Call::PoolTarget(t) => {
            assert(n.pool.subrange(at, at + 8) =~= zeros(8));
        },
        _ => {},
    }
}

proof fn lemma_keeps_on(a: Rg, b: Rg, c: Rg)
    requires
        keeps(a, b),
        keeps(b, c),
    ensures
        keeps(a, c),
{
    assert(c.pool.subrange(0, a.pool.len() as int) =~= a.pool) by {
        assert forall|i: int| 0 <= i < a.pool.len() implies c.pool[i] == a.pool[i] by {
            assert(c.pool.subrange(0, b.pool.len() as int)[i] == b.pool[i]);
            assert(b.pool.subrange(0, a.pool.len() as int)[i] == a.pool[i]);
        }
    }
    assert forall|i: int| 0 <= i < a.targets.len() implies #[trigger] c.targets[i]
        == a.targets[i] by {
        assert(b.targets[i] == a.targets[i]);
    }
    assert forall|i: int| a.targets.len() <= i < c.targets.len() implies (
    #[trigger] c.targets[i]).0 >= a.pool.len() by {
        if i < b.targets.len() {
            assert(c.targets[i] == b.targets[i]);
        }
    }
    assert forall|v: u64| #[trigger]
        c.index.dom().contains(v) && !a.index.dom().contains(v) implies c.index[v]
        >= a.pool.len() by {
        if b.index.dom().contains(v) {
            assert(c.index[v] == b.index[v]);
        }
    }
}

/// The pool of a region only grows.
proof fn lemma_grows(g: Rg, cs: Seq<Call>)
    ensures
        g.pool.len() <= after(g, cs).pool.len(),
    decreases cs.len(),
{
    if cs.len() > 0 {
        lemma_grows(g, cs.drop_last());
    }
}

/// Through any calls a region stays well-formed, its pool only grows, a number keeps its slot and a
/// slot that the linker fills stays one, in its order; and what is new stands behind what was there.
pub proof fn what_is_pooled_stays(g: Rg, cs: Seq<Call>)
    requires
        g.wf(),
        after(g, cs).pool.len() <= u64::MAX,
    ensures
        after(g, cs).wf(),
        keeps(g, after(g, cs)),
    decreases cs.len(),
{
    if cs.len() > 0 {
        let b = after(g, cs.drop_last());
        assert(b.pool.len() <= made(b, cs.last()).pool.len());
        what_is_pooled_stays(g, cs.drop_last());
        lemma_made(b, cs.last());
        lemma_keeps_on(g, b, after(g, cs));
    } else {
        assert(g.pool.subrange(0, g.pool.len() as int) =~= g.pool);
    }
}

/// Pooling never enters the code, nor do the relocations of the code change.
pub proof fn the_pool_is_apart_from_the_code(g: Rg, v: u64, t: Tg, b: Seq<u8>, align: u32)
    ensures
        g.pool_consts(b, align).0.code == g.code && g.pool_consts(b, align).0.relocs == g.relocs,
        g.pool_u64(v).0.code == g.code && g.pool_u64(v).0.relocs == g.relocs,
        g.pool_target(t).0.code == g.code && g.pool_target(t).0.relocs == g.relocs,
        g.pool_bytes(b).0.code == g.code && g.pool_bytes(b).0.relocs == g.relocs,
{
}

/// Bytes that were pooled are, after any further calls, where their handle says, on a multiple of
/// eight, and so is all that was in the pool before them.
pub proof fn pooled_bytes_stay(g: Rg, b: Seq<u8>, cs: Seq<Call>)
    requires
        g.wf(),
        after(g.pool_bytes(b).0, cs).pool.len() < POOL_TAG,
    ensures
        ({
            let e = after(g.pool_bytes(b).0, cs);
            let o = offset(g.pool_bytes(b).1) as int;
            &&& o % 8 == 0
            &&& o + b.len() <= e.pool.len()
            &&& e.pool.subrange(o, o + b.len()) == b
            &&& e.pool.subrange(0, g.pool.len() as int) == g.pool
        }),
{
    let g1 = g.pool_bytes(b).0;
    let e = after(g1, cs);
    lemma_grows(g1, cs);
    lemma_made(g, Call::PoolBytes(b));
    what_is_pooled_stays(g1, cs);
    lemma_keeps_on(g, g1, e);
    a_gap_ends_on_a_multiple(g.pool.len(), 8);
    let o = g.aligned().len() as int;
    a_handle_stands_for_its_offset(o as u64);
    assert forall|i: int| 0 <= i < b.len() implies e.pool[o + i] == b[i] by {
        assert(e.pool.subrange(0, g1.pool.len() as int)[o + i] == g1.pool[o + i]);
    }
    assert(e.pool.subrange(o, o + b.len()) =~= b);
}

/// A number that was pooled is, after any further calls, where its handle says, on a multiple of
/// eight, and no relocation of the pool is there. Another number that is pooled then has another
/// handle; the same number has the same and adds nothing.
pub proof fn a_pooled_number_stays(g: Rg, v: u64, w: u64, cs: Seq<Call>)
    requires
        g.wf(),
        after(g.pool_u64(v).0, cs).pool_u64(w).0.pool.len() < POOL_TAG,
    ensures
        ({
            let h = g.pool_u64(v).1;
            let e = after(g.pool_u64(v).0, cs);
            let o = offset(h);
            &&& o % 8 == 0
            &&& o + 8 <= e.pool.len()
            &&& e.pool.subrange(o as int, o + 8) == le64(v)
            &&& forall|i: int| 0 <= i < pool_rels(e).len() ==> (#[trigger] pool_rels(e)[i]).at != o
            &&& e.pool_u64(w).1 == h <==> v == w
            &&& v == w ==> e.pool_u64(w).0 == e
        }),
{
    let g1 = g.pool_u64(v).0;
    let e = after(g1, cs);
    lemma_grows(g1, cs);
    assert(e.pool.len() <= e.pool_u64(w).0.pool.len());
    lemma_made(g, Call::PoolNumber(v));
    what_is_pooled_stays(g1, cs);
    let o = g1.index[v];
    assert(g1.index.dom().contains(v));
    assert(e.index.dom().contains(v) && e.index[v] == o);
    a_handle_stands_for_its_offset(o);
    assert forall|i: int| 0 <= i < pool_rels(e).len() implies (#[trigger] pool_rels(e)[i]).at
        != o by {
        assert(pool_rels(e)[i] == slot_rel(e.targets[i]));
        assert(e.index[v] != e.targets[i].0);
    }
    let f = e.pool_u64(w).0;
    lemma_made(e, Call::PoolNumber(w));
    assert(f.index.dom().contains(w));
    a_handle_stands_for_its_offset(f.index[w]);
    assert(e.pool_u64(w).1 == handle(f.index[w]));
    if v != w {
        assert(f.index.dom().contains(v) && f.index[v] == o);
        two_numbers_have_two_slots(f, v, w);
    }
}

/// The relocation of a slot that the linker fills: an address in the pool is the pool's and the
/// offset, whether it was given by its handle or by its offset.
pub open spec fn filled_by(o: u64, t: Tg) -> Rl {
    match t {
        Tg::Here(x) => Rl {
            at: o,
            kind: RelocKind::Abs64,
            target: Tg::Pool,
            addend: offset(x) as i64,
        },
        other => Rl { at: o, kind: RelocKind::Abs64, target: other, addend: 0 },
    }
}

/// A slot that the linker fills is, after any further calls, of zeros and on a multiple of eight, and
/// exactly one relocation of the pool is there: the one that was asked for.
pub proof fn a_slot_for_the_linker_keeps_its_one_relocation(g: Rg, t: Tg, cs: Seq<Call>)
    requires
        g.wf(),
        after(g.pool_target(t).0, cs).pool.len() < POOL_TAG,
    ensures
        ({
            let e = after(g.pool_target(t).0, cs);
            let o = offset(g.pool_target(t).1);
            let k = g.targets.len() as int;
            &&& o % 8 == 0
            &&& o + 8 <= e.pool.len()
            &&& e.pool.subrange(o as int, o + 8) == zeros(8)
            &&& k < pool_rels(e).len()
            &&& pool_rels(e)[k] == filled_by(o, t)
            &&& forall|i: int|
                0 <= i < pool_rels(e).len() ==> ((#[trigger] pool_rels(e)[i]).at == o <==> i == k)
        }),
{
    let g1 = g.pool_target(t).0;
    let e = after(g1, cs);
    lemma_grows(g1, cs);
    lemma_made(g, Call::PoolTarget(t));
    what_is_pooled_stays(g1, cs);
    a_gap_ends_on_a_multiple(g.pool.len(), 8);
    let k = g.targets.len() as int;
    let o = g.aligned().len() as u64;
    a_handle_stands_for_its_offset(o);
    assert(e.targets[k] == g1.targets[k]);
    assert(pool_rels(e)[k] == slot_rel(e.targets[k]));
    assert forall|i: int| 0 <= i < pool_rels(e).len() implies ((#[trigger] pool_rels(e)[i]).at == o
        <==> i == k) by {
        assert(pool_rels(e)[i] == slot_rel(e.targets[i]));
        if i < k {
            assert(e.targets[i].0 != e.targets[k].0);
        } else if i > k {
            assert(e.targets[k].0 != e.targets[i].0);
        }
    }
}

/// Every slot that the linker fills is a new one, also for a target that has one already; and an
/// address in the pool may be given by its handle or by its offset.
pub proof fn slots_for_the_linker_are_not_shared(g: Rg, t: Tg, u: Tg, at: u64)
    requires
        g.pool.len() + 32 < POOL_TAG,
        at < POOL_TAG,
    ensures
        g.pool_target(t).0.pool_target(u).1 != g.pool_target(t).1,
        g.pool_target(Tg::Here(handle(at))) == g.pool_target(Tg::Here(at)),
{
    a_gap_ends_on_a_multiple(g.pool.len(), 8);
    let n = g.pool_target(t).0;
    a_gap_ends_on_a_multiple(n.pool.len(), 8);
    a_handle_stands_for_its_offset(g.aligned().len() as u64);
    a_handle_stands_for_its_offset(n.aligned().len() as u64);
    a_handle_stands_for_its_offset(at);
}

} // verus!
