//! What a copy between frame offsets does.
//!
//! The stencil `mov/n` copies `n` bytes. A copy of any size is a run of them, the widest first.

use crate::select::{unit, Item, Sel, H, V};
use crate::text::decimal;
use vstd::prelude::*;

verus! {

/// One stencil of a copy: from, to, and how many bytes.
pub struct Piece {
    pub to: u64,
    pub from: u64,
    pub n: u64,
}

/// The stencils of a copy.
pub open spec fn pieces(to: u64, from: u64, left: u64) -> Seq<Piece>
    decreases left,
{
    if left == 0 {
        Seq::empty()
    } else {
        let n = unit(left);
        seq![Piece { to, from, n }] + pieces((to + n) as u64, (from + n) as u64, (left - n) as u64)
    }
}

/// The operation of a stencil of a copy.
pub open spec fn item_of(p: Piece) -> Item {
    Item::Stencil {
        key: "mov/"@ + decimal(p.n as nat),
        binds: seq![(H::D, V::I(p.to)), (H::A, V::I(p.from)), (H::Cont, V::Fall)],
    }
}

/// A frame: the byte at each offset.
pub type Frame = spec_fn(int) -> u8;

/// A frame in which `n` bytes have been copied.
pub open spec fn copied(m: Frame, to: int, from: int, n: int) -> Frame {
    |x: int|
        if to <= x < to + n {
            m(from + (x - to))
        } else {
            m(x)
        }
}

/// A frame on which stencils of a copy have run, from stencil `i` on.
pub open spec fn after(m: Frame, ps: Seq<Piece>, i: int) -> Frame
    decreases ps.len() - i,
{
    if i >= ps.len() {
        m
    } else {
        after(copied(m, ps[i].to as int, ps[i].from as int, ps[i].n as int), ps, i + 1)
    }
}

/// A copy selects its stencils and nothing else.
pub proof fn a_copy_selects_its_pieces(s: Sel, to: u64, from: u64, left: u64)
    ensures
        s.run(to, from, left).ops == s.ops + pieces(to, from, left).map_values(
            |p: Piece| item_of(p),
        ),
    decreases left,
{
    if left == 0 {
        assert(s.ops + pieces(to, from, left).map_values(|p: Piece| item_of(p)) =~= s.ops);
    } else {
        let n = unit(left);
        let p = Piece { to, from, n };
        let next = s.da("mov/"@ + decimal(n as nat), to, from);
        let rest = pieces((to + n) as u64, (from + n) as u64, (left - n) as u64);
        a_copy_selects_its_pieces(next, (to + n) as u64, (from + n) as u64, (left - n) as u64);
        assert(next.ops =~= s.ops.push(item_of(p)));
        assert(pieces(to, from, left) == seq![p] + rest);
        assert((seq![p] + rest).map_values(|p: Piece| item_of(p)) =~= seq![item_of(p)]
            + rest.map_values(|p: Piece| item_of(p)));
        assert(next.ops + rest.map_values(|p: Piece| item_of(p)) =~= s.ops + (seq![item_of(p)]
            + rest.map_values(|p: Piece| item_of(p))));
    }
}

proof fn lemma_after_tail(m: Frame, p: Piece, rest: Seq<Piece>, i: int)
    requires
        0 <= i,
    ensures
        after(m, seq![p] + rest, i + 1) == after(m, rest, i),
    decreases rest.len() - i,
{
    if i < rest.len() {
        assert((seq![p] + rest)[i + 1] == rest[i]);
        lemma_after_tail(
            copied(m, rest[i].to as int, rest[i].from as int, rest[i].n as int),
            p,
            rest,
            i + 1,
        );
    }
}

/// The stencils of a copy copy every byte, and only those: run one after another they do what one
/// copy of the whole does, where the two places do not overlap.
pub proof fn a_copy_moves_every_byte(m: Frame, to: u64, from: u64, left: u64)
    requires
        to + left <= u64::MAX,
        from + left <= u64::MAX,
        to + left <= from || from + left <= to,
    ensures
        after(m, pieces(to, from, left), 0) == copied(m, to as int, from as int, left as int),
    decreases left,
{
    if left == 0 {
        assert(copied(m, to as int, from as int, 0) =~= m);
    } else {
        let n = unit(left);
        let p = Piece { to, from, n };
        let rest = pieces((to + n) as u64, (from + n) as u64, (left - n) as u64);
        let m1 = copied(m, to as int, from as int, n as int);
        a_copy_moves_every_byte(m1, (to + n) as u64, (from + n) as u64, (left - n) as u64);
        lemma_after_tail(m1, p, rest, 0);
        assert((seq![p] + rest)[0] == p);
        assert(after(m, seq![p] + rest, 0) == after(m1, seq![p] + rest, 1));
        assert(copied(m1, to + n, from + n, left - n) =~= copied(
            m,
            to as int,
            from as int,
            left as int,
        ));
    }
}

} // verus!
