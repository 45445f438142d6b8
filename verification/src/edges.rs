//! The parallel copy an edge makes of its arguments.
//!
//! A block's parameters are all assigned at once, from values that may live
//! where another parameter does. What is emitted is a sequence of copies, so a
//! copy waits while its destination is still to be read, and where every
//! destination is, the first source that is one is saved to a scratch word.
use vstd::prelude::*;

use crate::copies::{copied, Frame};
use crate::select::plus;

verus! {

/// A place a value can be copied from or to.
#[derive(Clone, Copy, PartialEq, Eq, Structural, Debug)]
pub enum Cell {
    Reg(u8),
    Slot(u64),
}

/// One copy: `n` bytes between slots, or one register's worth.
#[derive(Clone, Copy, PartialEq, Eq, Structural, Debug)]
pub struct Move {
    pub to: Cell,
    pub from: Cell,
    pub n: u64,
    pub float: bool,
}

/// Whether some copy from `i` on reads `c`.
pub open spec fn reads(p: Seq<Move>, c: Cell, i: int) -> bool
    decreases p.len() - i,
{
    if i >= p.len() {
        false
    } else {
        p[i].from == c || reads(p, c, i + 1)
    }
}

/// Whether some copy from `i` on writes `c`.
pub open spec fn writes(p: Seq<Move>, c: Cell, i: int) -> bool
    decreases p.len() - i,
{
    if i >= p.len() {
        false
    } else {
        p[i].to == c || writes(p, c, i + 1)
    }
}

/// The first copy from `i` on whose destination no copy reads.
pub open spec fn ready(p: Seq<Move>, i: int) -> Option<int>
    decreases p.len() - i,
{
    if i >= p.len() {
        None
    } else if !reads(p, p[i].to, 0) {
        Some(i)
    } else {
        ready(p, i + 1)
    }
}

/// The first copy from `i` on whose source some copy writes.
pub open spec fn blocked(p: Seq<Move>, i: int) -> Option<int>
    decreases p.len() - i,
{
    if i >= p.len() {
        None
    } else if writes(p, p[i].from, 0) {
        Some(i)
    } else {
        blocked(p, i + 1)
    }
}

/// The copies with the source `c` replaced by `t`.
pub open spec fn redirect(p: Seq<Move>, c: Cell, t: Cell) -> Seq<Move> {
    Seq::new(
        p.len(),
        |i: int|
            if p[i].from == c {
                Move { from: t, ..p[i] }
            } else {
                p[i]
            },
    )
}

/// How many of the first `n` copies read what some copy writes.
pub open spec fn blocks(p: Seq<Move>, n: int) -> nat
    decreases n,
{
    if n <= 0 {
        0
    } else {
        blocks(p, n - 1) + if writes(p, p[n - 1].from, 0) {
            1nat
        } else {
            0
        }
    }
}

/// A sequence of copies that assigns every destination of `p` at once, using the
/// scratch words from `tmp` on. It ends early, and the second answer is false,
/// where a destination is one of those words.
pub open spec fn shuffle(p: Seq<Move>, tmp: u64) -> (Seq<Move>, bool)
    decreases p.len(), blocks(p, p.len() as int),
{
    if p.len() == 0 {
        (Seq::empty(), true)
    } else {
        match ready(p, 0) {
            Some(i) => if 0 <= i < p.len() {
                let r = shuffle(p.remove(i), tmp);
                (seq![p[i]] + r.0, r.1)
            } else {
                (Seq::empty(), true)
            },
            None => match blocked(p, 0) {
                Some(i) => if writes(p, Cell::Slot(tmp), 0) || !(0 <= i < p.len()) {
                    (Seq::empty(), false)
                } else {
                    proof {
                        lemma_redirect(p, i, Cell::Slot(tmp));
                    }
                    let r = shuffle(
                        redirect(p, p[i].from, Cell::Slot(tmp)),
                        (tmp + 8) as u64,
                    );
                    (seq![Move { to: Cell::Slot(tmp), ..p[i] }] + r.0, r.1)
                },
                None => (Seq::empty(), true),
            },
        }
    }
}

proof fn lemma_reads(p: Seq<Move>, c: Cell, i: int)
    requires
        0 <= i,
    ensures
        reads(p, c, i) <==> exists|j: int| i <= j < p.len() && (#[trigger] p[j]).from == c,
    decreases p.len() - i,
{
    if i < p.len() {
        lemma_reads(p, c, i + 1);
    }
}

pub proof fn lemma_writes(p: Seq<Move>, c: Cell, i: int)
    requires
        0 <= i,
    ensures
        writes(p, c, i) <==> exists|j: int| i <= j < p.len() && (#[trigger] p[j]).to == c,
    decreases p.len() - i,
{
    if i < p.len() {
        lemma_writes(p, c, i + 1);
    }
}

/// The same destinations are written by lists with the same destinations.
proof fn lemma_writes_same(p: Seq<Move>, q: Seq<Move>, c: Cell)
    requires
        p.len() == q.len(),
        forall|j: int| 0 <= j < p.len() ==> (#[trigger] p[j]).to == (#[trigger] q[j]).to,
    ensures
        writes(p, c, 0) == writes(q, c, 0),
{
    lemma_writes(p, c, 0);
    lemma_writes(q, c, 0);
    if writes(p, c, 0) {
        let j = choose|j: int| 0 <= j < p.len() && (#[trigger] p[j]).to == c;
        assert(q[j].to == c);
    }
    if writes(q, c, 0) {
        let j = choose|j: int| 0 <= j < q.len() && (#[trigger] q[j]).to == c;
        assert(p[j].to == c);
    }
}

proof fn lemma_blocks(p: Seq<Move>, q: Seq<Move>, c: Cell, t: Cell, k: int, n: int)
    requires
        q == redirect(p, c, t),
        !writes(p, t, 0),
        writes(p, c, 0),
        0 <= k < p.len(),
        p[k].from == c,
        0 <= n <= p.len(),
    ensures
        blocks(q, n) <= blocks(p, n),
        k < n ==> blocks(q, n) < blocks(p, n),
    decreases n,
{
    if n > 0 {
        lemma_blocks(p, q, c, t, k, n - 1);
        assert(p[n - 1].to == q[n - 1].to);
        lemma_writes_same(p, q, q[n - 1].from);
        assert(q[n - 1].from == t || q[n - 1].from == p[n - 1].from);
    }
}

/// Redirecting a blocked source to a cell nothing writes leaves fewer blocked.
pub proof fn lemma_redirect(p: Seq<Move>, i: int, t: Cell)
    requires
        0 <= i < p.len(),
        !writes(p, t, 0),
        blocked(p, 0) == Some(i),
    ensures
        blocks(redirect(p, p[i].from, t), p.len() as int) < blocks(p, p.len() as int),
        redirect(p, p[i].from, t).len() == p.len(),
{
    lemma_blocked(p, 0);
    lemma_blocks(p, redirect(p, p[i].from, t), p[i].from, t, i, p.len() as int);
}

pub proof fn lemma_blocked(p: Seq<Move>, i: int)
    requires
        0 <= i,
    ensures
        match blocked(p, i) {
            Some(k) => i <= k < p.len() && writes(p, p[k].from, 0),
            None => forall|j: int| i <= j < p.len() ==> !writes(p, (#[trigger] p[j]).from, 0),
        },
    decreases p.len() - i,
{
    if i < p.len() && !writes(p, p[i].from, 0) {
        lemma_blocked(p, i + 1);
    }
}

pub proof fn lemma_ready(p: Seq<Move>, i: int)
    requires
        0 <= i,
    ensures
        match ready(p, i) {
            Some(k) => i <= k < p.len() && !reads(p, p[k].to, 0),
            None => forall|j: int| i <= j < p.len() ==> reads(p, (#[trigger] p[j]).to, 0),
        },
    decreases p.len() - i,
{
    if i < p.len() && reads(p, p[i].to, 0) {
        lemma_ready(p, i + 1);
    }
}

/// What the cells hold after some copies, made one after another.
pub open spec fn run(st: spec_fn(Cell) -> int, ms: Seq<Move>) -> spec_fn(Cell) -> int
    decreases ms.len(),
{
    if ms.len() == 0 {
        st
    } else {
        let m = ms[0];
        run(
            |c: Cell|
                if c == m.to {
                    st(m.from)
                } else {
                    st(c)
                },
            ms.drop_first(),
        )
    }
}

/// Whether a cell is a slot at or past `tmp`.
pub open spec fn scratch(c: Cell, tmp: int) -> bool {
    match c {
        Cell::Slot(o) => o >= tmp,
        _ => false,
    }
}

/// Whether the destinations are distinct, and every cell is below the scratch
/// words.
pub open spec fn sound(p: Seq<Move>, tmp: int) -> bool {
    &&& forall|i: int, j: int|
        0 <= i < j < p.len() ==> (#[trigger] p[i]).to != (#[trigger] p[j]).to
    &&& forall|i: int|
        0 <= i < p.len() ==> !scratch((#[trigger] p[i]).to, tmp) && !scratch(p[i].from, tmp)
}

/// An edge's copies are one parallel assignment: where the destinations are
/// distinct and every cell is below the scratch words, each destination ends up
/// with what its source held before any copy, and no other cell below the
/// scratch words changes.
pub proof fn a_shuffle_is_a_parallel_assignment(
    p: Seq<Move>,
    tmp: u64,
    st: spec_fn(Cell) -> int,
)
    requires
        sound(p, tmp as int),
        tmp + 8 * blocks(p, p.len() as int) <= u64::MAX,
    ensures
        shuffle(p, tmp).1,
        forall|i: int|
            0 <= i < p.len() ==> run(st, shuffle(p, tmp).0)((#[trigger] p[i]).to) == st(p[i].from),
        forall|c: Cell|
            !scratch(c, tmp as int) && !writes(p, c, 0) ==> #[trigger] run(
                st,
                shuffle(p, tmp).0,
            )(c) == st(c),
    decreases p.len(), blocks(p, p.len() as int),
{
    if p.len() == 0 {
    } else {
        lemma_ready(p, 0);
        match ready(p, 0) {
            Some(i) => {
                let q = p.remove(i);
                let m = p[i];
                let st1 = |c: Cell|
                    if c == m.to {
                        st(m.from)
                    } else {
                        st(c)
                    };
                assert forall|a: int, b: int| 0 <= a < b < q.len() implies (#[trigger] q[a]).to != (
                #[trigger] q[b]).to by {
                    let a1 = if a < i {
                        a
                    } else {
                        a + 1
                    };
                    let b1 = if b < i {
                        b
                    } else {
                        b + 1
                    };
                    assert(q[a] == p[a1] && q[b] == p[b1]);
                }
                assert forall|a: int| 0 <= a < q.len() implies !scratch(
                    (#[trigger] q[a]).to,
                    tmp as int,
                ) && !scratch(q[a].from, tmp as int) by {
                    let a1 = if a < i {
                        a
                    } else {
                        a + 1
                    };
                    assert(q[a] == p[a1]);
                }
                lemma_blocks_remove(p, i);
                a_shuffle_is_a_parallel_assignment(q, tmp, st1);
                let rest = shuffle(q, tmp).0;
                let all = seq![m] + rest;
                assert(all.drop_first() =~= rest);
                assert(run(st, all) == run(st1, rest));
                lemma_reads(p, m.to, 0);
                lemma_writes(q, m.to, 0);
                assert(!writes(q, m.to, 0)) by {
                    if writes(q, m.to, 0) {
                        let a = choose|a: int| 0 <= a < q.len() && (#[trigger] q[a]).to == m.to;
                        let a1 = if a < i {
                            a
                        } else {
                            a + 1
                        };
                        assert(q[a] == p[a1]);
                        assert(p[i].to != p[a1].to);
                    }
                }
                assert forall|k: int| 0 <= k < p.len() implies run(st, all)((#[trigger] p[k]).to)
                    == st(p[k].from) by {
                    if k == i {
                        assert(!scratch(m.to, tmp as int));
                        assert(run(st1, rest)(m.to) == st1(m.to));
                    } else {
                        let k1 = if k < i {
                            k
                        } else {
                            k - 1
                        };
                        assert(q[k1] == p[k]);
                        assert(p[k].from != m.to);
                    }
                }
                assert forall|c: Cell| !scratch(c, tmp as int) && !writes(p, c, 0) implies
                    #[trigger] run(st, all)(c) == st(c) by {
                    lemma_writes(p, c, 0);
                    lemma_writes(q, c, 0);
                    if writes(q, c, 0) {
                        let a = choose|a: int| 0 <= a < q.len() && (#[trigger] q[a]).to == c;
                        let a1 = if a < i {
                            a
                        } else {
                            a + 1
                        };
                        assert(q[a] == p[a1]);
                    }
                    assert(p[i].to != c);
                    assert(run(st1, rest)(c) == st1(c));
                }
            },
            None => {
                // Every destination is read, so the source of one copy is one.
                lemma_reads(p, p[0].to, 0);
                lemma_blocked(p, 0);
                let w = choose|j: int| 0 <= j < p.len() && (#[trigger] p[j]).from == p[0].to;
                assert(reads(p, p[0].to, 0));
                lemma_writes(p, p[w].from, 0);
                assert(p[0].to == p[w].from);
                let i = blocked(p, 0)->0;
                let t = Cell::Slot(tmp);
                lemma_writes(p, t, 0);
                assert(!writes(p, t, 0));
                let f = p[i].from;
                let q = redirect(p, f, t);
                let m = Move { to: t, ..p[i] };
                let st1 = |c: Cell|
                    if c == m.to {
                        st(m.from)
                    } else {
                        st(c)
                    };
                lemma_redirect(p, i, t);
                let nt = (tmp + 8) as u64;
                assert(nt == tmp + 8);
                assert(sound(q, nt as int)) by {
                    assert forall|a: int, b: int| 0 <= a < b < q.len() implies (#[trigger] q[a]).to
                        != (#[trigger] q[b]).to by {
                        assert(q[a].to == p[a].to && q[b].to == p[b].to);
                    }
                    assert forall|a: int| 0 <= a < q.len() implies !scratch(
                        (#[trigger] q[a]).to,
                        nt as int,
                    ) && !scratch(q[a].from, nt as int) by {
                        assert(q[a].to == p[a].to);
                        assert(q[a].from == t || q[a].from == p[a].from);
                    }
                }
                a_shuffle_is_a_parallel_assignment(q, nt, st1);
                let rest = shuffle(q, nt).0;
                let all = seq![m] + rest;
                assert(all.drop_first() =~= rest);
                assert(run(st, all) == run(st1, rest));
                assert forall|k: int| 0 <= k < p.len() implies run(st, all)((#[trigger] p[k]).to)
                    == st(p[k].from) by {
                    assert(q[k].to == p[k].to);
                    assert(run(st1, rest)(q[k].to) == st1(q[k].from));
                }
                assert forall|c: Cell| !scratch(c, tmp as int) && !writes(p, c, 0) implies
                    #[trigger] run(st, all)(c) == st(c) by {
                    lemma_writes_same(p, q, c);
                    assert(run(st1, rest)(c) == st1(c));
                }
            },
        }
    }
}

// ---------------------------------------------------------------------------
// The same over bytes
// ---------------------------------------------------------------------------

/// The offset of a slot.
pub open spec fn offset(c: Cell) -> int {
    match c {
        Cell::Slot(o) => o as int,
        Cell::Reg(_) => -1,
    }
}

/// A frame on which copies between slots have been made, one after another.
pub open spec fn run_bytes(m: Frame, ms: Seq<Move>) -> Frame
    decreases ms.len(),
{
    if ms.len() == 0 {
        m
    } else {
        run_bytes(
            copied(m, offset(ms[0].to), offset(ms[0].from), ms[0].n as int),
            ms.drop_first(),
        )
    }
}

/// Whether two places have no byte in common.
pub open spec fn disjoint(a: int, n: int, b: int, k: int) -> bool {
    a + n <= b || b + k <= a
}

/// Whether the destinations are slots below `lim` that have no byte in common.
pub open spec fn dests_apart(p: Seq<Move>, lim: int) -> bool {
    &&& forall|i: int|
        0 <= i < p.len() ==> (#[trigger] p[i]).to is Slot && p[i].n > 0 && offset(p[i].to) + p[i].n
            <= lim
    &&& forall|i: int, j: int|
        0 <= i < j < p.len() ==> disjoint(
            offset((#[trigger] p[i]).to),
            p[i].n as int,
            offset((#[trigger] p[j]).to),
            p[j].n as int,
        )
}

/// Whether a source is the destination of a copy of the same width, or has no byte in common with
/// that destination.
pub open spec fn source_apart(a: Move, b: Move) -> bool {
    if a.from == b.to {
        a.n == b.n
    } else {
        disjoint(offset(a.from), a.n as int, offset(b.to), b.n as int)
    }
}

/// Whether the sources are slots, each of which is read at one width and lies either at or past
/// `lim`, or below it and apart from the destinations.
pub open spec fn sources_apart(p: Seq<Move>, lim: int) -> bool {
    &&& forall|i: int| 0 <= i < p.len() ==> (#[trigger] p[i]).from is Slot
    &&& forall|i: int, j: int|
        0 <= i < p.len() && 0 <= j < p.len() && (#[trigger] p[i]).from == (#[trigger] p[j]).from
            ==> p[i].n == p[j].n
    &&& forall|i: int|
        0 <= i < p.len() ==> offset((#[trigger] p[i]).from) >= lim || offset(p[i].from) + p[i].n
            <= lim
    &&& forall|i: int, j: int|
        0 <= i < p.len() && 0 <= j < p.len() && offset((#[trigger] p[i]).from) < lim
            ==> source_apart(p[i], #[trigger] p[j])
}

/// Whether a byte is one of a destination's.
pub open spec fn covered(p: Seq<Move>, x: int) -> bool {
    exists|i: int|
        0 <= i < p.len() && offset((#[trigger] p[i]).to) <= x < offset(p[i].to) + p[i].n
}

/// Whether a frame is another in which every destination of some copies has what its source had, and
/// no other byte below `lim` has changed.
pub open spec fn assigned(p: Seq<Move>, lim: int, m: Frame, now: Frame) -> bool {
    &&& forall|i: int, b: int|
        0 <= i < p.len() && 0 <= b < p[i].n ==> now(#[trigger] byte_at(p[i].to, b)) == m(
            byte_at(p[i].from, b),
        )
    &&& forall|x: int| x < lim && !covered(p, x) ==> #[trigger] now(x) == m(x)
}

/// A byte of a slot.
pub open spec fn byte_at(c: Cell, b: int) -> int {
    offset(c) + b
}

/// Where every destination is read, every source is a destination.
proof fn lemma_no_other_source(p: Seq<Move>, k: int)
    requires
        0 <= k < p.len(),
        forall|i: int, j: int|
            0 <= i < j < p.len() ==> (#[trigger] p[i]).to != (#[trigger] p[j]).to,
        forall|i: int| 0 <= i < p.len() ==> reads(p, (#[trigger] p[i]).to, 0),
    ensures
        writes(p, p[k].from, 0),
{
    lemma_writes(p, p[k].from, 0);
    if !writes(p, p[k].from, 0) {
        let tos = Seq::new(p.len(), |i: int| p[i].to);
        let q = p.remove(k);
        let froms = Seq::new(q.len(), |i: int| q[i].from);
        assert(tos.no_duplicates()) by {
            assert forall|i: int, j: int| 0 <= i < tos.len() && 0 <= j < tos.len() && i != j implies
                tos[i] != tos[j] by {
                if i < j {
                    assert(p[i].to != p[j].to);
                } else {
                    assert(p[j].to != p[i].to);
                }
            }
        }
        tos.unique_seq_to_set();
        froms.lemma_cardinality_of_set();
        assert(tos.to_set().subset_of(froms.to_set())) by {
            assert forall|c: Cell| tos.to_set().contains(c) implies froms.to_set().contains(c) by {
                let i = choose|i: int| 0 <= i < tos.len() && tos[i] == c;
                assert(reads(p, p[i].to, 0));
                lemma_reads(p, p[i].to, 0);
                let j = choose|j: int| 0 <= j < p.len() && (#[trigger] p[j]).from == p[i].to;
                assert(j != k);
                let j1 = if j < k {
                    j
                } else {
                    j - 1
                };
                assert(q[j1] == p[j]);
                assert(froms[j1] == c);
            }
        }
        vstd::set_lib::lemma_len_subset(tos.to_set(), froms.to_set());
    }
}

proof fn lemma_bytes(p: Seq<Move>, tmp: u64, lim: int, m: Frame)
    requires
        dests_apart(p, lim),
        sources_apart(p, lim),
        lim <= tmp,
        tmp + 8 * blocks(p, p.len() as int) <= u64::MAX,
    ensures
        shuffle(p, tmp).1,
        assigned(p, lim, m, run_bytes(m, shuffle(p, tmp).0)),
    decreases p.len(), blocks(p, p.len() as int),
{
    if p.len() == 0 {
    } else {
        lemma_ready(p, 0);
        match ready(p, 0) {
            Some(i) => {
                let a = p[i];
                let q = p.remove(i);
                let m1 = copied(m, offset(a.to), offset(a.from), a.n as int);
                assert forall|k: int| 0 <= k < q.len() implies #[trigger] q[k] == p[if k < i {
                    k
                } else {
                    k + 1
                }] by {}
                lemma_blocks_remove(p, i);
                lemma_bytes(q, tmp, lim, m1);
                let rest = shuffle(q, tmp).0;
                let all = seq![a] + rest;
                assert(all.drop_first() =~= rest);
                let now = run_bytes(m1, rest);
                assert(run_bytes(m, all) == now);
                lemma_reads(p, a.to, 0);
                assert forall|k: int, b: int| 0 <= k < p.len() && 0 <= b < p[k].n implies now(
                    #[trigger] byte_at(p[k].to, b),
                ) == m(byte_at(p[k].from, b)) by {
                    if k == i {
                        let x = byte_at(a.to, b);
                        assert(!covered(q, x)) by {
                            if covered(q, x) {
                                let c = choose|c: int|
                                    0 <= c < q.len() && offset((#[trigger] q[c]).to) <= x < offset(
                                        q[c].to,
                                    ) + q[c].n;
                                let c1 = if c < i {
                                    c
                                } else {
                                    c + 1
                                };
                                assert(q[c] == p[c1]);
                                if c1 < i {
                                    assert(disjoint(
                                        offset(p[c1].to),
                                        p[c1].n as int,
                                        offset(p[i].to),
                                        p[i].n as int,
                                    ));
                                } else {
                                    assert(disjoint(
                                        offset(p[i].to),
                                        p[i].n as int,
                                        offset(p[c1].to),
                                        p[c1].n as int,
                                    ));
                                }
                            }
                        }
                        assert(now(x) == m1(x));
                    } else {
                        let k1 = if k < i {
                            k
                        } else {
                            k - 1
                        };
                        assert(q[k1] == p[k]);
                        assert(now(byte_at(q[k1].to, b)) == m1(byte_at(q[k1].from, b)));
                        assert(p[k].from != a.to);
                        if offset(p[k].from) < lim {
                            assert(source_apart(p[k], p[i]));
                        }
                    }
                }
                assert forall|x: int| x < lim && !covered(p, x) implies #[trigger] now(x) == m(x) by {
                    if covered(q, x) {
                        let c = choose|c: int|
                            0 <= c < q.len() && offset((#[trigger] q[c]).to) <= x < offset(q[c].to)
                                + q[c].n;
                        let c1 = if c < i {
                            c
                        } else {
                            c + 1
                        };
                        assert(q[c] == p[c1]);
                        assert(covered(p, x));
                    }
                    assert(now(x) == m1(x));
                    assert(!(offset(p[i].to) <= x < offset(p[i].to) + p[i].n));
                }
            },
            None => {
                assert forall|a: int, b: int| 0 <= a < b < p.len() implies (#[trigger] p[a]).to != (
                #[trigger] p[b]).to by {
                    assert(disjoint(
                        offset(p[a].to),
                        p[a].n as int,
                        offset(p[b].to),
                        p[b].n as int,
                    ));
                }
                assert forall|k: int| 0 <= k < p.len() implies offset((#[trigger] p[k]).from)
                    < lim by {
                    lemma_no_other_source(p, k);
                    lemma_writes(p, p[k].from, 0);
                    let j = choose|j: int| 0 <= j < p.len() && (#[trigger] p[j]).to == p[k].from;
                    assert(offset(p[j].to) + p[j].n <= lim);
                }
                lemma_blocked(p, 0);
                lemma_no_other_source(p, 0);
                let i = blocked(p, 0)->0;
                let t = Cell::Slot(tmp);
                lemma_writes(p, t, 0);
                assert(!writes(p, t, 0));
                let f = p[i].from;
                let q = redirect(p, f, t);
                let a = Move { to: t, ..p[i] };
                let m1 = copied(m, tmp as int, offset(f), a.n as int);
                lemma_redirect(p, i, t);
                let nt = (tmp + 8) as u64;
                assert(nt == tmp + 8);
                assert forall|k: int| 0 <= k < q.len() implies (#[trigger] q[k]).to == p[k].to
                    && q[k].n == p[k].n && q[k].from == (if p[k].from == f {
                    t
                } else {
                    p[k].from
                }) by {}
                assert(dests_apart(q, lim)) by {
                    assert forall|x: int, y: int| 0 <= x < y < q.len() implies disjoint(
                        offset((#[trigger] q[x]).to),
                        q[x].n as int,
                        offset((#[trigger] q[y]).to),
                        q[y].n as int,
                    ) by {
                        assert(q[x].to == p[x].to && q[y].to == p[y].to);
                    }
                }
                assert(sources_apart(q, lim)) by {
                    assert forall|x: int, y: int|
                        0 <= x < q.len() && 0 <= y < q.len() && (#[trigger] q[x]).from == (
                        #[trigger] q[y]).from implies q[x].n == q[y].n by {
                        assert(p[x].from == p[y].from);
                    }
                    assert forall|x: int, y: int|
                        0 <= x < q.len() && 0 <= y < q.len() && offset((#[trigger] q[x]).from)
                            < lim implies source_apart(q[x], #[trigger] q[y]) by {
                        assert(source_apart(p[x], p[y]));
                    }
                }
                lemma_bytes(q, nt, lim, m1);
                let rest = shuffle(q, nt).0;
                let all = seq![a] + rest;
                assert(all.drop_first() =~= rest);
                let now = run_bytes(m1, rest);
                assert(run_bytes(m, all) == now);
                assert forall|k: int, b: int| 0 <= k < p.len() && 0 <= b < p[k].n implies now(
                    #[trigger] byte_at(p[k].to, b),
                ) == m(byte_at(p[k].from, b)) by {
                    assert(now(byte_at(q[k].to, b)) == m1(byte_at(q[k].from, b)));
                    if p[k].from == f {
                        assert(p[k].n == p[i].n);
                    }
                }
                assert forall|x: int| x < lim && !covered(p, x) implies #[trigger] now(x) == m(x) by {
                    if covered(q, x) {
                        let c = choose|c: int|
                            0 <= c < q.len() && offset((#[trigger] q[c]).to) <= x < offset(q[c].to)
                                + q[c].n;
                        assert(p[c].to == q[c].to);
                        assert(covered(p, x));
                    }
                    assert(now(x) == m1(x));
                }
            },
        }
    }
}

/// An edge's copies between slots are one parallel assignment over bytes, however wide the slots:
/// where the slots are apart over their widths and below the scratch words, every byte of each
/// destination ends up with what that byte of its source held before any copy, and no other byte
/// below the scratch words changes.
pub proof fn a_shuffle_assigns_every_byte(p: Seq<Move>, tmp: u64, m: Frame)
    requires
        dests_apart(p, tmp as int),
        sources_apart(p, tmp as int),
        forall|i: int| 0 <= i < p.len() ==> offset((#[trigger] p[i]).from) + p[i].n <= tmp,
        tmp + 8 * blocks(p, p.len() as int) <= u64::MAX,
    ensures
        shuffle(p, tmp).1,
        assigned(p, tmp as int, m, run_bytes(m, shuffle(p, tmp).0)),
{
    lemma_bytes(p, tmp, tmp as int, m);
}

/// Removing a copy blocks no more of the others.
pub proof fn lemma_blocks_remove(p: Seq<Move>, i: int)
    requires
        0 <= i < p.len(),
    ensures
        blocks(p.remove(i), p.len() - 1) <= blocks(p, p.len() as int),
{
    lemma_blocks_remove_to(p, i, p.len() as int);
}

proof fn lemma_blocks_remove_to(p: Seq<Move>, i: int, n: int)
    requires
        0 <= i < p.len(),
        0 <= n <= p.len(),
    ensures
        n <= i ==> blocks(p.remove(i), n) <= blocks(p, n),
        n > i ==> blocks(p.remove(i), n - 1) <= blocks(p, n),
    decreases n,
{
    if n > 0 {
        lemma_blocks_remove_to(p, i, n - 1);
        let q = p.remove(i);
        if n <= i {
            assert(q[n - 1] == p[n - 1]);
            lemma_writes_remove(p, i, q[n - 1].from);
        } else if n - 1 > i {
            assert(q[n - 2] == p[n - 1]);
            lemma_writes_remove(p, i, q[n - 2].from);
        }
    }
}

proof fn lemma_writes_remove(p: Seq<Move>, i: int, c: Cell)
    requires
        0 <= i < p.len(),
    ensures
        writes(p.remove(i), c, 0) ==> writes(p, c, 0),
{
    let q = p.remove(i);
    lemma_writes(p, c, 0);
    lemma_writes(q, c, 0);
    if writes(q, c, 0) {
        let a = choose|a: int| 0 <= a < q.len() && (#[trigger] q[a]).to == c;
        let a1 = if a < i {
            a
        } else {
            a + 1
        };
        assert(q[a] == p[a1]);
    }
}

fn is_read(p: &Vec<Move>, c: Cell) -> (r: bool)
    ensures
        r == reads(p@, c, 0),
{
    let mut i: usize = 0;
    while i < p.len()
        invariant
            i <= p.len(),
            reads(p@, c, 0) == reads(p@, c, i as int),
        decreases p.len() - i,
    {
        if p[i].from == c {
            return true;
        }
        i = i + 1;
    }
    false
}

fn is_written(p: &Vec<Move>, c: Cell) -> (r: bool)
    ensures
        r == writes(p@, c, 0),
{
    let mut i: usize = 0;
    while i < p.len()
        invariant
            i <= p.len(),
            writes(p@, c, 0) == writes(p@, c, i as int),
        decreases p.len() - i,
    {
        if p[i].to == c {
            return true;
        }
        i = i + 1;
    }
    false
}

fn find_ready(p: &Vec<Move>) -> (r: Option<usize>)
    ensures
        match r {
            Some(i) => ready(p@, 0) == Some(i as int) && i < p.len(),
            None => ready(p@, 0) is None,
        },
{
    let mut i: usize = 0;
    while i < p.len()
        invariant
            i <= p.len(),
            ready(p@, 0) == ready(p@, i as int),
        decreases p.len() - i,
    {
        if !is_read(p, p[i].to) {
            return Some(i);
        }
        i = i + 1;
    }
    None
}

fn find_blocked(p: &Vec<Move>) -> (r: Option<usize>)
    ensures
        match r {
            Some(i) => blocked(p@, 0) == Some(i as int) && i < p.len(),
            None => blocked(p@, 0) is None,
        },
{
    let mut i: usize = 0;
    while i < p.len()
        invariant
            i <= p.len(),
            blocked(p@, 0) == blocked(p@, i as int),
        decreases p.len() - i,
    {
        if is_written(p, p[i].from) {
            return Some(i);
        }
        i = i + 1;
    }
    None
}

/// A sequence of copies that assigns every destination of `p` at once, using the
/// scratch words from `first` on.
pub fn sequence(moves: Vec<Move>, first: u64) -> (r: (Vec<Move>, bool))
    ensures
        (r.0@, r.1) == shuffle(moves@, first),
{
    let ghost all = shuffle(moves@, first);
    let mut p: Vec<Move> = moves;
    let mut tmp: u64 = first;
    let mut out: Vec<Move> = Vec::new();
    while p.len() > 0
        invariant
            all == shuffle(moves@, first),
            all.0 == out@ + shuffle(p@, tmp).0,
            all.1 == shuffle(p@, tmp).1,
        decreases p.len(), blocks(p@, p.len() as int),
    {
        match find_ready(&p) {
            Some(i) => {
                let ghost before = out@;
                let ghost r = shuffle(p@.remove(i as int), tmp);
                let m: Move = p.remove(i);
                out.push(m);
                proof {
                    assert(all.0 =~= before + (seq![m] + r.0));
                    assert(all.0 =~= out@ + r.0);
                }
            },
            None => {
                let i: usize = match find_blocked(&p) {
                    Some(i) => i,
                    None => {
                        assert(all.0 =~= out@);
                        return (out, true);
                    },
                };
                if is_written(&p, Cell::Slot(tmp)) {
                    assert(all.0 =~= out@);
                    return (out, false);
                }
                let f: Cell = p[i].from;
                let ghost before = out@;
                let ghost q = redirect(p@, f, Cell::Slot(tmp));
                let ghost r = shuffle(q, (tmp + 8) as u64);
                let ghost old_p = p@;
                proof {
                    lemma_redirect(p@, i as int, Cell::Slot(tmp));
                }
                let m: Move = Move { to: Cell::Slot(tmp), from: f, n: p[i].n, float: p[i].float };
                out.push(m);
                let mut k: usize = 0;
                while k < p.len()
                    invariant
                        k <= p.len(),
                        p.len() == old_p.len(),
                        forall|j: int|
                            0 <= j < k ==> #[trigger] p[j] == redirect(
                                old_p,
                                f,
                                Cell::Slot(tmp),
                            )[j],
                        forall|j: int| k <= j < p.len() ==> #[trigger] p[j] == old_p[j],
                    decreases p.len() - k,
                {
                    let mut c: Move = p[k];
                    if c.from == f {
                        c.from = Cell::Slot(tmp);
                        p.set(k, c);
                    }
                    k = k + 1;
                }
                proof {
                    assert(p@ =~= q);
                    assert(all.0 =~= before + (seq![m] + r.0));
                    assert(all.0 =~= out@ + r.0);
                }
                tmp = plus(tmp, 8);
            },
        }
    }
    assert(all.0 =~= out@);
    (out, true)
}

} // verus!
