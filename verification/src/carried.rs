//! The values that a loop carries in registers.
//!
//! A loop variable is a parameter of the loop's header. The innermost loop whose blocks hold no
//! barrier, and that can only be entered at its header, keeps its variables in registers: nothing
//! in it disturbs a register, and control cannot be in it without having come through the header.

use crate::abi::{Loc, CPS_REGISTER_COUNT};
use crate::fuse::{barrier, is_barrier};
use crate::ir::{Block, Code, Inst, Target, Term, Type};
use crate::order::successors;
use crate::slots::{bump, filled, set_at, used};
use crate::types::{at_or, ent, put};
use vstd::prelude::*;

verus! {

/// Whether an edge leads from block `x` to block `y`.
pub open spec fn leads(code: Code, x: usize, y: usize) -> bool {
    x < code.blocks.len() && successors(code, x).contains(y)
}

/// Whether block `x` reaches block `p` in at most `n` steps without passing block `h`, or is `h`.
pub open spec fn within(code: Code, h: usize, p: usize, x: usize, n: nat) -> bool
    decreases n,
{
    x == h || x == p || n > 0 && exists|y: usize| #[trigger]
        leads(code, x, y) && y < code.blocks.len() && y != h && within(
            code,
            h,
            p,
            y,
            (n - 1) as nat,
        )
}

/// Whether a block is in the loop that the edge from `p` back to `h` makes.
pub open spec fn in_loop(code: Code, h: usize, p: usize, x: usize) -> bool {
    x < code.blocks.len() && exists|n: nat| #[trigger] within(code, h, p, x, n)
}

/// Whether an edge leads to a block.
pub open spec fn entered(code: Code, x: usize) -> bool {
    exists|q: usize| #[trigger] leads(code, q, x)
}

/// Whether every block of a loop but its header is led to from somewhere.
pub open spec fn natural(code: Code, h: usize, p: usize) -> bool {
    forall|x: usize| #[trigger] in_loop(code, h, p, x) && x != h ==> entered(code, x)
}

/// Whether a block holds a barrier.
pub open spec fn disturbed(x: Block) -> bool {
    exists|k: int| 0 <= k < x.insts.len() && barrier(#[trigger] x.insts[k])
}

/// Whether the loop of the edge from `p` back to `h` can carry values in registers: it is a loop, it
/// has variables, the entry is not in it, and nothing disturbs it.
pub open spec fn carries(code: Code, h: usize, p: usize) -> bool {
    &&& h <= p
    &&& code.params(h).len() > 0
    &&& natural(code, h, p)
    &&& !in_loop(code, h, p, 0)
    &&& forall|x: usize| #[trigger]
        in_loop(code, h, p, x) ==> !disturbed(code.blocks[x as int])
}

/// How many of the first `n` blocks a loop has.
pub open spec fn loop_size(code: Code, h: usize, p: usize, n: int) -> nat
    decreases n,
{
    if n <= 0 {
        0
    } else {
        loop_size(code, h, p, n - 1) + (if in_loop(code, h, p, (n - 1) as usize) {
            1nat
        } else {
            0
        })
    }
}

/// The smaller of a loop and the best so far; the best so far where they are of one size.
pub open spec fn better(code: Code, best: Option<(usize, usize)>, h: usize, p: usize) -> Option<
    (usize, usize),
> {
    let n = code.blocks.len() as int;
    if !carries(code, h, p) {
        best
    } else {
        match best {
            None => Some((h, p)),
            Some(b) => if loop_size(code, h, p, n) < loop_size(code, b.0, b.1, n) {
                Some((h, p))
            } else {
                best
            },
        }
    }
}

/// The best loop, with the edges of block `p` from edge `i` on looked at too.
pub open spec fn best_of_edges(code: Code, p: usize, i: int, best: Option<(usize, usize)>) -> Option<
    (usize, usize),
>
    decreases successors(code, p).len() - i,
{
    if i >= successors(code, p).len() {
        best
    } else {
        best_of_edges(code, p, i + 1, better(code, best, successors(code, p)[i], p))
    }
}

/// The best loop, with the blocks from block `p` on looked at too.
pub open spec fn best_from(code: Code, p: int, best: Option<(usize, usize)>) -> Option<
    (usize, usize),
>
    decreases code.blocks.len() - p,
{
    if p >= code.blocks.len() {
        best
    } else {
        best_from(code, p + 1, best_of_edges(code, p as usize, 0, best))
    }
}

/// The innermost loop that can carry values in registers.
pub open spec fn best_loop(code: Code) -> Option<(usize, usize)> {
    best_from(code, 0, None)
}

/// Whether a table tells which blocks are in a loop.
pub open spec fn is_body(code: Code, h: usize, p: usize, body: Seq<bool>) -> bool {
    body.len() == code.blocks.len() && forall|x: usize|
        x < body.len() ==> #[trigger] body[x as int] == in_loop(code, h, p, x)
}

/// Whether tables tell which blocks lead to which.
pub open spec fn is_preds(code: Code, preds: Seq<Vec<usize>>, n: int) -> bool {
    preds.len() == code.blocks.len() && forall|y: usize, x: usize|
        y < preds.len() ==> (#[trigger] preds[y as int]@.contains(x) <==> x < n && leads(code, x, y))
}

fn preds_of(code: &Code) -> (r: Vec<Vec<usize>>)
    ensures
        is_preds(*code, r@, code.blocks.len() as int),
{
    let n: usize = code.blocks.len();
    let mut out: Vec<Vec<usize>> = Vec::new();
    let mut i: usize = 0;
    while i < n
        invariant
            i <= n,
            out.len() == i,
            forall|k: int| 0 <= k < i ==> (#[trigger] out[k])@.len() == 0,
        decreases n - i,
    {
        out.push(Vec::new());
        i = i + 1;
    }
    assert(is_preds(*code, out@, 0)) by {
        assert forall|y: usize, x: usize| y < out.len() implies (
        #[trigger] out@[y as int]@.contains(x) <==> x < 0 && leads(*code, x, y)) by {
            assert(out[y as int]@.len() == 0);
        }
    }
    let mut b: usize = 0;
    while b < n
        invariant
            b <= n,
            n == code.blocks.len(),
            out.len() == n,
            is_preds(*code, out@, b as int),
        decreases n - b,
    {
        let ts: Vec<&Target> = code.blocks[b].term.targets();
        let ghost succ = successors(*code, b);
        let mut k: usize = 0;
        while k < ts.len()
            invariant
                b < n,
                n == code.blocks.len(),
                out.len() == n,
                k <= ts.len(),
                succ == successors(*code, b),
                ts.len() == succ.len(),
                forall|i: int| 0 <= i < ts.len() ==> (#[trigger] ts[i]).block == succ[i],
                forall|y: usize, x: usize|
                    y < n ==> (#[trigger] out@[y as int]@.contains(x) <==> x < b && leads(*code, x, y)
                        || x == b && succ.subrange(0, k as int).contains(y)),
            decreases ts.len() - k,
        {
            let y: usize = ts[k].block;
            let ghost before = out@;
            if y < n {
                out[y].push(b);
            }
            assert forall|z: usize, x: usize| z < n implies (
            #[trigger] out@[z as int]@.contains(x) <==> x < b && leads(*code, x, z) || x == b
                && succ.subrange(0, k + 1).contains(z)) by {
                let older = succ.subrange(0, k as int);
                let newer = succ.subrange(0, k + 1);
                assert(newer =~= older.push(y));
                assert(before[z as int]@.contains(x) <==> x < b && leads(*code, x, z) || x == b
                    && older.contains(z));
                if older.contains(z) {
                    let i = choose|i: int| 0 <= i < older.len() && older[i] == z;
                    assert(newer[i] == z);
                }
                if newer.contains(z) && z != y {
                    let i = choose|i: int| 0 <= i < newer.len() && newer[i] == z;
                    assert(older[i] == z);
                }
                if z == y {
                    assert(newer[k as int] == z);
                    assert(out@[z as int]@ == before[z as int]@.push(b));
                    let s = before[z as int]@;
                    let t = out@[z as int]@;
                    if s.contains(x) {
                        let i = choose|i: int| 0 <= i < s.len() && s[i] == x;
                        assert(t[i] == x);
                    }
                    assert(t[s.len() as int] == b);
                    if t.contains(x) && x != b {
                        let i = choose|i: int| 0 <= i < t.len() && t[i] == x;
                        assert(s[i] == x);
                    }
                } else {
                    assert(out@[z as int] == before[z as int]);
                }
            }
            k = k + 1;
        }
        assert(succ.subrange(0, k as int) =~= succ);
        assert(is_preds(*code, out@, b as int + 1)) by {
            assert forall|y: usize, x: usize| y < out@.len() implies (
            #[trigger] out@[y as int]@.contains(x) <==> x < b + 1 && leads(*code, x, y)) by {}
        }
        b = b + 1;
    }
    out
}

/// How many entries of a table are not set.
pub open spec fn unset(t: Seq<bool>, n: int) -> nat
    decreases n,
{
    if n <= 0 {
        0
    } else {
        unset(t, n - 1) + (if t[n - 1] {
            0nat
        } else {
            1
        })
    }
}

proof fn lemma_unset(t: Seq<bool>, x: int, n: int)
    requires
        0 <= x < n <= t.len(),
        !t[x],
    ensures
        unset(t.update(x, true), n) + 1 == unset(t, n),
    decreases n,
{
    if n - 1 == x {
        lemma_unset_same(t, t.update(x, true), x);
    } else {
        lemma_unset(t, x, n - 1);
    }
}

proof fn lemma_unset_same(a: Seq<bool>, b: Seq<bool>, n: int)
    requires
        n <= a.len(),
        n <= b.len(),
        forall|i: int| 0 <= i < n ==> a[i] == b[i],
    ensures
        unset(a, n) == unset(b, n),
    decreases n,
{
    if n > 0 {
        lemma_unset_same(a, b, n - 1);
    }
}

/// A block that leads into a loop, not at its header, is in the loop.
proof fn lemma_step_back(code: Code, h: usize, p: usize, q: usize, x: usize)
    requires
        in_loop(code, h, p, x),
        x != h,
        leads(code, q, x),
    ensures
        in_loop(code, h, p, q),
{
    let n = choose|n: nat| #[trigger] within(code, h, p, x, n);
    assert(((n + 1) - 1) as nat == n);
    assert(within(code, h, p, x, ((n + 1) - 1) as nat));
    assert(within(code, h, p, q, n + 1));
}

/// A table that holds the two ends and is closed under stepping back holds the loop.
proof fn lemma_closed(code: Code, h: usize, p: usize, body: Seq<bool>, x: usize, n: nat)
    requires
        body.len() == code.blocks.len(),
        h < body.len(),
        p < body.len(),
        body[h as int],
        body[p as int],
        forall|y: usize, q: usize|
            y < body.len() && body[y as int] && y != h && #[trigger] leads(code, q, y) ==> body[q as int],
        x < body.len(),
        within(code, h, p, x, n),
    ensures
        body[x as int],
    decreases n,
{
    if x != h && x != p {
        let y = choose|y: usize| #[trigger]
            leads(code, x, y) && y < code.blocks.len() && y != h && within(
                code,
                h,
                p,
                y,
                (n - 1) as nat,
            );
        lemma_closed(code, h, p, body, y, (n - 1) as nat);
        assert(leads(code, x, y));
    }
}

/// The blocks of the loop that the edge from `p` back to `h` makes, where every one of them but the
/// header is led to from somewhere.
fn natural_loop(code: &Code, preds: &Vec<Vec<usize>>, h: usize, p: usize) -> (r: Option<Vec<bool>>)
    requires
        h < code.blocks.len(),
        p < code.blocks.len(),
        is_preds(*code, preds@, code.blocks.len() as int),
    ensures
        match r {
            Some(body) => is_body(*code, h, p, body@) && natural(*code, h, p),
            None => !natural(*code, h, p),
        },
{
    let nb: usize = code.blocks.len();
    let mut body: Vec<bool> = filled(nb, false);
    body.set(h, true);
    body.set(p, true);
    let mut stack: Vec<usize> = Vec::new();
    stack.push(p);
    assert(within(*code, h, p, h, 0) && within(*code, h, p, p, 0));
    assert(stack@[0] == p);
    while stack.len() > 0
        invariant
            nb == code.blocks.len(),
            h < nb,
            p < nb,
            body.len() == nb,
            is_preds(*code, preds@, nb as int),
            body[h as int],
            body[p as int],
            forall|x: usize| x < nb && #[trigger] body[x as int] ==> in_loop(*code, h, p, x),
            forall|i: int| 0 <= i < stack.len() ==> (#[trigger] stack[i]) < nb && body[stack[i]
                as int],
            forall|x: usize|
                x < nb && #[trigger] body[x as int] && x != h && !stack@.contains(x) ==> entered(
                    *code,
                    x,
                ),
            forall|x: usize, q: usize|
                x < nb && body[x as int] && x != h && !stack@.contains(x) && #[trigger] leads(
                    *code,
                    q,
                    x,
                ) ==> body[q as int],
        decreases unset(body@, nb as int), stack.len(),
    {
        let ghost before = stack@;
        let x: usize = match stack.pop() {
            Some(x) => x,
            None => 0,
        };
        assert(x == before[before.len() - 1]);
        assert(body[x as int]);
        let ghost under = stack@;
        let ghost start = body@;
        assert forall|y: usize| before.contains(y) && y != x implies #[trigger] under.contains(y) by {
            let i = choose|i: int| 0 <= i < before.len() && before[i] == y;
            assert(under[i] == y);
        }
        if x != h {
            if preds[x].len() == 0 {
                assert(!entered(*code, x)) by {
                    if entered(*code, x) {
                        let q = choose|q: usize| #[trigger] leads(*code, q, x);
                        assert(preds@[x as int]@.contains(q));
                    }
                }
                assert(in_loop(*code, h, p, x));
                return None;
            }
            assert(entered(*code, x)) by {
                let q = preds@[x as int]@[0];
                assert(preds@[x as int]@.contains(q));
                assert(leads(*code, q, x));
            }
            let mut k: usize = 0;
            while k < preds[x].len()
                invariant
                    nb == code.blocks.len(),
                    h < nb,
                    p < nb,
                    x < nb,
                    x != h,
                    body.len() == nb,
                    start.len() == nb,
                    is_preds(*code, preds@, nb as int),
                    body[h as int],
                    body[p as int],
                    body[x as int],
                    entered(*code, x),
                    k <= preds[x as int].len(),
                    forall|y: usize| y < nb && #[trigger] body[y as int] ==> in_loop(*code, h, p, y),
                    forall|i: int| 0 <= i < stack.len() ==> (#[trigger] stack[i]) < nb && body[stack[i]
                        as int],
                    forall|y: int| 0 <= y < nb && start[y] ==> #[trigger] body[y],
                    forall|y: usize|
                        y < nb && #[trigger] body[y as int] && y != h && y != x && !stack@.contains(y)
                            ==> entered(*code, y),
                    forall|y: usize, q: usize|
                        y < nb && body[y as int] && y != h && y != x && !stack@.contains(y)
                            && #[trigger] leads(*code, q, y) ==> body[q as int],
                    forall|i: int| 0 <= i < k ==> body[(#[trigger] preds[x as int][i]) as int],
                    unset(body@, nb as int) <= unset(start, nb as int),
                    unset(body@, nb as int) == unset(start, nb as int) ==> stack@ == under,
                decreases preds[x as int].len() - k,
            {
                let q: usize = preds[x][k];
                let ghost last = body@;
                assert(preds@[x as int]@.contains(q));
                assert(leads(*code, q, x));
                if !body[q] {
                    proof {
                        lemma_step_back(*code, h, p, q, x);
                        lemma_unset(body@, q as int, nb as int);
                    }
                    let ghost old_stack = stack@;
                    let ghost old_body = body@;
                    body.set(q, true);
                    stack.push(q);
                    assert(stack@[old_stack.len() as int] == q);
                    assert forall|y: usize| old_stack.contains(y) implies #[trigger] stack@.contains(y) by {
                        let i = choose|i: int| 0 <= i < old_stack.len() && old_stack[i] == y;
                        assert(stack@[i] == y);
                    }
                    assert(stack@.contains(q));
                }
                assert(q == preds[x as int][k as int]);
                assert(body[q as int]);
                assert forall|i: int| 0 <= i < k + 1 implies body[(#[trigger] preds[x as int][i]) as int] by {
                    let y = preds[x as int][i];
                    assert(preds@[x as int]@.contains(y));
                    assert(leads(*code, y, x));
                    assert(y < nb);
                    assert(i == k || last[y as int]);
                }
                k = k + 1;
            }
            assert forall|y: usize, q: usize|
                y < nb && body[y as int] && y != h && !stack@.contains(y) && #[trigger] leads(
                    *code,
                    q,
                    y,
                ) implies body[q as int] by {
                if y == x {
                    assert(preds@[x as int]@.contains(q));
                    let i = choose|i: int|
                        0 <= i < preds@[x as int]@.len() && preds@[x as int]@[i] == q;
                    assert(body[preds[x as int][i] as int]);
                }
            }
        }
    }
    assert forall|x: usize| x < body.len() implies #[trigger] body[x as int] == in_loop(*code, h, p, x) by {
        if in_loop(*code, h, p, x) {
            let n = choose|n: nat| #[trigger] within(*code, h, p, x, n);
            assert forall|y: usize, q: usize|
                y < body@.len() && body@[y as int] && y != h && #[trigger] leads(
                    *code,
                    q,
                    y,
                ) implies body@[q as int] by {
                assert(!stack@.contains(y));
                assert(body[y as int]);
            }
            lemma_closed(*code, h, p, body@, x, n);
        }
    }
    assert(natural(*code, h, p)) by {
        assert forall|x: usize| #[trigger] in_loop(*code, h, p, x) && x != h implies entered(
            *code,
            x,
        ) by {
            assert(body[x as int]);
            assert(!stack@.contains(x));
        }
    }
    Some(body)
}

fn disturbed_of(x: &Block) -> (r: bool)
    ensures
        r == disturbed(*x),
{
    let mut k: usize = 0;
    while k < x.insts.len()
        invariant
            k <= x.insts.len(),
            forall|i: int| 0 <= i < k ==> !barrier(#[trigger] x.insts[i]),
        decreases x.insts.len() - k,
    {
        if is_barrier(&x.insts[k]) {
            assert(barrier(x.insts[k as int]));
            return true;
        }
        k = k + 1;
    }
    false
}

/// The size of a loop that can carry values in registers, with its blocks.
fn carried_loop(code: &Code, preds: &Vec<Vec<usize>>, disturbed_blocks: &Vec<bool>, h: usize, p: usize) -> (r: Option<
    (Vec<bool>, usize),
>)
    requires
        p < code.blocks.len(),
        is_preds(*code, preds@, code.blocks.len() as int),
        disturbed_blocks.len() == code.blocks.len(),
        forall|i: int|
            0 <= i < code.blocks.len() ==> #[trigger] disturbed_blocks[i] == disturbed(
                code.blocks[i],
            ),
    ensures
        match r {
            Some(b) => carries(*code, h, p) && is_body(*code, h, p, b.0@) && b.1 == loop_size(
                *code,
                h,
                p,
                code.blocks.len() as int,
            ),
            None => !carries(*code, h, p),
        },
{
    if h > p || code.blocks[h].params.len() == 0 {
        return None;
    }
    let body: Vec<bool> = match natural_loop(code, preds, h, p) {
        None => return None,
        Some(b) => b,
    };
    assert(body[0] == in_loop(*code, h, p, 0usize)) by {
        assert(body@[0usize as int] == in_loop(*code, h, p, 0usize));
    }
    if body[0] {
        return None;
    }
    let mut size: usize = 0;
    let mut x: usize = 0;
    while x < body.len()
        invariant
            x <= body.len(),
            is_body(*code, h, p, body@),
            disturbed_blocks.len() == code.blocks.len(),
            forall|i: int|
                0 <= i < code.blocks.len() ==> #[trigger] disturbed_blocks[i] == disturbed(
                    code.blocks[i],
                ),
            size <= x,
            size == loop_size(*code, h, p, x as int),
            forall|y: usize|
                y < x && #[trigger] in_loop(*code, h, p, y) ==> !disturbed(code.blocks[y as int]),
        decreases body.len() - x,
    {
        assert(body@[x as int] == in_loop(*code, h, p, x));
        if body[x] {
            if disturbed_blocks[x] {
                return None;
            }
            size = size + 1;
        }
        x = x + 1;
    }
    Some((body, size))
}

/// The innermost loop that can carry values in registers: its header, and its blocks.
fn best_loop_of(code: &Code) -> (r: Option<(usize, Vec<bool>)>)
    ensures
        match r {
            Some(b) => best_loop(*code) is Some && (best_loop(*code)->0).0 == b.0 && is_body(
                *code,
                b.0,
                (best_loop(*code)->0).1,
                b.1@,
            ) && carries(*code, b.0, (best_loop(*code)->0).1),
            None => best_loop(*code) is None,
        },
{
    let nb: usize = code.blocks.len();
    let preds: Vec<Vec<usize>> = preds_of(code);
    let mut bad: Vec<bool> = Vec::new();
    let mut i: usize = 0;
    while i < nb
        invariant
            i <= nb,
            nb == code.blocks.len(),
            bad.len() == i,
            forall|k: int| 0 <= k < i ==> #[trigger] bad[k] == disturbed(code.blocks[k]),
        decreases nb - i,
    {
        bad.push(disturbed_of(&code.blocks[i]));
        i = i + 1;
    }
    let mut best: Option<(usize, Vec<bool>)> = None;
    let mut least: usize = 0;
    let ghost mut found: Option<(usize, usize)> = None;
    let mut p: usize = 0;
    while p < nb
        invariant
            p <= nb,
            nb == code.blocks.len(),
            bad.len() == nb,
            is_preds(*code, preds@, nb as int),
            forall|k: int| 0 <= k < nb ==> #[trigger] bad[k] == disturbed(code.blocks[k]),
            best_from(*code, p as int, found) == best_loop(*code),
            match best {
                Some(b) => found is Some && (found->0).0 == b.0 && is_body(
                    *code,
                    b.0,
                    (found->0).1,
                    b.1@,
                ) && carries(*code, b.0, (found->0).1) && least == loop_size(
                    *code,
                    b.0,
                    (found->0).1,
                    nb as int,
                ),
                None => found is None,
            },
        decreases nb - p,
    {
        let ts: Vec<&Target> = code.blocks[p].term.targets();
        let ghost start = found;
        let ghost succ = successors(*code, p);
        let mut k: usize = 0;
        while k < ts.len()
            invariant
                k <= ts.len(),
                p < nb,
                nb == code.blocks.len(),
                bad.len() == nb,
                is_preds(*code, preds@, nb as int),
                forall|j: int| 0 <= j < nb ==> #[trigger] bad[j] == disturbed(code.blocks[j]),
                succ == successors(*code, p),
                ts.len() == succ.len(),
                forall|j: int| 0 <= j < ts.len() ==> (#[trigger] ts[j]).block == succ[j],
                best_of_edges(*code, p, k as int, found) == best_of_edges(*code, p, 0, start),
                match best {
                    Some(b) => found is Some && (found->0).0 == b.0 && is_body(
                        *code,
                        b.0,
                        (found->0).1,
                        b.1@,
                    ) && carries(*code, b.0, (found->0).1) && least == loop_size(
                        *code,
                        b.0,
                        (found->0).1,
                        nb as int,
                    ),
                    None => found is None,
                },
            decreases ts.len() - k,
        {
            let h: usize = ts[k].block;
            let ghost was = found;
            match carried_loop(code, &preds, &bad, h, p) {
                Some((body, size)) => {
                    let smaller: bool = match &best {
                        None => true,
                        Some(_) => size < least,
                    };
                    if smaller {
                        best = Some((h, body));
                        least = size;
                        proof {
                            found = Some((h, p));
                        }
                    }
                },
                None => {},
            }
            assert(found == better(*code, was, h, p));
            k = k + 1;
        }
        p = p + 1;
    }
    best
}

// ---------------------------------------------------------------------------
// The variables
// ---------------------------------------------------------------------------

/// How often each value is used, and whether every one of those uses can read a register.
pub struct Readers {
    pub ok: Seq<bool>,
    pub uses: Seq<u8>,
}

impl Readers {
    /// One use, which can read a register or not.
    pub open spec fn read(self, v: usize, fine: bool) -> Readers {
        Readers {
            ok: if fine {
                self.ok
            } else {
                set_at(self.ok, v as int, false)
            },
            uses: used(self.uses, v),
        }
    }

    /// Uses of one sort, from use `i` on.
    pub open spec fn reads(self, vs: Seq<usize>, fine: bool, i: int) -> Readers
        decreases vs.len() - i,
    {
        if i >= vs.len() {
            self
        } else {
            self.read(vs[i], fine).reads(vs, fine, i + 1)
        }
    }

    /// The instructions of a block, from instruction `k` on: inside the loop, operations read
    /// registers.
    pub open spec fn insts(self, is: Seq<Inst>, inside: bool, k: int) -> Readers
        decreases is.len() - k,
    {
        if k >= is.len() {
            self
        } else {
            self.reads(is[k].reads(), inside && operation(is[k]), 0).insts(is, inside, k + 1)
        }
    }

    /// The arguments of an edge, from argument `i` on: one that the header already has in the same
    /// place stays there.
    pub open spec fn args(self, ps: Seq<usize>, vs: Seq<usize>, back: bool, i: int) -> Readers
        decreases vs.len() - i,
    {
        if i >= vs.len() || i >= ps.len() {
            self
        } else {
            self.read(vs[i], back && ps[i] == vs[i]).args(ps, vs, back, i + 1)
        }
    }

    /// Edges, from edge `i` on.
    pub open spec fn edges(self, code: Code, ts: Seq<Target>, h: usize, i: int) -> Readers
        decreases ts.len() - i,
    {
        if i >= ts.len() {
            self
        } else {
            self.args(code.params(ts[i].block), ts[i].args@, ts[i].block == h, 0).edges(
                code,
                ts,
                h,
                i + 1,
            )
        }
    }

    /// One block.
    pub open spec fn block(self, code: Code, x: Block, h: usize, inside: bool) -> Readers {
        self.insts(x.insts@, inside, 0).reads(x.term.reads(), inside && x.term is Branch, 0).edges(
            code,
            x.term.edges(),
            h,
            0,
        )
    }

    /// The blocks of a body, from block `b` on.
    pub open spec fn blocks(self, code: Code, h: usize, body: Seq<bool>, b: int) -> Readers
        decreases code.blocks.len() - b,
    {
        if b >= code.blocks.len() {
            self
        } else {
            self.block(code, code.blocks[b], h, at_or(body, b, false)).blocks(code, h, body, b + 1)
        }
    }
}

/// Whether an instruction is an operation, which reads and leaves registers.
pub open spec fn operation(i: Inst) -> bool {
    i is Binary || i is Unary
}

/// The uses of a body's values, as the loop with this header and these blocks sees them.
pub open spec fn readers_of(code: Code, h: usize, body: Seq<bool>) -> Readers {
    let n = code.types@.len();
    Readers { ok: Seq::new(n, |i: int| true), uses: Seq::new(n, |i: int| 0u8) }.blocks(
        code,
        h,
        body,
        0,
    )
}

/// What is carried: where each value is, whether its slot is kept in step, and how many registers
/// of each file that took.
pub struct Carried {
    pub out: Seq<Option<Loc>>,
    pub wt: Seq<bool>,
    pub ints: nat,
    pub floats: nat,
}

/// Whether a value of a type fits a register.
pub open spec fn scalar(t: Type) -> bool {
    t == Type::I64 || t == Type::Ptr || t == Type::I1 || t == Type::I8 || t == Type::I16 || t
        == Type::I32 || t == Type::F64
}

/// Whether a value is in register `k`.
pub open spec fn in_reg(out: Seq<Option<Loc>>, v: usize, k: u8) -> bool {
    at_or(out, v as int, None) == Some(Loc::Reg(k))
}

/// Whether one of some values is in register `k`.
pub open spec fn any_in_reg(out: Seq<Option<Loc>>, vs: Seq<usize>, k: u8) -> bool {
    exists|i: int| 0 <= i < vs.len() && in_reg(out, #[trigger] vs[i], k)
}

/// Whether an edge hands over a value that is in register `k`, other than as this pair.
pub open spec fn edge_reads(
    code: Code,
    out: Seq<Option<Loc>>,
    t: Target,
    k: u8,
    but: Option<(usize, usize)>,
) -> bool {
    exists|i: int|
        0 <= i < t.args.len() && i < code.params(t.block).len() && in_reg(out, #[trigger] t.args[i], k)
            && but != Some((code.params(t.block)[i], t.args[i]))
}

/// Whether anything behind instruction `d` of a block reads register `k`, but for the hand-over of
/// `a` to `p` by edge `e`.
pub open spec fn clash(
    code: Code,
    out: Seq<Option<Loc>>,
    x: Block,
    e: int,
    p: usize,
    a: usize,
    d: int,
    k: u8,
) -> bool {
    ||| exists|j: int| d < j < x.insts.len() && any_in_reg(out, (#[trigger] x.insts[j]).reads(), k)
    ||| any_in_reg(out, x.term.reads(), k)
    ||| exists|j: int|
        0 <= j < x.term.edges().len() && edge_reads(
            code,
            out,
            #[trigger] x.term.edges()[j],
            k,
            if j == e {
                Some((p, a))
            } else {
                None
            },
        )
}

/// The first instruction from instruction `k` on that defines `v`.
pub open spec fn first_def(is: Seq<Inst>, v: usize, k: int) -> Option<int>
    decreases is.len() - k,
{
    if k >= is.len() {
        None
    } else if is[k].defines().contains(v) {
        Some(k)
    } else {
        first_def(is, v, k + 1)
    }
}

impl Carried {
    /// One variable of the loop.
    pub open spec fn variable(self, code: Code, u: Readers, p: usize) -> Carried {
        let float = code.ty(p) == Type::F64;
        let k = if float {
            self.floats
        } else {
            self.ints
        };
        if !scalar(code.ty(p)) || at_or(u.uses, p as int, 0u8) == 0 || k + 1 >= CPS_REGISTER_COUNT {
            self
        } else {
            Carried {
                out: set_at(self.out, p as int, Some(Loc::Reg(k as u8))),
                wt: set_at(self.wt, p as int, !at_or(u.ok, p as int, false)),
                ints: if float {
                    self.ints
                } else {
                    self.ints + 1
                },
                floats: if float {
                    self.floats + 1
                } else {
                    self.floats
                },
            }
        }
    }

    /// The variables of the loop, from variable `i` on.
    pub open spec fn variables(self, code: Code, u: Readers, ps: Seq<usize>, i: int) -> Carried
        decreases ps.len() - i,
    {
        if i >= ps.len() {
            self
        } else {
            self.variable(code, u, ps[i]).variables(code, u, ps, i + 1)
        }
    }

    /// Whether the value `a` that edge `e` of a block hands to variable `p` can be computed in the
    /// variable's own register `k`.
    pub open spec fn handed(
        self,
        code: Code,
        u: Readers,
        x: Block,
        e: int,
        p: usize,
        a: usize,
        k: u8,
    ) -> bool {
        &&& p != a
        &&& at_or(self.out, a as int, None) is None
        &&& at_or(u.uses, a as int, 0u8) == 1
        &&& (code.ty(a) == Type::F64) == (code.ty(p) == Type::F64)
        &&& first_def(x.insts@, a, 0) matches Some(d) && operation(x.insts[d]) && !clash(
            code,
            self.out,
            x,
            e,
            p,
            a,
            d,
            k,
        )
    }

    /// One argument of a back edge.
    pub open spec fn hand(self, code: Code, u: Readers, x: Block, e: int, p: usize, a: usize) -> Carried {
        match at_or(self.out, p as int, None) {
            Some(Loc::Reg(k)) => if self.handed(code, u, x, e, p, a, k) {
                Carried {
                    out: set_at(self.out, a as int, Some(Loc::Reg(k))),
                    wt: set_at(self.wt, a as int, false),
                    ..self
                }
            } else {
                self
            },
            _ => self,
        }
    }

    /// The arguments of a back edge, from argument `i` on.
    pub open spec fn hands(
        self,
        code: Code,
        u: Readers,
        x: Block,
        e: int,
        ps: Seq<usize>,
        vs: Seq<usize>,
        i: int,
    ) -> Carried
        decreases vs.len() - i,
    {
        if i >= vs.len() || i >= ps.len() {
            self
        } else {
            self.hand(code, u, x, e, ps[i], vs[i]).hands(code, u, x, e, ps, vs, i + 1)
        }
    }

    /// The edges of a block of the loop, from edge `e` on: those that lead back to the header hand
    /// its variables their next values.
    pub open spec fn edges(self, code: Code, u: Readers, x: Block, h: usize, e: int) -> Carried
        decreases x.term.edges().len() - e,
    {
        if e >= x.term.edges().len() {
            self
        } else {
            let t = x.term.edges()[e];
            let next = if t.block == h {
                self.hands(code, u, x, e, code.params(t.block), t.args@, 0)
            } else {
                self
            };
            next.edges(code, u, x, h, e + 1)
        }
    }

    /// The blocks of a body, from block `b` on.
    pub open spec fn blocks(self, code: Code, u: Readers, h: usize, body: Seq<bool>, b: int) -> Carried
        decreases code.blocks.len() - b,
    {
        if b >= code.blocks.len() {
            self
        } else {
            let next = if at_or(body, b, false) {
                self.edges(code, u, code.blocks[b], h, 0)
            } else {
                self
            };
            next.blocks(code, u, h, body, b + 1)
        }
    }
}

/// The blocks of a loop, as a table.
pub open spec fn body_of(code: Code, h: usize, p: usize) -> Seq<bool> {
    Seq::new(code.blocks@.len(), |x: int| in_loop(code, h, p, x as usize))
}

/// What a body carries in registers, on top of what it had.
pub open spec fn carried_of(code: Code, out: Seq<Option<Loc>>, wt: Seq<bool>) -> Carried {
    let none = Carried { out, wt, ints: 0, floats: 0 };
    match best_loop(code) {
        None => none,
        Some(l) => {
            let body = body_of(code, l.0, l.1);
            let u = readers_of(code, l.0, body);
            none.variables(code, u, code.params(l.0), 0).blocks(code, u, l.0, body, 0)
        },
    }
}

struct ReaderTable {
    ok: Vec<bool>,
    uses: Vec<u8>,
}

impl View for ReaderTable {
    type V = Readers;

    closed spec fn view(&self) -> Readers {
        Readers { ok: self.ok@, uses: self.uses@ }
    }
}

impl ReaderTable {
    fn read(&mut self, v: usize, fine: bool)
        ensures
            final(self)@ == old(self)@.read(v, fine),
    {
        bump(&mut self.uses, v);
        if !fine {
            put(&mut self.ok, v, false);
        }
    }

    fn reads(&mut self, vs: &Vec<usize>, fine: bool)
        ensures
            final(self)@ == old(self)@.reads(vs@, fine, 0),
    {
        let mut i: usize = 0;
        while i < vs.len()
            invariant
                i <= vs.len(),
                self@.reads(vs@, fine, i as int) == old(self)@.reads(vs@, fine, 0),
            decreases vs.len() - i,
        {
            self.read(vs[i], fine);
            i = i + 1;
        }
    }

    fn block(&mut self, code: &Code, x: &Block, h: usize, inside: bool)
        ensures
            final(self)@ == old(self)@.block(*code, *x, h, inside),
    {
        let mut k: usize = 0;
        while k < x.insts.len()
            invariant
                k <= x.insts.len(),
                self@.insts(x.insts@, inside, k as int) == old(self)@.insts(x.insts@, inside, 0),
            decreases x.insts.len() - k,
        {
            let ops: Vec<usize> = x.insts[k].operands();
            let fine: bool = inside && is_operation(&x.insts[k]);
            self.reads(&ops, fine);
            k = k + 1;
        }
        let ops: Vec<usize> = x.term.operands();
        let branch: bool = match &x.term {
            Term::Branch { .. } => true,
            _ => false,
        };
        self.reads(&ops, inside && branch);
        let ghost start = self@;
        let ts: Vec<&Target> = x.term.targets();
        let mut i: usize = 0;
        while i < ts.len()
            invariant
                i <= ts.len(),
                ts.len() == x.term.edges().len(),
                forall|j: int| 0 <= j < ts.len() ==> *(#[trigger] ts[j]) == x.term.edges()[j],
                self@.edges(*code, x.term.edges(), h, i as int) == start.edges(
                    *code,
                    x.term.edges(),
                    h,
                    0,
                ),
            decreases ts.len() - i,
        {
            let t: &Target = ts[i];
            let ps: Vec<usize> = code.params_of(t.block);
            let back: bool = t.block == h;
            let ghost before = self@;
            let mut j: usize = 0;
            while j < t.args.len() && j < ps.len()
                invariant
                    j <= t.args.len(),
                    self@.args(ps@, t.args@, back, j as int) == before.args(
                        ps@,
                        t.args@,
                        back,
                        0,
                    ),
                decreases t.args.len() - j,
            {
                self.read(t.args[j], back && ps[j] == t.args[j]);
                j = j + 1;
            }
            i = i + 1;
        }
    }
}

fn is_operation(i: &Inst) -> (r: bool)
    ensures
        r == operation(*i),
{
    match i {
        Inst::Binary { .. } => true,
        Inst::Unary { .. } => true,
        _ => false,
    }
}

fn is_in_reg(out: &Vec<Option<Loc>>, v: usize, k: u8) -> (r: bool)
    ensures
        r == in_reg(out@, v, k),
{
    match ent(out, v, None) {
        Some(Loc::Reg(j)) => j == k,
        _ => false,
    }
}

fn any_is_in_reg(out: &Vec<Option<Loc>>, vs: &Vec<usize>, k: u8) -> (r: bool)
    ensures
        r == any_in_reg(out@, vs@, k),
{
    let mut i: usize = 0;
    while i < vs.len()
        invariant
            i <= vs.len(),
            forall|j: int| 0 <= j < i ==> !in_reg(out@, #[trigger] vs@[j], k),
        decreases vs.len() - i,
    {
        if is_in_reg(out, vs[i], k) {
            assert(in_reg(out@, vs@[i as int], k));
            return true;
        }
        i = i + 1;
    }
    false
}

fn edge_reads_reg(
    code: &Code,
    out: &Vec<Option<Loc>>,
    t: &Target,
    k: u8,
    but: Option<(usize, usize)>,
) -> (r: bool)
    ensures
        r == edge_reads(*code, out@, *t, k, but),
{
    let ps: Vec<usize> = code.params_of(t.block);
    let mut i: usize = 0;
    while i < t.args.len() && i < ps.len()
        invariant
            i <= t.args.len(),
            ps@ == code.params(t.block),
            forall|j: int|
                0 <= j < i ==> !(in_reg(out@, #[trigger] t.args[j], k) && but != Some(
                    (ps@[j], t.args[j]),
                )),
        decreases t.args.len() - i,
    {
        let skip: bool = match but {
            Some((p, a)) => p == ps[i] && a == t.args[i],
            None => false,
        };
        if !skip && is_in_reg(out, t.args[i], k) {
            assert(in_reg(out@, t.args[i as int], k));
            return true;
        }
        i = i + 1;
    }
    false
}

fn clashes(
    code: &Code,
    out: &Vec<Option<Loc>>,
    x: &Block,
    e: usize,
    p: usize,
    a: usize,
    d: usize,
    k: u8,
) -> (r: bool)
    requires
        d < x.insts.len(),
    ensures
        r == clash(*code, out@, *x, e as int, p, a, d as int, k),
{
    let mut j: usize = d + 1;
    while j < x.insts.len()
        invariant
            d < j <= x.insts.len(),
            forall|m: int|
                d < m < j ==> !any_in_reg(out@, (#[trigger] x.insts[m]).reads(), k),
        decreases x.insts.len() - j,
    {
        let ops: Vec<usize> = x.insts[j].operands();
        if any_is_in_reg(out, &ops, k) {
            assert(any_in_reg(out@, x.insts[j as int].reads(), k));
            return true;
        }
        j = j + 1;
    }
    let ops: Vec<usize> = x.term.operands();
    if any_is_in_reg(out, &ops, k) {
        return true;
    }
    let ts: Vec<&Target> = x.term.targets();
    let mut i: usize = 0;
    while i < ts.len()
        invariant
            i <= ts.len(),
            ts.len() == x.term.edges().len(),
            forall|m: int| 0 <= m < ts.len() ==> *(#[trigger] ts[m]) == x.term.edges()[m],
            forall|m: int|
                0 <= m < i ==> !edge_reads(
                    *code,
                    out@,
                    #[trigger] x.term.edges()[m],
                    k,
                    if m == e {
                        Some((p, a))
                    } else {
                        None
                    },
                ),
        decreases ts.len() - i,
    {
        let but: Option<(usize, usize)> = if i == e {
            Some((p, a))
        } else {
            None
        };
        if edge_reads_reg(code, out, ts[i], k, but) {
            assert(edge_reads(*code, out@, x.term.edges()[i as int], k, but));
            return true;
        }
        i = i + 1;
    }
    false
}

fn first_def_of(is: &Vec<Inst>, v: usize) -> (r: Option<usize>)
    ensures
        match r {
            Some(k) => k < is.len() && first_def(is@, v, 0) == Some(k as int),
            None => first_def(is@, v, 0) is None,
        },
{
    let mut k: usize = 0;
    while k < is.len()
        invariant
            k <= is.len(),
            first_def(is@, v, k as int) == first_def(is@, v, 0),
        decreases is.len() - k,
    {
        let ds: Vec<usize> = is[k].results();
        let mut i: usize = 0;
        while i < ds.len()
            invariant
                k < is.len(),
                i <= ds.len(),
                ds@ == is[k as int].defines(),
                first_def(is@, v, k as int) == first_def(is@, v, 0),
                forall|j: int| 0 <= j < i ==> ds[j] != v,
            decreases ds.len() - i,
        {
            if ds[i] == v {
                assert(ds@.contains(v));
                return Some(k);
            }
            i = i + 1;
        }
        k = k + 1;
    }
    None
}

struct CarriedTable {
    out: Vec<Option<Loc>>,
    wt: Vec<bool>,
    ints: usize,
    floats: usize,
}

impl View for CarriedTable {
    type V = Carried;

    closed spec fn view(&self) -> Carried {
        Carried {
            out: self.out@,
            wt: self.wt@,
            ints: self.ints as nat,
            floats: self.floats as nat,
        }
    }
}

impl CarriedTable {
    fn variable(&mut self, code: &Code, u: &ReaderTable, p: usize)
        ensures
            final(self)@ == old(self)@.variable(*code, u@, p),
    {
        let ty: Type = code.ty_of(p);
        let float: bool = ty == Type::F64;
        let fits: bool = ty == Type::I64 || ty == Type::Ptr || ty == Type::I1 || ty == Type::I8 || ty
            == Type::I16 || ty == Type::I32 || ty == Type::F64;
        let k: usize = if float {
            self.floats
        } else {
            self.ints
        };
        if !fits || ent(&u.uses, p, 0) == 0 || k >= CPS_REGISTER_COUNT - 1 {
            return;
        }
        put(&mut self.out, p, Some(Loc::Reg(k as u8)));
        put(&mut self.wt, p, !ent(&u.ok, p, false));
        if float {
            self.floats = self.floats + 1;
        } else {
            self.ints = self.ints + 1;
        }
    }

    fn hand(&mut self, code: &Code, u: &ReaderTable, x: &Block, e: usize, p: usize, a: usize)
        ensures
            final(self)@ == old(self)@.hand(*code, u@, *x, e as int, p, a),
    {
        match ent(&self.out, p, None) {
            Some(Loc::Reg(k)) => {
                if p == a || ent(&self.out, a, None).is_some() || ent(&u.uses, a, 0) != 1 {
                    return;
                }
                if (code.ty_of(a) == Type::F64) != (code.ty_of(p) == Type::F64) {
                    return;
                }
                match first_def_of(&x.insts, a) {
                    Some(d) => {
                        if is_operation(&x.insts[d]) && !clashes(code, &self.out, x, e, p, a, d, k) {
                            put(&mut self.out, a, Some(Loc::Reg(k)));
                            put(&mut self.wt, a, false);
                        }
                    },
                    None => {},
                }
            },
            _ => {},
        }
    }

    fn edges(&mut self, code: &Code, u: &ReaderTable, x: &Block, h: usize)
        ensures
            final(self)@ == old(self)@.edges(*code, u@, *x, h, 0),
    {
        let ts: Vec<&Target> = x.term.targets();
        let mut e: usize = 0;
        while e < ts.len()
            invariant
                e <= ts.len(),
                ts.len() == x.term.edges().len(),
                forall|m: int| 0 <= m < ts.len() ==> *(#[trigger] ts[m]) == x.term.edges()[m],
                self@.edges(*code, u@, *x, h, e as int) == old(self)@.edges(*code, u@, *x, h, 0),
            decreases ts.len() - e,
        {
            let t: &Target = ts[e];
            if t.block == h {
                let ps: Vec<usize> = code.params_of(t.block);
                let ghost before = self@;
                let mut i: usize = 0;
                while i < t.args.len() && i < ps.len()
                    invariant
                        i <= t.args.len(),
                        self@.hands(*code, u@, *x, e as int, ps@, t.args@, i as int)
                            == before.hands(*code, u@, *x, e as int, ps@, t.args@, 0),
                    decreases t.args.len() - i,
                {
                    self.hand(code, u, x, e, ps[i], t.args[i]);
                    i = i + 1;
                }
            }
            e = e + 1;
        }
    }
}

/// What a body carries in registers: where each value is, whether its slot is kept in step with its
/// register, and how many integer and float registers that took.
pub fn promote(code: &Code, out: Vec<Option<Loc>>, wt: Vec<bool>) -> (r: (
    Vec<Option<Loc>>,
    Vec<bool>,
    (usize, usize),
))
    ensures
        r.0@ == carried_of(*code, out@, wt@).out,
        r.1@ == carried_of(*code, out@, wt@).wt,
        r.2.0 == carried_of(*code, out@, wt@).ints,
        r.2.1 == carried_of(*code, out@, wt@).floats,
{
    let mut c = CarriedTable { out, wt, ints: 0, floats: 0 };
    match best_loop_of(code) {
        None => {},
        Some((h, body)) => {
            let ghost tail = (best_loop(*code)->0).1;
            assert(body@ =~= body_of(*code, h, tail)) by {
                assert forall|i: int| 0 <= i < body@.len() implies body@[i] == body_of(
                    *code,
                    h,
                    tail,
                )[i] by {
                    assert(body@[(i as usize) as int] == in_loop(*code, h, tail, i as usize));
                }
            }
            let n: usize = code.types.len();
            let mut u = ReaderTable { ok: filled(n, true), uses: filled(n, 0u8) };
            let ghost first = u@;
            let mut b: usize = 0;
            while b < code.blocks.len()
                invariant
                    b <= code.blocks.len(),
                    u@.blocks(*code, h, body@, b as int) == first.blocks(*code, h, body@, 0),
                decreases code.blocks.len() - b,
            {
                u.block(code, &code.blocks[b], h, ent(&body, b, false));
                b = b + 1;
            }
            let ghost start = c@;
            let ps: Vec<usize> = code.params_of(h);
            let mut i: usize = 0;
            while i < ps.len()
                invariant
                    i <= ps.len(),
                    c@.variables(*code, u@, ps@, i as int) == start.variables(*code, u@, ps@, 0),
                decreases ps.len() - i,
            {
                c.variable(code, &u, ps[i]);
                i = i + 1;
            }
            let ghost middle = c@;
            let mut k: usize = 0;
            while k < code.blocks.len()
                invariant
                    k <= code.blocks.len(),
                    c@.blocks(*code, u@, h, body@, k as int) == middle.blocks(
                        *code,
                        u@,
                        h,
                        body@,
                        0,
                    ),
                decreases code.blocks.len() - k,
            {
                if ent(&body, k, false) {
                    c.edges(code, &u, &code.blocks[k], h);
                }
                k = k + 1;
            }
        },
    }
    (c.out, c.wt, (c.ints, c.floats))
}

/// A loop that carries values holds no barrier, and control enters it only at its header: a block
/// that leads into it elsewhere is in it.
pub proof fn a_carrying_loop_is_entered_at_its_header(code: Code, h: usize, p: usize, q: usize, x: usize)
    requires
        carries(code, h, p),
        in_loop(code, h, p, x),
        x != h,
        leads(code, q, x),
    ensures
        in_loop(code, h, p, q),
        q != 0,
        !disturbed(code.blocks[x as int]),
{
    lemma_step_back(code, h, p, q, x);
}

/// Whether the best so far carries, and no larger loop than the one of the edge from `q` back to `h`
/// stands in its place.
spec fn no_larger(code: Code, best: Option<(usize, usize)>, h: usize, q: usize) -> bool {
    let n = code.blocks.len() as int;
    best matches Some(l) && loop_size(code, l.0, l.1, n) <= loop_size(code, h, q, n)
}

proof fn lemma_best_of_edges(
    code: Code,
    p: usize,
    i: int,
    best: Option<(usize, usize)>,
    h: usize,
    q: usize,
)
    requires
        best matches Some(l) ==> carries(code, l.0, l.1),
        0 <= i,
    ensures
        best_of_edges(code, p, i, best) matches Some(l) ==> carries(code, l.0, l.1),
        no_larger(code, best, h, q) ==> no_larger(code, best_of_edges(code, p, i, best), h, q),
        q == p && carries(code, h, q) && (exists|k: int|
            i <= k < successors(code, p).len() && successors(code, p)[k] == h) ==> no_larger(
            code,
            best_of_edges(code, p, i, best),
            h,
            q,
        ),
    decreases successors(code, p).len() - i,
{
    if i < successors(code, p).len() {
        let s = successors(code, p)[i];
        lemma_best_of_edges(code, p, i + 1, better(code, best, s, p), h, q);
    }
}

proof fn lemma_best_from(code: Code, p: int, best: Option<(usize, usize)>, h: usize, q: usize)
    requires
        best matches Some(l) ==> carries(code, l.0, l.1),
        0 <= p,
        code.blocks.len() <= usize::MAX,
    ensures
        best_from(code, p, best) matches Some(l) ==> carries(code, l.0, l.1),
        no_larger(code, best, h, q) ==> no_larger(code, best_from(code, p, best), h, q),
        p <= q < code.blocks.len() && carries(code, h, q) && successors(code, q).contains(h)
            ==> no_larger(code, best_from(code, p, best), h, q),
    decreases code.blocks.len() - p,
{
    if p < code.blocks.len() {
        lemma_best_of_edges(code, p as usize, 0, best, h, q);
        lemma_best_from(code, p + 1, best_of_edges(code, p as usize, 0, best), h, q);
    }
}

/// The loop whose variables are kept in registers is one that can carry them, and none that can is
/// smaller.
pub proof fn the_smallest_loop_carries(code: Code, h: usize, q: usize)
    requires
        code.blocks.len() <= usize::MAX,
        q < code.blocks.len(),
        successors(code, q).contains(h),
        carries(code, h, q),
    ensures
        best_loop(code) is Some,
        carries(code, (best_loop(code)->0).0, (best_loop(code)->0).1),
        loop_size(
            code,
            (best_loop(code)->0).0,
            (best_loop(code)->0).1,
            code.blocks.len() as int,
        ) <= loop_size(code, h, q, code.blocks.len() as int),
{
    lemma_best_from(code, 0, None, h, q);
}

} // verus!
