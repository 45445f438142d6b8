//! The order in which a body's blocks are laid out.
//!
//! A branch to the block that comes next costs nothing, so the blocks are laid out in reverse
//! postorder: depth first, in the order of the edges, and reversed. The blocks that the walk never
//! reaches keep their own order at the end.

use crate::ir::{Code, Target};
use crate::types::{ent, put};
use vstd::prelude::*;

verus! {

/// The blocks that a block leads to, in the order of its edges.
pub open spec fn successors(code: Code, b: usize) -> Seq<usize> {
    if b < code.blocks.len() {
        let edges = code.blocks[b as int].term.edges();
        Seq::new(edges.len(), |i: int| edges[i].block)
    } else {
        Seq::empty()
    }
}

/// How many of the first `n` blocks have not been seen.
pub open spec fn unseen(seen: Seq<bool>, n: int) -> nat
    decreases n,
{
    if n <= 0 {
        0
    } else {
        unseen(seen, n - 1) + (if seen[n - 1] {
            0nat
        } else {
            1
        })
    }
}

/// What a walk has seen, and the blocks it has finished.
pub struct Walk {
    pub seen: Seq<bool>,
    pub post: Seq<usize>,
}

impl Walk {
    /// How many blocks are left.
    pub open spec fn left(self) -> nat {
        unseen(self.seen, self.seen.len() as int)
    }

    /// One block more seen.
    pub open spec fn see(self, b: usize) -> Walk {
        Walk { seen: self.seen.update(b as int, true), ..self }
    }

    /// Whether a block is one that has not been seen.
    pub open spec fn is_new(self, b: usize) -> bool {
        b < self.seen.len() && !self.seen[b as int]
    }
}

/// The walk from block `b` on, whose first `k` edges have been followed: depth first, and the block
/// is finished once all of them have.
pub open spec fn visit(code: Code, b: usize, k: int, w: Walk) -> Walk
    decreases w.left(), successors(code, b).len() - k,
    when 0 <= k
    via visit_ends
{
    if k >= successors(code, b).len() {
        Walk { post: w.post.push(b), ..w }
    } else {
        let s = successors(code, b)[k];
        if w.is_new(s) {
            let inner = visit(code, s, 0, w.see(s));
            if inner.left() < w.left() {
                visit(code, b, k + 1, inner)
            } else {
                inner
            }
        } else {
            visit(code, b, k + 1, w)
        }
    }
}

#[via_fn]
proof fn visit_ends(code: Code, b: usize, k: int, w: Walk) {
    if k < successors(code, b).len() {
        let s = successors(code, b)[k];
        if w.is_new(s) {
            lemma_see(w.seen, s as int, w.seen.len() as int);
        }
    }
}

/// Seeing a new block leaves one block less.
proof fn lemma_see(seen: Seq<bool>, b: int, n: int)
    requires
        0 <= b < n <= seen.len(),
        !seen[b],
    ensures
        unseen(seen.update(b, true), n) + 1 == unseen(seen, n),
    decreases n,
{
    if n - 1 == b {
        lemma_unseen_same(seen, seen.update(b, true), b);
    } else {
        lemma_see(seen, b, n - 1);
    }
}

proof fn lemma_unseen_same(a: Seq<bool>, b: Seq<bool>, n: int)
    requires
        n <= a.len(),
        n <= b.len(),
        forall|i: int| 0 <= i < n ==> a[i] == b[i],
    ensures
        unseen(a, n) == unseen(b, n),
    decreases n,
{
    if n > 0 {
        lemma_unseen_same(a, b, n - 1);
    }
}

/// What is seen stays seen.
pub open spec fn keeps(a: Seq<bool>, b: Seq<bool>) -> bool {
    a.len() == b.len() && forall|i: int| 0 <= i < a.len() && a[i] ==> #[trigger] b[i]
}

proof fn lemma_keeps_left(a: Seq<bool>, b: Seq<bool>, n: int)
    requires
        keeps(a, b),
        n <= a.len(),
    ensures
        unseen(b, n) <= unseen(a, n),
    decreases n,
{
    if n > 0 {
        lemma_keeps_left(a, b, n - 1);
    }
}

/// Whether the finished blocks of `v` are those of `w`, block `b`, and what was seen in between, each
/// of them once.
pub open spec fn finishes(w: Walk, v: Walk, b: usize) -> bool {
    &&& keeps(w.seen, v.seen)
    &&& v.post.no_duplicates()
    &&& forall|x: usize|
        #[trigger] v.post.contains(x) <==> {
            ||| w.post.contains(x)
            ||| x == b
            ||| x < v.seen.len() && v.seen[x as int] && !w.seen[x as int]
        }
}

/// What a walk needs: every finished block has been seen, and none is finished twice.
pub open spec fn sound(w: Walk) -> bool {
    &&& w.post.no_duplicates()
    &&& forall|x: usize| #[trigger] w.post.contains(x) ==> x < w.seen.len() && w.seen[x as int]
}

proof fn lemma_visit(code: Code, b: usize, k: int, w: Walk)
    requires
        0 <= k,
        sound(w),
        b < w.seen.len(),
        w.seen[b as int],
        !w.post.contains(b),
    ensures
        finishes(w, visit(code, b, k, w), b),
        sound(visit(code, b, k, w)),
        visit(code, b, k, w).left() <= w.left(),
    decreases w.left(), successors(code, b).len() - k,
{
    let v = visit(code, b, k, w);
    if k >= successors(code, b).len() {
        assert(v.post == w.post.push(b));
        assert forall|x: usize| #[trigger] v.post.contains(x) <==> w.post.contains(x) || x == b by {
            if w.post.contains(x) {
                let i = choose|i: int| 0 <= i < w.post.len() && w.post[i] == x;
                assert(v.post[i] == x);
            }
            if x == b {
                assert(v.post[w.post.len() as int] == x);
            }
            if v.post.contains(x) && x != b {
                let i = choose|i: int| 0 <= i < v.post.len() && v.post[i] == x;
                assert(w.post[i] == x);
            }
        }
        assert(v.post.no_duplicates()) by {
            assert forall|i: int, j: int| 0 <= i < v.post.len() && 0 <= j < v.post.len() && i
                != j implies v.post[i] != v.post[j] by {
                if i == w.post.len() {
                    assert(w.post.contains(w.post[j]));
                } else if j == w.post.len() {
                    assert(w.post.contains(w.post[i]));
                } else {
                    assert(w.post[i] != w.post[j]);
                }
            }
        }
    } else {
        let s = successors(code, b)[k];
        if w.is_new(s) {
            lemma_see(w.seen, s as int, w.seen.len() as int);
            let t = w.see(s);
            assert(sound(t)) by {
                assert forall|x: usize| #[trigger] t.post.contains(x) implies x < t.seen.len()
                    && t.seen[x as int] by {
                    assert(w.post.contains(x));
                }
            }
            assert(!t.post.contains(s)) by {
                if t.post.contains(s) {
                    assert(w.post.contains(s));
                }
            }
            lemma_visit(code, s, 0, t);
            let inner = visit(code, s, 0, t);
            assert(!inner.post.contains(b)) by {
                if inner.post.contains(b) {
                    assert(!t.post.contains(b));
                    assert(b != s);
                    assert(t.seen[b as int]);
                }
            }
            assert(inner.seen[b as int]) by {
                assert(t.seen[b as int]);
            }
            lemma_visit(code, b, k + 1, inner);
            assert(v == visit(code, b, k + 1, inner));
            assert(keeps(w.seen, v.seen)) by {
                assert forall|i: int| 0 <= i < w.seen.len() && w.seen[i] implies #[trigger] v.seen[i] by {
                    assert(t.seen[i]);
                    assert(inner.seen[i]);
                }
            }
            assert forall|x: usize| #[trigger] v.post.contains(x) <==> {
                ||| w.post.contains(x)
                ||| x == b
                ||| x < v.seen.len() && v.seen[x as int] && !w.seen[x as int]
            } by {
                assert(inner.post.contains(x) <==> {
                    ||| t.post.contains(x)
                    ||| x == s
                    ||| x < inner.seen.len() && inner.seen[x as int] && !t.seen[x as int]
                });
                if x < v.seen.len() && v.seen[x as int] && !w.seen[x as int] {
                    if x != s {
                        assert(!t.seen[x as int]);
                    }
                }
                if x == s {
                    assert(t.seen[s as int]);
                    assert(inner.seen[s as int]);
                    assert(v.seen[s as int]);
                }
                if x < inner.seen.len() && inner.seen[x as int] {
                    assert(v.seen[x as int]);
                }
            }
        } else {
            lemma_visit(code, b, k + 1, w);
        }
    }
}

/// The walk from the entry.
pub open spec fn reached(code: Code) -> Walk {
    let nothing = Walk {
        seen: Seq::new(code.blocks@.len(), |i: int| false),
        post: Seq::empty(),
    };
    if code.blocks.len() == 0 {
        nothing
    } else {
        visit(code, 0, 0, nothing.see(0))
    }
}

/// The blocks below `n` that were not seen, in their own order.
pub open spec fn left_over(seen: Seq<bool>, n: int) -> Seq<usize>
    decreases n,
{
    if n <= 0 {
        Seq::empty()
    } else if seen[n - 1] {
        left_over(seen, n - 1)
    } else {
        left_over(seen, n - 1).push((n - 1) as usize)
    }
}

/// The order of the blocks.
pub open spec fn block_order(code: Code) -> Seq<usize> {
    let w = reached(code);
    w.post.reverse() + left_over(w.seen, w.seen.len() as int)
}

proof fn lemma_left_over(seen: Seq<bool>, n: int)
    requires
        0 <= n <= seen.len(),
        seen.len() <= usize::MAX,
    ensures
        left_over(seen, n).no_duplicates(),
        forall|x: usize| #[trigger] left_over(seen, n).contains(x) <==> x < n && !seen[x as int],
    decreases n,
{
    if n > 0 {
        lemma_left_over(seen, n - 1);
        let u = left_over(seen, n - 1);
        let v = left_over(seen, n);
        if !seen[n - 1] {
            assert forall|x: usize| #[trigger] v.contains(x) <==> x < n && !seen[x as int] by {
                if u.contains(x) {
                    let i = choose|i: int| 0 <= i < u.len() && u[i] == x;
                    assert(v[i] == x);
                }
                if x == n - 1 {
                    assert(v[u.len() as int] == x);
                }
                if v.contains(x) && x != n - 1 {
                    let i = choose|i: int| 0 <= i < v.len() && v[i] == x;
                    assert(u[i] == x);
                    assert(u.contains(x));
                }
            }
            assert forall|i: int, j: int| 0 <= i < v.len() && 0 <= j < v.len() && i
                != j implies v[i] != v[j] by {
                if i < u.len() {
                    assert(u.contains(u[i]));
                }
                if j < u.len() {
                    assert(u.contains(u[j]));
                }
            }
        }
    }
}

/// Every block stands in the order exactly once.
pub proof fn every_block_is_laid_out_once(code: Code)
    requires
        code.blocks.len() <= usize::MAX,
    ensures
        block_order(code).no_duplicates(),
        forall|b: usize| #[trigger] block_order(code).contains(b) <==> b < code.blocks.len(),
{
    let nothing = Walk {
        seen: Seq::new(code.blocks@.len(), |i: int| false),
        post: Seq::empty(),
    };
    let w = reached(code);
    let n = code.blocks@.len() as int;
    if n > 0 {
        let start = nothing.see(0);
        assert(sound(start));
        lemma_visit(code, 0, 0, start);
        assert(w.seen.len() == n);
        assert forall|x: usize| #[trigger] w.post.contains(x) <==> x < n && w.seen[x as int] by {
            if x == 0 {
                assert(start.seen[0]);
                assert(w.seen[0]);
            }
        }
    } else {
        assert(w.post =~= Seq::empty());
    }
    lemma_left_over(w.seen, n);
    let rest = left_over(w.seen, n);
    let back = w.post.reverse();
    let all = block_order(code);
    assert(all == back + rest);
    assert forall|x: usize| back.contains(x) <==> #[trigger] w.post.contains(x) by {
        if w.post.contains(x) {
            let i = choose|i: int| 0 <= i < w.post.len() && w.post[i] == x;
            assert(back[w.post.len() - 1 - i] == x);
        }
        if back.contains(x) {
            let i = choose|i: int| 0 <= i < back.len() && back[i] == x;
            assert(w.post[w.post.len() - 1 - i] == x);
        }
    }
    assert forall|b: usize| #[trigger] all.contains(b) <==> b < n by {
        assert(w.post.contains(b) == (b < n && w.seen[b as int]));
        assert(back.contains(b) == w.post.contains(b));
        if back.contains(b) {
            let i = choose|i: int| 0 <= i < back.len() && back[i] == b;
            assert(all[i] == b);
        }
        if rest.contains(b) {
            let i = choose|i: int| 0 <= i < rest.len() && rest[i] == b;
            assert(all[back.len() + i] == b);
        }
        if all.contains(b) {
            let i = choose|i: int| 0 <= i < all.len() && all[i] == b;
            if i < back.len() {
                assert(back[i] == b);
                assert(back.contains(b));
            } else {
                assert(rest[i - back.len()] == b);
                assert(rest.contains(b));
            }
        }
    }
    assert forall|i: int, j: int| 0 <= i < all.len() && 0 <= j < all.len() && i != j implies all[i]
        != all[j] by {
        if i < back.len() && j < back.len() {
            assert(w.post[w.post.len() - 1 - i] != w.post[w.post.len() - 1 - j]);
        } else if i >= back.len() && j >= back.len() {
            assert(rest[i - back.len()] != rest[j - back.len()]);
        } else {
            let (x, y) = if i < back.len() {
                (i, j)
            } else {
                (j, i)
            };
            assert(back.contains(back[x]));
            assert(w.post.contains(back[x]));
            assert(rest.contains(rest[y - back.len()]));
        }
    }
}

/// What is left of a walk whose open blocks are on a stack.
pub open spec fn unwind(code: Code, stack: Seq<(usize, usize)>, w: Walk) -> Walk
    decreases stack.len(),
{
    if stack.len() == 0 {
        w
    } else {
        let top = stack.last();
        unwind(code, stack.drop_last(), visit(code, top.0, top.1 as int, w))
    }
}

/// How many edges the open blocks of a stack still have, and one for each.
pub open spec fn weight(code: Code, stack: Seq<(usize, usize)>) -> int
    decreases stack.len(),
{
    if stack.len() == 0 {
        0
    } else {
        let top = stack.last();
        let n = successors(code, top.0).len();
        weight(code, stack.drop_last()) + (if top.1 <= n {
            n - top.1 + 1
        } else {
            1
        })
    }
}

proof fn lemma_weight(code: Code, stack: Seq<(usize, usize)>)
    ensures
        weight(code, stack) >= 0,
    decreases stack.len(),
{
    if stack.len() > 0 {
        lemma_weight(code, stack.drop_last());
    }
}

fn successor_of(code: &Code, b: usize, k: usize) -> (r: Option<usize>)
    ensures
        match r {
            Some(s) => k < successors(*code, b).len() && s == successors(*code, b)[k as int] && k
                < usize::MAX,
            None => k >= successors(*code, b).len(),
        },
{
    if b < code.blocks.len() {
        let ts: Vec<&Target> = code.blocks[b].term.targets();
        if k < ts.len() {
            return Some(ts[k].block);
        }
    }
    None
}

/// The order of the blocks.
pub fn layout(code: &Code) -> (r: Vec<usize>)
    ensures
        r@ == block_order(*code),
{
    let nb: usize = code.blocks.len();
    let mut seen: Vec<bool> = Vec::new();
    let mut i: usize = 0;
    while i < nb
        invariant
            i <= nb,
            seen@ == Seq::new(i as nat, |k: int| false),
        decreases nb - i,
    {
        seen.push(false);
        i = i + 1;
        assert(seen@ =~= Seq::new(i as nat, |k: int| false));
    }
    let mut post: Vec<usize> = Vec::new();
    let mut stack: Vec<(usize, usize)> = Vec::new();
    let ghost nothing = Walk {
        seen: Seq::new(code.blocks@.len(), |i: int| false),
        post: Seq::empty(),
    };
    assert(post@ =~= Seq::empty());
    if nb > 0 {
        seen.set(0, true);
        stack.push((0, 0));
        assert(stack@.drop_last() =~= Seq::empty());
        reveal_with_fuel(unwind, 2);
    }
    assert(unwind(*code, stack@, Walk { seen: seen@, post: post@ }) == reached(*code));
    while stack.len() > 0
        invariant
            seen.len() == nb,
            unwind(*code, stack@, Walk { seen: seen@, post: post@ }) == reached(*code),
            forall|k: int| 0 <= k < stack.len() ==> (#[trigger] stack[k]).0 < nb && seen[stack[k].0
                as int],
            sound(Walk { seen: seen@, post: post@ }),
            forall|k: int|
                0 <= k < stack.len() ==> !post@.contains((#[trigger] stack[k]).0),
            forall|k: int, j: int|
                0 <= k < j < stack.len() ==> (#[trigger] stack[k]).0 != (#[trigger] stack[j]).0,
            forall|k: int|
                0 <= k < stack.len() ==> (#[trigger] stack[k]).1 <= successors(
                    *code,
                    stack[k].0,
                ).len(),
        decreases unseen(seen@, seen@.len() as int), weight(*code, stack@),
    {
        let ghost w = Walk { seen: seen@, post: post@ };
        let ghost before = stack@;
        let ghost under = stack@.drop_last();
        let (b, k): (usize, usize) = match stack.pop() {
            Some(p) => p,
            None => (0, 0),
        };
        assert(before.last() == (b, k));
        assert(stack@ == under);
        proof {
            lemma_weight(*code, under);
        }
        match successor_of(code, b, k) {
            Some(s) => {
                stack.push((b, k + 1));
                assert(stack@.drop_last() =~= under);
                if !ent(&seen, s, true) {
                    proof {
                        lemma_see(seen@, s as int, seen@.len() as int);
                        let t = w.see(s);
                        assert(sound(t)) by {
                            assert forall|x: usize| #[trigger] t.post.contains(x) implies x
                                < t.seen.len() && t.seen[x as int] by {
                                assert(w.post.contains(x));
                            }
                        }
                        assert(!w.post.contains(s)) by {
                            if w.post.contains(s) {
                                assert(w.seen[s as int]);
                            }
                        }
                        lemma_visit(*code, s, 0, t);
                        assert(before[before.len() - 1] == (b, k));
                    }
                    put(&mut seen, s, true);
                    let ghost middle = stack@;
                    stack.push((s, 0));
                    assert(stack@.drop_last() =~= middle);
                    assert(seen@ == w.see(s).seen);
                    reveal_with_fuel(unwind, 3);
                } else {
                    reveal_with_fuel(unwind, 2);
                }
            },
            None => {
                post.push(b);
                proof {
                    assert(visit(*code, b, k as int, w) == (Walk { seen: seen@, post: post@ }));
                    lemma_visit(*code, b, k as int, w);
                    assert(before[before.len() - 1] == (b, k));
                    assert forall|j: int| 0 <= j < stack.len() implies !post@.contains(
                        (#[trigger] stack[j]).0,
                    ) by {
                        assert(before[j] == stack[j]);
                        assert(before[j].0 != before[before.len() - 1].0);
                        if post@.contains(stack[j].0) {
                            assert(w.post.contains(stack[j].0) || stack[j].0 == b);
                        }
                    }
                }
            },
        }
    }
    let ghost w = reached(*code);
    let mut out: Vec<usize> = Vec::new();
    let mut j: usize = post.len();
    assert(out@ =~= Seq::empty());
    while j > 0
        invariant
            j <= post.len(),
            post@ == w.post,
            out@ == w.post.reverse().subrange(0, w.post.len() - j),
        decreases j,
    {
        j = j - 1;
        out.push(post[j]);
        assert(out@ =~= w.post.reverse().subrange(0, w.post.len() - j));
    }
    let ghost back = w.post.reverse();
    assert(out@ =~= back + left_over(w.seen, 0));
    let mut m: usize = 0;
    while m < seen.len()
        invariant
            m <= seen.len(),
            seen@ == w.seen,
            out@ == back + left_over(w.seen, m as int),
        decreases seen.len() - m,
    {
        let ghost done = out@;
        if !seen[m] {
            out.push(m);
            assert(out@ =~= back + left_over(w.seen, m + 1));
        }
        m = m + 1;
    }
    out
}

} // verus!
