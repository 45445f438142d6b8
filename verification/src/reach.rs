//! Which functions can reach a refused one.

use crate::ir::{Body, Code, Inst, Program};
use crate::jit::Jit;
use crate::types::{ent, lemma_unmarked_set, unmarked};
use vstd::prelude::*;

verus! {

/// The function that an instruction calls, makes a closure of, or releases a value with. An indirect
/// call reaches what a closure was made of.
pub open spec fn leads_to(i: Inst) -> Option<usize> {
    match i {
        Inst::Call { dests, func, args } => Some(func),
        Inst::MakeClosure { dest, func, env } => Some(func),
        Inst::DecRef { value, drop } => drop,
        _ => None,
    }
}

/// Whether an instruction of a body leads to function `c`.
pub open spec fn body_leads(code: Code, c: usize) -> bool {
    exists|b: int, k: int|
        #![trigger code.blocks[b].insts[k]]
        0 <= b < code.blocks.len() && 0 <= k < code.blocks[b].insts.len() && leads_to(
            code.blocks[b].insts[k],
        ) == Some(c)
}

/// Whether function `i` leads to function `c` directly.
pub open spec fn leads(prog: Program, i: int, c: usize) -> bool {
    0 <= i < prog.funcs.len() && match prog.funcs[i].body {
        Body::Code(code) => body_leads(code, c),
        Body::Runtime(key) => false,
    }
}

/// Whether function `i` is marked, or leads in at most `n` steps to one that is.
pub open spec fn reaches_within(prog: Program, dirty: Seq<bool>, i: int, n: nat) -> bool
    decreases n,
{
    0 <= i < dirty.len() && (dirty[i] || (n > 0 && exists|c: usize|
        #[trigger] leads(prog, i, c) && reaches_within(prog, dirty, c as int, (n - 1) as nat)))
}

/// Whether function `i` is marked, or leads to one that is.
pub open spec fn reaches(prog: Program, dirty: Seq<bool>, i: int) -> bool {
    exists|n: nat| reaches_within(prog, dirty, i, n)
}

fn target(i: &Inst) -> (r: Option<usize>)
    ensures
        r == leads_to(*i),
{
    match i {
        Inst::Call { dests, func, args } => Some(*func),
        Inst::MakeClosure { dest, func, env } => Some(*func),
        Inst::DecRef { value, drop } => *drop,
        _ => None,
    }
}

fn targets(body: &Body) -> (r: Vec<usize>)
    ensures
        forall|c: usize| #[trigger]
            r@.contains(c) <==> match *body {
                Body::Code(code) => body_leads(code, c),
                Body::Runtime(key) => false,
            },
{
    let mut out: Vec<usize> = Vec::new();
    match body {
        Body::Runtime(_) => {},
        Body::Code(code) => {
            let mut b: usize = 0;
            while b < code.blocks.len()
                invariant
                    b <= code.blocks.len(),
                    forall|j: int| 0 <= j < out.len() ==> body_leads(*code, #[trigger] out[j]),
                    forall|x: int, k: int|
                        #![trigger code.blocks[x].insts[k]]
                        0 <= x < b && 0 <= k < code.blocks[x].insts.len() ==> (leads_to(
                            code.blocks[x].insts[k],
                        ) matches Some(c) ==> out@.contains(c)),
                decreases code.blocks.len() - b,
            {
                let is: &Vec<Inst> = &code.blocks[b].insts;
                let mut k: usize = 0;
                while k < is.len()
                    invariant
                        k <= is.len(),
                        b < code.blocks.len(),
                        is == code.blocks[b as int].insts,
                        forall|j: int| 0 <= j < out.len() ==> body_leads(*code, #[trigger] out[j]),
                        forall|x: int, y: int|
                            #![trigger code.blocks[x].insts[y]]
                            (0 <= x < b && 0 <= y < code.blocks[x].insts.len()) || (x == b && 0 <= y
                                < k) ==> (leads_to(code.blocks[x].insts[y]) matches Some(c)
                                ==> out@.contains(c)),
                    decreases is.len() - k,
                {
                    assert(code.blocks[b as int].insts[k as int] == is[k as int]);
                    match target(&is[k]) {
                        None => {},
                        Some(c) => {
                            let ghost before = out@;
                            out.push(c);
                            proof {
                                assert(out@[before.len() as int] == c);
                                assert forall|d: usize| before.contains(d) implies #[trigger]
                                    out@.contains(d) by {
                                    let j = choose|j: int| 0 <= j < before.len() && before[j] == d;
                                    assert(out@[j] == d);
                                }
                                assert(body_leads(*code, c));
                                assert forall|j: int| 0 <= j < out.len() implies body_leads(
                                    *code,
                                    #[trigger] out[j],
                                ) by {
                                    if j < before.len() {
                                        assert(out[j] == before[j]);
                                    }
                                }
                            }
                        },
                    }
                    k = k + 1;
                }
                b = b + 1;
            }
            assert forall|c: usize| #[trigger] out@.contains(c) implies body_leads(*code, c) by {
                let j = choose|j: int| 0 <= j < out@.len() && out@[j] == c;
                assert(out[j] == c);
            }
        },
    }
    out
}

proof fn lemma_closed(prog: Program, dirty: Seq<bool>, bad: Seq<bool>, i: int, n: nat)
    requires
        bad.len() == dirty.len(),
        forall|j: int| 0 <= j < dirty.len() && #[trigger] dirty[j] ==> bad[j],
        forall|j: int, c: usize|
            #[trigger] leads(prog, j, c) && j < bad.len() && c < bad.len() && bad[c as int]
                ==> bad[j],
        reaches_within(prog, dirty, i, n),
    ensures
        bad[i],
    decreases n,
{
    if !dirty[i] {
        let c = choose|c: usize|
            #[trigger] leads(prog, i, c) && reaches_within(prog, dirty, c as int, (n - 1) as nat);
        lemma_closed(prog, dirty, bad, c as int, (n - 1) as nat);
    }
}

proof fn lemma_step(prog: Program, dirty: Seq<bool>, i: int, c: usize)
    requires
        0 <= i < dirty.len(),
        leads(prog, i, c),
        reaches(prog, dirty, c as int),
    ensures
        reaches(prog, dirty, i),
{
    let n = choose|n: nat| reaches_within(prog, dirty, c as int, n);
    assert(reaches_within(prog, dirty, i, n + 1));
}

impl<'a> Jit<'a> {
    /// For each function, whether something was refused in it or in anything it leads to.
    pub fn reachable_dirty(&self, prog: &Program) -> (r: Vec<bool>)
        ensures
            r.len() == self.dirty.len(),
            forall|i: int|
                0 <= i < r.len() ==> (#[trigger] r[i] <==> reaches(*prog, self.dirty@, i)),
    {
        let n: usize = prog.funcs.len();
        let mut edges: Vec<Vec<usize>> = Vec::new();
        let mut i: usize = 0;
        while i < n
            invariant
                n == prog.funcs.len(),
                i <= n,
                edges.len() == i,
                forall|j: int, c: usize|
                    0 <= j < i ==> (#[trigger] edges[j]@.contains(c) <==> leads(*prog, j, c)),
            decreases n - i,
        {
            edges.push(targets(&prog.funcs[i].body));
            i = i + 1;
        }
        let ghost dirty = self.dirty@;
        let mut bad: Vec<bool> = Vec::new();
        let mut d: usize = 0;
        while d < self.dirty.len()
            invariant
                d <= self.dirty.len(),
                bad@ == self.dirty@.subrange(0, d as int),
            decreases self.dirty.len() - d,
        {
            bad.push(self.dirty[d]);
            d = d + 1;
            assert(bad@ =~= self.dirty@.subrange(0, d as int));
        }
        assert(bad@ =~= dirty);
        assert forall|j: int| 0 <= j < bad.len() && #[trigger] bad[j] implies reaches(
            *prog,
            dirty,
            j,
        ) by {
            assert(reaches_within(*prog, dirty, j, 0));
        }
        let mut changed: bool = true;
        while changed
            invariant
                n == prog.funcs.len(),
                edges.len() == n,
                dirty == self.dirty@,
                bad.len() == dirty.len(),
                forall|j: int, c: usize|
                    0 <= j < n ==> (#[trigger] edges[j]@.contains(c) <==> leads(*prog, j, c)),
                forall|j: int| 0 <= j < bad.len() && #[trigger] bad[j] ==> reaches(*prog, dirty, j),
                forall|j: int| 0 <= j < dirty.len() && #[trigger] dirty[j] ==> bad[j],
                !changed ==> forall|j: int, c: usize|
                    #[trigger] leads(*prog, j, c) && j < bad.len() && c < bad.len()
                        && bad[c as int] ==> bad[j],
            decreases unmarked(bad@) + if changed {
                1int
            } else {
                0
            },
        {
            let ghost before = unmarked(bad@);
            changed = false;
            let mut k: usize = 0;
            while k < n
                invariant
                    n == prog.funcs.len(),
                    k <= n,
                    edges.len() == n,
                    dirty == self.dirty@,
                    bad.len() == dirty.len(),
                    forall|j: int, c: usize|
                        0 <= j < n ==> (#[trigger] edges[j]@.contains(c) <==> leads(*prog, j, c)),
                    forall|j: int|
                        0 <= j < bad.len() && #[trigger] bad[j] ==> reaches(*prog, dirty, j),
                    forall|j: int| 0 <= j < dirty.len() && #[trigger] dirty[j] ==> bad[j],
                    !changed ==> forall|j: int, c: usize|
                        #[trigger] leads(*prog, j, c) && j < k && j < bad.len() && c < bad.len()
                            && bad[c as int] ==> bad[j],
                    changed ==> unmarked(bad@) < before,
                    !changed ==> unmarked(bad@) == before,
                decreases n - k,
            {
                if k < bad.len() && !bad[k] {
                    let es: &Vec<usize> = &edges[k];
                    let mut hit: bool = false;
                    let mut x: usize = 0;
                    while x < es.len()
                        invariant
                            x <= es.len(),
                            k < n,
                            k < bad.len(),
                            n == prog.funcs.len(),
                            bad.len() == dirty.len(),
                            es@ == edges[k as int]@,
                            edges.len() == n,
                            forall|j: int, c: usize|
                                0 <= j < n ==> (#[trigger] edges[j]@.contains(c) <==> leads(
                                    *prog,
                                    j,
                                    c,
                                )),
                            forall|j: int|
                                0 <= j < bad.len() && #[trigger] bad[j] ==> reaches(*prog, dirty, j),
                            hit ==> reaches(*prog, dirty, k as int),
                            !hit ==> forall|y: int|
                                0 <= y < x ==> !((#[trigger] es[y]) < bad.len() && bad[es[y] as int]),
                        decreases es.len() - x,
                    {
                        let c: usize = es[x];
                        if ent(&bad, c, false) {
                            assert(edges[k as int]@.contains(c)) by {
                                assert(es@[x as int] == c);
                            }
                            proof {
                                lemma_step(*prog, dirty, k as int, c);
                            }
                            hit = true;
                        }
                        x = x + 1;
                    }
                    if hit {
                        proof {
                            lemma_unmarked_set(bad@, k as int);
                        }
                        bad.set(k, true);
                        changed = true;
                    } else {
                        assert forall|c: usize| #[trigger]
                            leads(*prog, k as int, c) && c < bad.len() implies !bad[c as int] by {
                            assert(edges[k as int]@.contains(c));
                            let y = choose|y: int|
                                0 <= y < edges[k as int]@.len() && edges[k as int]@[y] == c;
                            assert(es[y] == c);
                        }
                    }
                }
                k = k + 1;
            }
        }
        assert forall|j: int| 0 <= j < bad.len() && reaches(*prog, dirty, j) implies #[trigger]
            bad[j] by {
            let m = choose|m: nat| reaches_within(*prog, dirty, j, m);
            lemma_closed(*prog, dirty, bad@, j, m);
        }
        bad
    }
}

} // verus!
