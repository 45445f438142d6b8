//! Which values live in registers, and for how long.
//!
//! A loop's state is the parameters of its header block, so the innermost loop that nothing in it
//! disturbs keeps those in registers across its blocks. What registers that leaves go to the
//! temporaries of expressions: a value that is used once, in the block that defines it, with no
//! call in between.

use crate::abi::{Loc, CPS_REGISTER_COUNT};
use crate::fuse::{barrier, is_barrier};
use crate::ir::{Block, Code, Inst, Term};
use crate::prim::Prim;
use crate::slots::set_at;
use crate::types::{at_or, ent, put};
use vstd::prelude::*;

verus! {

// ---------------------------------------------------------------------------
// Temporaries
// ---------------------------------------------------------------------------

/// What a register holds.
#[derive(Clone, Copy, PartialEq, Eq, Debug, Structural)]
pub enum Hold {
    Free,
    /// A value that lives across blocks.
    Kept,
    /// A temporary, up to the instruction that reads it.
    Until(usize),
}

/// The registers of both files, and where the values are.
pub struct Files {
    pub ints: Seq<Hold>,
    pub floats: Seq<Hold>,
    pub out: Seq<Option<Loc>>,
}

/// A register file of which the first `n` are kept.
pub open spec fn fresh_file(n: nat) -> Seq<Hold> {
    Seq::new(
        CPS_REGISTER_COUNT as nat,
        |k: int|
            if k < n {
                Hold::Kept
            } else {
                Hold::Free
            },
    )
}

/// A register file without the temporaries that instruction `k` or one before it was the last to
/// read.
pub open spec fn expired(f: Seq<Hold>, k: int) -> Seq<Hold> {
    Seq::new(
        f.len(),
        |r: int|
            match f[r] {
                Hold::Until(u) => if u > k {
                    f[r]
                } else {
                    Hold::Free
                },
                _ => f[r],
            },
    )
}

/// Whether a primitive is wider than a register.
pub open spec fn too_wide(p: Prim) -> bool {
    p == Prim::I128 || p == Prim::U128
}

/// The result of an instruction that leaves it in a register, and whether the register is a float's.
pub open spec fn leaves(i: Inst) -> Option<(bool, usize)> {
    match i {
        Inst::Binary { dest, op, prim, lhs, rhs } => if too_wide(prim) {
            None
        } else {
            Some((prim.float() && !op.compares(), dest))
        },
        Inst::Unary { dest, op, prim, arg } => if too_wide(prim) {
            None
        } else {
            Some((prim.float(), dest))
        },
        _ => None,
    }
}

/// Whether an instruction reads its operands from registers.
pub open spec fn reads_registers(i: Inst) -> bool {
    i is Binary || i is Unary
}

/// The first place from instruction `j` on that reads `v`, where no barrier comes first: an
/// instruction, or the terminator, whose place is behind them all.
pub open spec fn next_use(x: Block, v: usize, j: int) -> Option<int>
    decreases x.insts.len() - j,
{
    if j >= x.insts.len() {
        if x.term.all_reads().contains(v) {
            Some(x.insts.len() as int)
        } else {
            None
        }
    } else if barrier(x.insts[j]) {
        None
    } else if x.insts[j].reads().contains(v) {
        Some(j)
    } else {
        next_use(x, v, j + 1)
    }
}

/// Whether place `at` can read `v` from a register: an operation can, and so can a branch that `v`
/// is the condition of.
pub open spec fn consumes(x: Block, v: usize, at: int) -> bool {
    if at >= x.insts.len() {
        x.term matches Term::Branch { cond, then, else_ } && cond == v
    } else {
        reads_registers(x.insts[at])
    }
}

/// The place that a temporary defined by instruction `k` lives up to.
pub open spec fn life(uses: Seq<u8>, x: Block, v: usize, k: int) -> Option<int> {
    if at_or(uses, v as int, 0u8) != 1 {
        None
    } else {
        match next_use(x, v, k + 1) {
            Some(at) => if consumes(x, v, at) {
                Some(at)
            } else {
                None
            },
            None => None,
        }
    }
}

/// The first free register from register `r` on.
pub open spec fn free_from(f: Seq<Hold>, r: int) -> Option<int>
    decreases f.len() - r,
{
    if r >= f.len() {
        None
    } else if f[r] == Hold::Free {
        Some(r)
    } else {
        free_from(f, r + 1)
    }
}

impl Files {
    /// Gives `v` a register up to place `at`, where one is free.
    pub open spec fn assign(self, float: bool, v: usize, at: int) -> Files {
        let file = if float {
            self.floats
        } else {
            self.ints
        };
        match free_from(file, 0) {
            None => self,
            Some(r) => {
                let next = file.update(r, Hold::Until(at as usize));
                let out = set_at(self.out, v as int, Some(Loc::Reg(r as u8)));
                if float {
                    Files { floats: next, out, ..self }
                } else {
                    Files { ints: next, out, ..self }
                }
            },
        }
    }

    /// Instruction `k` of a block.
    pub open spec fn inst(self, uses: Seq<u8>, x: Block, k: int, taken: (nat, nat)) -> Files {
        let i = x.insts[k];
        if barrier(i) {
            Files { ints: fresh_file(taken.0), floats: fresh_file(taken.1), ..self }
        } else {
            let f = Files { ints: expired(self.ints, k), floats: expired(self.floats, k), ..self };
            match leaves(i) {
                None => f,
                Some(d) => if at_or(self.out, d.1 as int, None) is Some {
                    f
                } else {
                    match life(uses, x, d.1, k) {
                        None => f,
                        Some(at) => f.assign(d.0, d.1, at),
                    }
                },
            }
        }
    }

    /// The instructions of a block, from instruction `k` on.
    pub open spec fn insts(self, uses: Seq<u8>, x: Block, taken: (nat, nat), k: int) -> Files
        decreases x.insts.len() - k,
    {
        if k >= x.insts.len() {
            self
        } else {
            self.inst(uses, x, k, taken).insts(uses, x, taken, k + 1)
        }
    }
}

/// The places of a block's temporaries.
pub open spec fn block_temporaries(
    uses: Seq<u8>,
    x: Block,
    taken: (nat, nat),
    out: Seq<Option<Loc>>,
) -> Seq<Option<Loc>> {
    Files { ints: fresh_file(taken.0), floats: fresh_file(taken.1), out }.insts(
        uses,
        x,
        taken,
        0,
    ).out
}

/// The places of a body's temporaries, from block `b` on.
pub open spec fn temporaries(
    uses: Seq<u8>,
    code: Code,
    taken: (nat, nat),
    out: Seq<Option<Loc>>,
    b: int,
) -> Seq<Option<Loc>>
    decreases code.blocks.len() - b,
{
    if b >= code.blocks.len() {
        out
    } else {
        temporaries(
            uses,
            code,
            taken,
            block_temporaries(uses, code.blocks[b], taken, out),
            b + 1,
        )
    }
}

fn contains(vs: &Vec<usize>, v: usize) -> (r: bool)
    ensures
        r == vs@.contains(v),
{
    let mut i: usize = 0;
    while i < vs.len()
        invariant
            i <= vs.len(),
            forall|k: int| 0 <= k < i ==> vs[k] != v,
        decreases vs.len() - i,
    {
        if vs[i] == v {
            return true;
        }
        i = i + 1;
    }
    false
}

fn next_use_of(x: &Block, v: usize, from: usize) -> (r: Option<usize>)
    requires
        from <= x.insts.len(),
    ensures
        match r {
            Some(at) => next_use(*x, v, from as int) == Some(at as int) && at <= x.insts.len(),
            None => next_use(*x, v, from as int) is None,
        },
{
    let mut j: usize = from;
    while j < x.insts.len()
        invariant
            from <= j <= x.insts.len(),
            next_use(*x, v, j as int) == next_use(*x, v, from as int),
        decreases x.insts.len() - j,
    {
        if is_barrier(&x.insts[j]) {
            return None;
        }
        let ops: Vec<usize> = x.insts[j].operands();
        if contains(&ops, v) {
            return Some(j);
        }
        j = j + 1;
    }
    let ops: Vec<usize> = x.term.all_operands();
    if contains(&ops, v) {
        Some(j)
    } else {
        None
    }
}

fn life_of(uses: &Vec<u8>, x: &Block, v: usize, k: usize) -> (r: Option<usize>)
    requires
        k < x.insts.len(),
    ensures
        match r {
            Some(at) => life(uses@, *x, v, k as int) == Some(at as int),
            None => life(uses@, *x, v, k as int) is None,
        },
{
    if ent(uses, v, 0) != 1 {
        return None;
    }
    match next_use_of(x, v, k + 1) {
        None => None,
        Some(at) => {
            let ok: bool = if at >= x.insts.len() {
                match &x.term {
                    Term::Branch { cond, then, else_ } => *cond == v,
                    _ => false,
                }
            } else {
                match &x.insts[at] {
                    Inst::Binary { .. } => true,
                    Inst::Unary { .. } => true,
                    _ => false,
                }
            };
            if ok {
                Some(at)
            } else {
                None
            }
        },
    }
}

fn new_file(n: usize) -> (r: Vec<Hold>)
    ensures
        r@ == fresh_file(n as nat),
{
    let mut out: Vec<Hold> = Vec::new();
    let mut k: usize = 0;
    while k < CPS_REGISTER_COUNT
        invariant
            k <= CPS_REGISTER_COUNT,
            out.len() == k,
            forall|i: int| 0 <= i < k ==> #[trigger] out[i] == fresh_file(n as nat)[i],
        decreases CPS_REGISTER_COUNT - k,
    {
        out.push(
            if k < n {
                Hold::Kept
            } else {
                Hold::Free
            },
        );
        k = k + 1;
    }
    assert(out@ =~= fresh_file(n as nat));
    out
}

fn expire(f: &mut Vec<Hold>, k: usize)
    ensures
        final(f)@ == expired(old(f)@, k as int),
{
    let mut r: usize = 0;
    while r < f.len()
        invariant
            r <= f.len(),
            f.len() == old(f).len(),
            forall|i: int| 0 <= i < r ==> #[trigger] f[i] == expired(old(f)@, k as int)[i],
            forall|i: int| r <= i < f.len() ==> #[trigger] f[i] == old(f)[i],
        decreases f.len() - r,
    {
        if let Hold::Until(u) = f[r] {
            if u <= k {
                f.set(r, Hold::Free);
            }
        }
        r = r + 1;
    }
    assert(f@ =~= expired(old(f)@, k as int));
}

fn first_free(f: &Vec<Hold>) -> (r: Option<usize>)
    ensures
        match r {
            Some(i) => i < f.len() && free_from(f@, 0) == Some(i as int),
            None => free_from(f@, 0) is None,
        },
{
    let mut i: usize = 0;
    while i < f.len()
        invariant
            i <= f.len(),
            free_from(f@, i as int) == free_from(f@, 0),
        decreases f.len() - i,
    {
        if f[i] == Hold::Free {
            return Some(i);
        }
        i = i + 1;
    }
    None
}

/// The places of a body's temporaries, with the registers that values across blocks took left alone.
pub fn regalloc(code: &Code, uses: &Vec<u8>, out: &mut Vec<Option<Loc>>, taken: (usize, usize))
    ensures
        final(out)@ == temporaries(
            uses@,
            *code,
            (taken.0 as nat, taken.1 as nat),
            old(out)@,
            0,
        ),
{
    let ghost gone = (taken.0 as nat, taken.1 as nat);
    let mut b: usize = 0;
    while b < code.blocks.len()
        invariant
            b <= code.blocks.len(),
            gone == (taken.0 as nat, taken.1 as nat),
            temporaries(uses@, *code, gone, out@, b as int) == temporaries(
                uses@,
                *code,
                gone,
                old(out)@,
                0,
            ),
        decreases code.blocks.len() - b,
    {
        let x: &Block = &code.blocks[b];
        let mut ints: Vec<Hold> = new_file(taken.0);
        let mut floats: Vec<Hold> = new_file(taken.1);
        let ghost start = Files { ints: ints@, floats: floats@, out: out@ };
        let mut k: usize = 0;
        while k < x.insts.len()
            invariant
                k <= x.insts.len(),
                gone == (taken.0 as nat, taken.1 as nat),
                (Files { ints: ints@, floats: floats@, out: out@ }).insts(
                    uses@,
                    *x,
                    gone,
                    k as int,
                ) == start.insts(uses@, *x, gone, 0),
            decreases x.insts.len() - k,
        {
            let i: &Inst = &x.insts[k];
            if is_barrier(i) {
                ints = new_file(taken.0);
                floats = new_file(taken.1);
            } else {
                expire(&mut ints, k);
                expire(&mut floats, k);
                let d: Option<(bool, usize)> = match i {
                    Inst::Binary { dest, op, prim, lhs, rhs } => if *prim == Prim::I128 || *prim
                        == Prim::U128 {
                        None
                    } else {
                        Some((prim.is_float() && !op.is_comparison(), *dest))
                    },
                    Inst::Unary { dest, op, prim, arg } => if *prim == Prim::I128 || *prim
                        == Prim::U128 {
                        None
                    } else {
                        Some((prim.is_float(), *dest))
                    },
                    _ => None,
                };
                match d {
                    Some((float, dest)) => {
                        if ent(out, dest, None).is_none() {
                            match life_of(uses, x, dest, k) {
                                Some(at) => {
                                    let free: Option<usize> = if float {
                                        first_free(&floats)
                                    } else {
                                        first_free(&ints)
                                    };
                                    match free {
                                        Some(r) => {
                                            if float {
                                                floats.set(r, Hold::Until(at));
                                            } else {
                                                ints.set(r, Hold::Until(at));
                                            }
                                            put(out, dest, Some(Loc::Reg(r as u8)));
                                        },
                                        None => {},
                                    }
                                },
                                None => {},
                            }
                        }
                    },
                    None => {},
                }
            }
            k = k + 1;
        }
        b = b + 1;
    }
}

impl Files {
    /// One of the two register files.
    pub open spec fn file(self, float: bool) -> Seq<Hold> {
        if float {
            self.floats
        } else {
            self.ints
        }
    }
}

/// Whether a register holds what instruction `k` must leave alone: a value that lives across blocks,
/// or a temporary that is read behind it.
pub open spec fn held(h: Hold, k: int) -> bool {
    match h {
        Hold::Free => false,
        Hold::Kept => true,
        Hold::Until(u) => u > k,
    }
}

proof fn lemma_free(f: Seq<Hold>, r: int)
    requires
        0 <= r,
    ensures
        free_from(f, r) matches Some(k) ==> r <= k < f.len() && f[k] == Hold::Free,
    decreases f.len() - r,
{
    if r < f.len() && f[r] != Hold::Free {
        lemma_free(f, r + 1);
    }
}

/// A register that holds something still to be read is not given to another value: it holds the
/// same after the instruction, and a value that gets a register of this file gets another one.
pub proof fn a_held_register_is_not_given_away(
    f: Files,
    uses: Seq<u8>,
    x: Block,
    k: int,
    taken: (nat, nat),
    float: bool,
    r: int,
)
    requires
        0 <= k < x.insts.len(),
        !barrier(x.insts[k]),
        0 <= r < f.file(float).len(),
        r <= u8::MAX,
        f.ints.len() <= u8::MAX,
        f.floats.len() <= u8::MAX,
        held(f.file(float)[r], k),
    ensures
        ({
            let n = f.inst(uses, x, k, taken);
            &&& n.file(float)[r] == f.file(float)[r]
            &&& forall|v: int|
                0 <= v < f.out.len() && (#[trigger] n.out[v]) != f.out[v] ==> leaves(x.insts[k])
                    == Some((!float, v as usize)) || n.out[v] != Some(Loc::Reg(r as u8))
        }),
{
    lemma_free(expired(f.ints, k), 0);
    lemma_free(expired(f.floats, k), 0);
}

} // verus!
