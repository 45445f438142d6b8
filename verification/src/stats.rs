//! What an emitted unit came to, in numbers.

use crate::assemble::{choose_stencil, chosen as picked, falls, falls_through, folds};
use crate::ir::{Body, Code, Program};
use crate::jit::Jit;
use crate::library::{Library, Stencil};
use crate::select::{items, FrameSig, Item, Op, H, V};
use crate::text::same;
use crate::unit::{chosen, Bv, Chosen};
use vstd::prelude::*;

verus! {

/// The numbers of a unit. A count that a machine word cannot hold stays at the largest.
#[derive(Clone, Copy, PartialEq, Eq, Debug)]
pub struct Stats {
    /// Functions.
    pub funcs: u64,
    /// Functions in which nothing was refused.
    pub funcs_clean: u64,
    pub blocks: u64,
    pub insts: u64,
    /// Stencils copied.
    pub stencils: u64,
    /// Bytes of stencils copied.
    pub bytes: u64,
    /// Stencils whose last branch was dropped.
    pub elided: u64,
    /// Stencils of which a folded twin was copied.
    pub folded: u64,
    /// Refusals, however often for one reason.
    pub unsupported: u64,
    /// Open-coded list loops.
    pub list_loops: u64,
    /// Open-coded list loops that call their step directly.
    pub list_direct: u64,
    /// The largest frame of the program.
    pub max_frame: u32,
}

/// A count as a machine word holds it.
pub open spec fn counted(n: nat) -> u64 {
    if n > u64::MAX {
        u64::MAX
    } else {
        n as u64
    }
}

/// How many of the first `n` bodies nothing was refused in.
pub open spec fn clean(bs: Seq<Bv>, n: int) -> nat
    decreases n,
{
    if n <= 0 {
        0
    } else {
        clean(bs, n - 1) + (if bs[n - 1].dirty {
            0nat
        } else {
            1
        })
    }
}

/// The blocks of a body.
pub open spec fn blocks_of(b: Body) -> nat {
    match b {
        Body::Code(code) => code.blocks@.len(),
        Body::Runtime(key) => 0,
    }
}

/// The instructions of the first `n` blocks.
pub open spec fn insts_in(code: Code, n: int) -> nat
    decreases n,
{
    if n <= 0 {
        0
    } else {
        insts_in(code, n - 1) + code.blocks[n - 1].insts@.len()
    }
}

/// The instructions of a body.
pub open spec fn insts_of(b: Body) -> nat {
    match b {
        Body::Code(code) => insts_in(code, code.blocks.len() as int),
        Body::Runtime(key) => 0,
    }
}

/// The blocks and the instructions of the first `n` members.
pub open spec fn sizes(prog: Program, ms: Seq<usize>, n: int) -> (nat, nat)
    decreases n,
{
    if n <= 0 {
        (0, 0)
    } else {
        let before = sizes(prog, ms, n - 1);
        let f = prog.funcs[ms[n - 1] as int];
        (before.0 + blocks_of(f.body), before.1 + insts_of(f.body))
    }
}

/// How many of the first `n` operations refuse something.
pub open spec fn refusals_in(os: Seq<Item>, n: int) -> nat
    decreases n,
{
    if n <= 0 {
        0
    } else {
        refusals_in(os, n - 1) + (match os[n - 1] {
            Item::Stencil { key, binds } => if key == "unsupported"@ {
                1nat
            } else {
                0
            },
            _ => 0,
        })
    }
}

/// How many operations of the first `n` bodies refuse something.
pub open spec fn refusals(bs: Seq<Bv>, n: int) -> nat
    decreases n,
{
    if n <= 0 {
        0
    } else {
        refusals(bs, n - 1) + refusals_in(bs[n - 1].ops, bs[n - 1].ops.len() as int)
    }
}

/// What copied stencils come to.
pub struct Copies {
    pub stencils: nat,
    pub bytes: nat,
    pub elided: nat,
    pub folded: nat,
}

impl Copies {
    /// No stencil copied.
    pub open spec fn none() -> Copies {
        Copies { stencils: 0, bytes: 0, elided: 0, folded: 0 }
    }

    /// The stencil of a key copied too. A key that the library does not hold, or a stencil too short
    /// for the branch that would be dropped, is not copied.
    pub open spec fn copy(self, lib: Library, key: Seq<char>, binds: Seq<(H, V)>) -> Copies {
        let s = lib.stencils[picked(lib, key, binds, 0)->0];
        let len = s.code@.len();
        let drops = match s.tail_hole() {
            Some(name) => falls(binds, name),
            None => false,
        };
        if !lib.holds(key) || (drops && len < 4) {
            self
        } else {
            Copies {
                stencils: self.stencils + 1,
                bytes: if drops {
                    (self.bytes + len - 4) as nat
                } else {
                    self.bytes + len
                },
                elided: if drops {
                    self.elided + 1
                } else {
                    self.elided
                },
                folded: if folds(lib, key, binds) {
                    self.folded + 1
                } else {
                    self.folded
                },
            }
        }
    }

    /// The stencils of the first `n` operations copied too.
    pub open spec fn copy_ops(self, lib: Library, os: Seq<Item>, n: int) -> Copies
        decreases n,
    {
        if n <= 0 {
            self
        } else {
            let before = self.copy_ops(lib, os, n - 1);
            match os[n - 1] {
                Item::Stencil { key, binds } => before.copy(lib, key, binds),
                _ => before,
            }
        }
    }
}

/// What the stencils of the first `n` bodies come to.
pub open spec fn copies(lib: Library, bs: Seq<Bv>, n: int) -> Copies
    decreases n,
{
    if n <= 0 {
        Copies::none()
    } else {
        copies(lib, bs, n - 1).copy_ops(lib, bs[n - 1].ops, bs[n - 1].ops.len() as int)
    }
}

/// How many of the first `n` entries are set.
pub open spec fn set_in(v: Seq<bool>, n: int) -> nat
    decreases n,
{
    if n <= 0 {
        0
    } else {
        set_in(v, n - 1) + (if v[n - 1] {
            1nat
        } else {
            0
        })
    }
}

/// The largest of the first `n` frames.
pub open spec fn largest(fs: Seq<FrameSig>, n: int) -> u32
    decreases n,
{
    if n <= 0 {
        0
    } else if fs[n - 1].size > largest(fs, n - 1) {
        fs[n - 1].size
    } else {
        largest(fs, n - 1)
    }
}

fn body_size(b: &Body, blocks: u64, insts: u64, at: Ghost<(nat, nat)>) -> (r: (u64, u64))
    requires
        blocks == counted(at@.0),
        insts == counted(at@.1),
    ensures
        r.0 == counted(at@.0 + blocks_of(*b)),
        r.1 == counted(at@.1 + insts_of(*b)),
{
    match b {
        Body::Runtime(_) => (blocks, insts),
        Body::Code(code) => {
            let mut n: u64 = insts;
            let mut k: usize = 0;
            while k < code.blocks.len()
                invariant
                    k <= code.blocks.len(),
                    n == counted(at@.1 + insts_in(*code, k as int)),
                decreases code.blocks.len() - k,
            {
                n = n.saturating_add(code.blocks[k].insts.len() as u64);
                k = k + 1;
            }
            (blocks.saturating_add(code.blocks.len() as u64), n)
        },
    }
}

fn refused(ops: &Vec<Op>, sum: u64, at: Ghost<nat>) -> (r: u64)
    requires
        sum == counted(at@),
    ensures
        r == counted(at@ + refusals_in(items(ops@), ops.len() as int)),
{
    let mut n: u64 = sum;
    let ghost os = items(ops@);
    let mut i: usize = 0;
    while i < ops.len()
        invariant
            i <= ops.len(),
            os == items(ops@),
            n == counted(at@ + refusals_in(os, i as int)),
        decreases ops.len() - i,
    {
        assert(os[i as int] == ops[i as int]@);
        match &ops[i] {
            Op::Stencil { key, binds } => {
                if same(key.as_str(), "unsupported") {
                    n = n.saturating_add(1);
                }
            },
            _ => {},
        }
        i = i + 1;
    }
    n
}

/// What copied stencils come to, as machine words hold it.
struct Tally {
    stencils: u64,
    bytes: u64,
    elided: u64,
    folded: u64,
}

impl Tally {
    spec fn of(self, c: Copies) -> bool {
        &&& self.stencils == counted(c.stencils)
        &&& self.bytes == counted(c.bytes)
        &&& self.elided == counted(c.elided)
        &&& self.folded == counted(c.folded)
    }

    fn copy(
        &mut self,
        lib: &Library,
        key: &str,
        binds: &Vec<(H, V)>,
        at: Ghost<Copies>,
    )
        requires
            old(self).of(at@),
        ensures
            final(self).of(at@.copy(*lib, key@, binds@)),
    {
        let plain: &Stencil = match lib.get(key) {
            None => return,
            Some(s) => s,
        };
        let (s, twin): (&Stencil, bool) = choose_stencil(lib, key, binds, plain);
        let drops: bool = match s.tail_name() {
            Some(name) => falls_through(binds, name),
            None => false,
        };
        let len: usize = s.code.len();
        if drops && len < 4 {
            return;
        }
        self.stencils = self.stencils.saturating_add(1);
        if twin {
            self.folded = self.folded.saturating_add(1);
        }
        if drops {
            self.elided = self.elided.saturating_add(1);
            self.bytes = self.bytes.saturating_add(len as u64 - 4);
        } else {
            self.bytes = self.bytes.saturating_add(len as u64);
        }
    }

    fn copy_ops(&mut self, lib: &Library, ops: &Vec<Op>, at: Ghost<Copies>)
        requires
            old(self).of(at@),
        ensures
            final(self).of(at@.copy_ops(*lib, items(ops@), ops.len() as int)),
    {
        let ghost os = items(ops@);
        let mut i: usize = 0;
        while i < ops.len()
            invariant
                i <= ops.len(),
                os == items(ops@),
                self.of(at@.copy_ops(*lib, os, i as int)),
            decreases ops.len() - i,
        {
            assert(os[i as int] == ops[i as int]@);
            match &ops[i] {
                Op::Stencil { key, binds } => {
                    self.copy(lib, key.as_str(), binds, Ghost(at@.copy_ops(*lib, os, i as int)));
                },
                _ => {},
            }
            i = i + 1;
        }
    }
}

impl<'a> Jit<'a> {
    /// The numbers of the unit that was emitted last, of which these are the members.
    pub fn stats(&self, prog: &Program, members: &Vec<usize>) -> (r: Stats)
        requires
            forall|i: int| 0 <= i < members.len() ==> #[trigger] members[i] < prog.funcs.len(),
            members.len() <= self.unit.bodies.len(),
        ensures
            r == (Stats {
                funcs: members@.len() as u64,
                funcs_clean: clean(self.unit@.bodies, members@.len() as int) as u64,
                blocks: counted(sizes(*prog, members@, members@.len() as int).0),
                insts: counted(sizes(*prog, members@, members@.len() as int).1),
                stencils: counted(
                    copies(*self.lib, self.unit@.bodies, self.unit@.bodies.len() as int).stencils,
                ),
                bytes: counted(
                    copies(*self.lib, self.unit@.bodies, self.unit@.bodies.len() as int).bytes,
                ),
                elided: counted(
                    copies(*self.lib, self.unit@.bodies, self.unit@.bodies.len() as int).elided,
                ),
                folded: counted(
                    copies(*self.lib, self.unit@.bodies, self.unit@.bodies.len() as int).folded,
                ),
                unsupported: counted(
                    refusals(self.unit@.bodies, self.unit@.bodies.len() as int),
                ),
                list_loops: self.unit@.loops.len() as u64,
                list_direct: set_in(self.unit@.loops, self.unit@.loops.len() as int) as u64,
                max_frame: largest(self.frames@, self.frames@.len() as int),
            }),
    {
        let ghost bs = self.unit@.bodies;
        let mut blocks: u64 = 0;
        let mut insts: u64 = 0;
        let mut funcs_clean: u64 = 0;
        let mut i: usize = 0;
        while i < members.len()
            invariant
                i <= members.len() <= self.unit.bodies.len(),
                bs == chosen(self.unit.bodies@),
                forall|i: int| 0 <= i < members.len() ==> #[trigger] members[i] < prog.funcs.len(),
                blocks == counted(sizes(*prog, members@, i as int).0),
                insts == counted(sizes(*prog, members@, i as int).1),
                funcs_clean == clean(bs, i as int),
                funcs_clean <= i,
            decreases members.len() - i,
        {
            let at: Ghost<(nat, nat)> = Ghost(sizes(*prog, members@, i as int));
            let (b, n): (u64, u64) = body_size(&prog.funcs[members[i]].body, blocks, insts, at);
            blocks = b;
            insts = n;
            assert(bs[i as int] == self.unit.bodies[i as int]@);
            if !self.unit.bodies[i].dirty {
                funcs_clean = funcs_clean + 1;
            }
            i = i + 1;
        }
        let mut unsupported: u64 = 0;
        let mut tally: Tally = Tally { stencils: 0, bytes: 0, elided: 0, folded: 0 };
        let mut k: usize = 0;
        while k < self.unit.bodies.len()
            invariant
                k <= self.unit.bodies.len(),
                bs == chosen(self.unit.bodies@),
                unsupported == counted(refusals(bs, k as int)),
                tally.of(copies(*self.lib, bs, k as int)),
            decreases self.unit.bodies.len() - k,
        {
            let c: &Chosen = &self.unit.bodies[k];
            assert(bs[k as int] == c@);
            unsupported = refused(&c.ops, unsupported, Ghost(refusals(bs, k as int)));
            tally.copy_ops(self.lib, &c.ops, Ghost(copies(*self.lib, bs, k as int)));
            k = k + 1;
        }
        let mut list_direct: u64 = 0;
        let mut l: usize = 0;
        while l < self.unit.loops.len()
            invariant
                l <= self.unit.loops.len(),
                list_direct == set_in(self.unit.loops@, l as int),
                list_direct <= l,
            decreases self.unit.loops.len() - l,
        {
            if self.unit.loops[l] {
                list_direct = list_direct + 1;
            }
            l = l + 1;
        }
        let mut max_frame: u32 = 0;
        let mut f: usize = 0;
        while f < self.frames.len()
            invariant
                f <= self.frames.len(),
                max_frame == largest(self.frames@, f as int),
            decreases self.frames.len() - f,
        {
            if self.frames[f].size > max_frame {
                max_frame = self.frames[f].size;
            }
            f = f + 1;
        }
        Stats {
            funcs: members.len() as u64,
            funcs_clean,
            blocks,
            insts,
            stencils: tally.stencils,
            bytes: tally.bytes,
            elided: tally.elided,
            folded: tally.folded,
            unsupported,
            list_loops: self.unit.loops.len() as u64,
            list_direct,
            max_frame,
        }
    }
}

} // verus!
