//! A codegen unit, from functions to operations.
//!
//! The unit's functions come first, in the order they are given. Behind them come the functions that
//! the unit generates for itself: selecting one may ask for another, so the list grows while it is
//! walked.

use crate::carried::{carried_of, promote};
use crate::flow::Plan;
use crate::fuse::{constants, folded_of, literals_of, plan_block, plan_of};
use crate::glue::{blank_state, helper_env};
use crate::ir::{Block, Body, Code, Inst, Program};
use crate::order::{block_order, every_block_is_laid_out_once, layout};
use crate::registers::{regalloc, temporaries};
use crate::abi::Tgt;
use crate::library::Library;
use crate::select::{
    byte_lists, empty_frame, items, no_frame, Emit, Env, FrameSig, Fn2, Helper, Item, Op, Sel, Side,
    Switches,
};
use crate::slots::{defs_of, filled, set_at, slots, slots_of, DefTable};
use crate::text::texts;
use crate::types::put;
use vstd::prelude::*;

verus! {

/// The function of each closure that a block makes, from instruction `k` on.
pub open spec fn closures_in(t: Seq<Option<usize>>, is: Seq<Inst>, k: int) -> Seq<Option<usize>>
    decreases is.len() - k,
{
    if k >= is.len() {
        t
    } else {
        closures_in(
            match is[k] {
                Inst::MakeClosure { dest, func, env } => set_at(t, dest as int, Some(func)),
                _ => t,
            },
            is,
            k + 1,
        )
    }
}

/// The function of each closure that a body makes, from block `b` on.
pub open spec fn closures(t: Seq<Option<usize>>, code: Code, b: int) -> Seq<Option<usize>>
    decreases code.blocks.len() - b,
{
    if b >= code.blocks.len() {
        t
    } else {
        closures(closures_in(t, code.blocks[b].insts@, 0), code, b + 1)
    }
}

/// What a body of code is selected in: its values' slots and registers, the literals among them, and
/// the functions of the closures it makes.
pub open spec fn code_env(e: Env, code: Code, frame: FrameSig) -> Env {
    let n = code.types@.len();
    let c = carried_of(code, Seq::new(n, |i: int| None), Seq::new(n, |i: int| true));
    let s = slots_of(e.prog.tables, code, frame);
    Env {
        side: Side {
            slot: s.slot,
            reg: temporaries(defs_of(code).uses, code, (c.ints, c.floats), c.out, 0),
            wt: c.wt,
            constants: literals_of(code),
            folded: folded_of(e.lib, code),
            closure_of: closures(Seq::new(n, |i: int| None), code, 0),
        },
        frame: frame@,
        scratch: s.at as u32,
        ..e
    }
}

/// What a body that the runtime supplies is selected in: its frame, and no values.
pub open spec fn runtime_env(e: Env, frame: FrameSig) -> Env {
    Env {
        side: Side {
            slot: Seq::empty(),
            reg: Seq::empty(),
            wt: Seq::empty(),
            constants: Seq::empty(),
            folded: Seq::empty(),
            closure_of: Seq::empty(),
        },
        frame: frame@,
        scratch: frame.param_end,
        ..e
    }
}

/// What a function's body is selected in.
pub open spec fn function_env(e: Env, fi: usize) -> Env {
    match e.prog.funcs[fi as int].body {
        Body::Code(code) => code_env(e, code, e.frame_of(fi)),
        Body::Runtime(key) => runtime_env(e, e.frame_of(fi)),
    }
}

/// Whether a block's last instruction does not come back.
pub open spec fn aborts(is: Seq<Inst>) -> bool {
    is.len() > 0 && is.last() is Abort
}

impl Sel {
    /// The instructions of a block that its terminator does not stand for, from instruction `k` on.
    pub open spec fn insts(self, e: Env, code: Code, is: Seq<Inst>, skip: Seq<bool>, k: int) -> Sel
        decreases is.len() - k,
    {
        if k >= is.len() {
            self
        } else if skip[k] {
            self.insts(e, code, is, skip, k + 1)
        } else {
            self.inst(e, code, is[k]).insts(e, code, is, skip, k + 1)
        }
    }

    /// A block, with the block that is laid out next. Behind an abort there is no terminator.
    pub open spec fn block(self, e: Env, code: Code, b: usize, next: Option<usize>) -> Sel {
        let x = code.blocks[b as int];
        let plan = plan_of(e.lib, code, b as int, e.side.reg, e.side.folded);
        let s = self.place(b).insts(e, code, x.insts@, plan.skip, 0);
        if aborts(x.insts@) {
            s
        } else {
            s.term(e, code, next, x.term, plan.compare, plan.tagsw)
        }
    }

    /// Blocks in an order, from position `i` on.
    pub open spec fn blocks(self, e: Env, code: Code, order: Seq<usize>, i: int) -> Sel
        decreases order.len() - i,
    {
        if i >= order.len() {
            self
        } else {
            let next = if i + 1 < order.len() {
                Some(order[i + 1])
            } else {
                None
            };
            self.block(e, code, order[i], next).blocks(e, code, order, i + 1)
        }
    }

    /// A function.
    pub open spec fn function(self, e: Env, fi: usize) -> Sel {
        match e.prog.funcs[fi as int].body {
            Body::Code(code) => Sel { labels: code.blocks@.len(), ..self }.blocks(
                function_env(e, fi),
                code,
                block_order(code),
                0,
            ),
            Body::Runtime(key) => Sel { labels: 0, ..self }.runtime_body(
                function_env(e, fi),
                fi,
                key@,
            ),
        }
    }
}

/// Whether the values of a function fit a frame.
pub open spec fn fits_a_frame(e: Env, fi: int) -> bool {
    match e.prog.funcs[fi].body {
        Body::Code(code) => e.frame_of(fi as usize).param_end + crate::frames::slots_bytes(
            e.prog.tables,
            code.types@,
            code.types.len() as int,
        ) <= u32::MAX,
        Body::Runtime(key) => true,
    }
}

fn closures_of(code: &Code) -> (r: Vec<Option<usize>>)
    ensures
        r@ == closures(Seq::new(code.types@.len(), |i: int| None), *code, 0),
{
    let mut t: Vec<Option<usize>> = filled(code.types.len(), None);
    let ghost start = t@;
    let mut b: usize = 0;
    while b < code.blocks.len()
        invariant
            b <= code.blocks.len(),
            closures(t@, *code, b as int) == closures(start, *code, 0),
        decreases code.blocks.len() - b,
    {
        let is: &Vec<Inst> = &code.blocks[b].insts;
        let ghost before = t@;
        let mut k: usize = 0;
        while k < is.len()
            invariant
                k <= is.len(),
                closures_in(t@, is@, k as int) == closures_in(before, is@, 0),
            decreases is.len() - k,
        {
            match &is[k] {
                Inst::MakeClosure { dest, func, env } => {
                    put(&mut t, *dest, Some(*func));
                },
                _ => {},
            }
            k = k + 1;
        }
        b = b + 1;
    }
    t
}

impl<'a> Emit<'a> {
    fn insts(&mut self, code: &Code, is: &Vec<Inst>, skip: &Vec<bool>)
        requires
            skip.len() == is.len(),
        ensures
            final(self)@ == old(self)@.insts(old(self).env(), *code, is@, skip@, 0),
            final(self).env() == old(self).env(),
    {
        let mut k: usize = 0;
        while k < is.len()
            invariant
                k <= is.len(),
                skip.len() == is.len(),
                self.env() == old(self).env(),
                self@.insts(old(self).env(), *code, is@, skip@, k as int) == old(self)@.insts(
                    old(self).env(),
                    *code,
                    is@,
                    skip@,
                    0,
                ),
            decreases is.len() - k,
        {
            if !skip[k] {
                self.inst(code, &is[k]);
            }
            k = k + 1;
        }
    }

    fn block(&mut self, code: &Code, b: usize, next: Option<usize>)
        requires
            b < code.blocks.len(),
        ensures
            final(self)@ == old(self)@.block(old(self).env(), *code, b, next),
            final(self).env() == old(self).env(),
    {
        self.place(b);
        let x: &Block = &code.blocks[b];
        let plan: Plan = plan_block(self.lib, code, b, &self.st.reg, &self.st.folded);
        self.insts(code, &x.insts, &plan.skip);
        let n: usize = x.insts.len();
        let gone: bool = n > 0 && match &x.insts[n - 1] {
            Inst::Abort { message } => true,
            _ => false,
        };
        if !gone {
            self.term(code, next, &x.term, &plan);
        }
    }

    fn blocks(&mut self, code: &Code, order: &Vec<usize>)
        requires
            forall|i: int| 0 <= i < order.len() ==> #[trigger] order[i] < code.blocks.len(),
        ensures
            final(self)@ == old(self)@.blocks(old(self).env(), *code, order@, 0),
            final(self).env() == old(self).env(),
    {
        let mut i: usize = 0;
        while i < order.len()
            invariant
                i <= order.len(),
                forall|i: int| 0 <= i < order.len() ==> #[trigger] order[i] < code.blocks.len(),
                self.env() == old(self).env(),
                self@.blocks(old(self).env(), *code, order@, i as int) == old(self)@.blocks(
                    old(self).env(),
                    *code,
                    order@,
                    0,
                ),
            decreases order.len() - i,
        {
            let next: Option<usize> = if i + 1 < order.len() {
                Some(order[i + 1])
            } else {
                None
            };
            self.block(code, order[i], next);
            i = i + 1;
        }
    }

    /// Selects a function.
    pub fn function(&mut self, fi: usize)
        requires
            fi < old(self).env().prog.funcs.len(),
            fits_a_frame(old(self).env(), fi as int),
        ensures
            final(self)@ == old(self)@.function(old(self).env(), fi),
            final(self).env() == function_env(old(self).env(), fi),
    {
        let prog: &'a Program = self.prog;
        let frame: FrameSig = self.frame_sig_of(fi);
        let ghost e = self.env();
        let ghost f = e.frame_of(fi);
        match &prog.funcs[fi].body {
            Body::Code(code) => {
                let n: usize = code.types.len();
                let (slot, scratch): (Vec<u32>, u32) = slots(&prog.tables, code, &frame);
                let none: Vec<Option<crate::abi::Loc>> = filled(n, None);
                let kept: Vec<bool> = filled(n, true);
                let (out, wt, taken): (Vec<Option<crate::abi::Loc>>, Vec<bool>, (usize, usize)) =
                    promote(code, none, kept);
                let mut reg: Vec<Option<crate::abi::Loc>> = out;
                let d: DefTable = DefTable::of(code);
                regalloc(code, &d.uses, &mut reg, taken);
                let (constants, folded): (Vec<Option<u64>>, Vec<bool>) = constants(self.lib, code);
                let closure_of: Vec<Option<usize>> = closures_of(code);
                let blk: Vec<u64> = filled(code.blocks.len(), 0);
                self.st = Fn2 {
                    slot,
                    blk,
                    frame,
                    scratch,
                    reg,
                    wt,
                    constants,
                    folded,
                    closure_of,
                };
                assert(d.uses@ == defs_of(*code).uses) by {
                    assert(d@ == defs_of(*code));
                }
                assert(slots_of(prog.tables, *code, frame) == slots_of(prog.tables, *code, f));
                assert(self.st.frame@ == f@);
                assert(self.env() == code_env(e, *code, f));
                let order: Vec<usize> = layout(code);
                proof {
                    every_block_is_laid_out_once(*code);
                    assert forall|i: int| 0 <= i < order.len() implies #[trigger] order[i]
                        < code.blocks.len() by {
                        assert(order@.contains(order[i]));
                    }
                }
                self.blocks(code, &order);
            },
            Body::Runtime(key) => {
                let scratch: u32 = frame.param_end;
                self.st = blank_state(frame, scratch);
                assert(self.st.frame@ == f@);
                assert(self.env() == runtime_env(e, f));
                self.runtime_body(fi, key.as_str());
            },
        }
    }
}

// ---------------------------------------------------------------------------
// The unit
// ---------------------------------------------------------------------------

/// A selected body: its operations, how many blocks and labels they name, and whether something in
/// it was refused.
pub struct Bv {
    pub ops: Seq<Item>,
    pub labels: nat,
    pub scratch: u32,
    pub dirty: bool,
}

/// A selected unit: its bodies, the functions it generates, why anything was refused, the literals,
/// and one entry per open-coded list loop.
pub struct Un {
    pub bodies: Seq<Bv>,
    pub helpers: Seq<Helper>,
    pub reasons: Seq<Seq<char>>,
    pub lits: Seq<Seq<u8>>,
    pub loops: Seq<bool>,
}

impl Un {
    /// What a body's selection starts from.
    pub open spec fn start(self) -> Sel {
        Sel {
            ops: Seq::empty(),
            labels: 0,
            helpers: self.helpers,
            reasons: self.reasons,
            lits: self.lits,
            loops: self.loops,
            dirty: false,
        }
    }

    /// One more body.
    pub open spec fn with(self, s: Sel, scratch: u32) -> Un {
        Un {
            bodies: self.bodies.push(
                Bv { ops: s.ops, labels: s.labels, scratch, dirty: s.dirty },
            ),
            helpers: s.helpers,
            reasons: s.reasons,
            lits: s.lits,
            loops: s.loops,
        }
    }

    /// Functions, from member `i` on.
    pub open spec fn members(self, e: Env, ms: Seq<usize>, i: int) -> Un
        decreases ms.len() - i,
    {
        if i >= ms.len() {
            self
        } else {
            self.with(
                self.start().function(e, ms[i]),
                function_env(e, ms[i]).scratch,
            ).members(e, ms, i + 1)
        }
    }

    /// Generated functions, from helper `i` on.
    pub open spec fn generated(self, e: Env, i: int) -> Un
        decreases usize::MAX - i,
    {
        if i < 0 || i >= self.helpers.len() || i >= usize::MAX {
            self
        } else {
            let h = self.helpers[i];
            self.with(
                self.start().generate(helper_env(e, h), h),
                helper_env(e, h).scratch,
            ).generated(e, i + 1)
        }
    }
}

/// A selected body.
pub struct Chosen {
    pub ops: Vec<Op>,
    pub labels: usize,
    /// Where the scratch words of its frame begin.
    pub scratch: u32,
    pub dirty: bool,
}

impl View for Chosen {
    type V = Bv;

    open spec fn view(&self) -> Bv {
        Bv {
            ops: items(self.ops@),
            labels: self.labels as nat,
            scratch: self.scratch,
            dirty: self.dirty,
        }
    }
}

/// Bodies, abstractly.
pub open spec fn chosen(v: Seq<Chosen>) -> Seq<Bv> {
    Seq::new(v.len(), |i: int| v[i]@)
}

/// A selected unit.
pub struct Unit {
    pub bodies: Vec<Chosen>,
    pub helpers: Vec<Helper>,
    pub reasons: Vec<String>,
    pub lits: Vec<Vec<u8>>,
    pub loops: Vec<bool>,
}

impl View for Unit {
    type V = Un;

    open spec fn view(&self) -> Un {
        Un {
            bodies: chosen(self.bodies@),
            helpers: self.helpers@,
            reasons: texts(self.reasons@),
            lits: byte_lists(self.lits@),
            loops: self.loops@,
        }
    }
}

/// What all the bodies of a unit are selected from.
#[derive(Clone, Copy)]
pub struct Whole<'a> {
    pub lib: &'a Library,
    pub prog: &'a Program,
    pub frames: &'a Vec<FrameSig>,
    pub counted: &'a Vec<bool>,
    pub sw: Switches,
    pub target: Tgt,
}

impl<'a> Whole<'a> {
    /// What the selector reads before it enters a body.
    pub open spec fn env(&self) -> Env {
        Env {
            lib: *self.lib,
            prog: *self.prog,
            frames: self.frames@,
            counted: self.counted@,
            sw: self.sw,
            target: self.target,
            side: Side {
                slot: Seq::empty(),
                reg: Seq::empty(),
                wt: Seq::empty(),
                constants: Seq::empty(),
                folded: Seq::empty(),
                closure_of: Seq::empty(),
            },
            frame: no_frame()@,
            scratch: 0,
        }
    }
}

/// Whether a unit's functions are the program's, and their values fit their frames.
pub open spec fn selectable(e: Env, ms: Seq<usize>) -> bool {
    forall|i: int|
        0 <= i < ms.len() ==> (#[trigger] ms[i]) < e.prog.funcs.len() && fits_a_frame(
            e,
            ms[i] as int,
        )
}

impl Unit {
    /// A unit with nothing in it.
    pub fn new() -> (r: Unit)
        ensures
            r@ == (Un {
                bodies: Seq::empty(),
                helpers: Seq::empty(),
                reasons: Seq::empty(),
                lits: Seq::empty(),
                loops: Seq::empty(),
            }),
    {
        let r = Unit {
            bodies: Vec::new(),
            helpers: Vec::new(),
            reasons: Vec::new(),
            lits: Vec::new(),
            loops: Vec::new(),
        };
        assert(r@.bodies =~= Seq::empty());
        assert(r@.helpers =~= Seq::empty());
        assert(r@.reasons =~= Seq::empty());
        assert(r@.lits =~= Seq::empty());
        assert(r@.loops =~= Seq::empty());
        r
    }

    fn member(self, w: &Whole, fi: usize) -> (r: Unit)
        requires
            fi < w.prog.funcs.len(),
            fits_a_frame(w.env(), fi as int),
        ensures
            r@ == self@.with(
                self@.start().function(w.env(), fi),
                function_env(w.env(), fi).scratch,
            ),
    {
        let ghost before = self@;
        let Unit { bodies, helpers, reasons, lits, loops } = self;
        let mut s: Emit = start(w, helpers, reasons, lits, loops);
        s.function(fi);
        finish(Ghost(before), s, bodies)
    }

    fn helper(self, w: &Whole, h: Helper) -> (r: Unit)
        ensures
            r@ == self@.with(
                self@.start().generate(helper_env(w.env(), h), h),
                helper_env(w.env(), h).scratch,
            ),
    {
        let ghost before = self@;
        let Unit { bodies, helpers, reasons, lits, loops } = self;
        let mut s: Emit = start(w, helpers, reasons, lits, loops);
        s.enter_helper(h);
        s.generate(h);
        finish(Ghost(before), s, bodies)
    }

    /// Selects the functions of a unit, and the functions that it generates.
    pub fn select(self, w: &Whole, members: &Vec<usize>) -> (r: Unit)
        requires
            selectable(w.env(), members@),
        ensures
            r@ == self@.members(w.env(), members@, 0).generated(w.env(), 0),
    {
        let ghost begin = self@;
        let mut u: Unit = self;
        let mut i: usize = 0;
        while i < members.len()
            invariant
                i <= members.len(),
                selectable(w.env(), members@),
                u@.members(w.env(), members@, i as int) == begin.members(w.env(), members@, 0),
            decreases members.len() - i,
        {
            u = u.member(w, members[i]);
            i = i + 1;
        }
        let ghost middle = u@;
        let mut k: usize = 0;
        while k < u.helpers.len()
            invariant
                u@.generated(w.env(), k as int) == middle.generated(w.env(), 0),
            decreases usize::MAX - k,
        {
            let h: Helper = u.helpers[k];
            u = u.helper(w, h);
            k = k + 1;
        }
        u
    }
}

fn start<'a>(
    w: &Whole<'a>,
    helpers: Vec<Helper>,
    reasons: Vec<String>,
    lits: Vec<Vec<u8>>,
    loops: Vec<bool>,
) -> (r: Emit<'a>)
    ensures
        r.env() == w.env(),
        r@.ops == Seq::<Item>::empty(),
        r@.labels == 0,
        r@.helpers == helpers@,
        r@.reasons == texts(reasons@),
        r@.lits == byte_lists(lits@),
        r@.loops == loops@,
        !r@.dirty,
{
    let r = Emit {
        lib: w.lib,
        prog: w.prog,
        frames: w.frames,
        counted: w.counted,
        sw: w.sw,
        target: w.target,
        st: blank_state(empty_frame(), 0),
        ops: Vec::new(),
        helpers,
        reasons,
        lits,
        loops,
        dirty: false,
    };
    assert(r@.ops =~= Seq::<Item>::empty());
    r
}

fn finish(before: Ghost<Un>, s: Emit, bodies: Vec<Chosen>) -> (r: Unit)
    requires
        before@.bodies == chosen(bodies@),
    ensures
        r@ == before@.with(s@, s.env().scratch),
{
    let Emit { lib, prog, frames, counted, sw, target, st, ops, helpers, reasons, lits, loops, dirty } =
        s;
    let labels: usize = st.blk.len();
    let mut bodies: Vec<Chosen> = bodies;
    let ghost old_bodies = bodies@;
    let c = Chosen { ops, labels, scratch: st.scratch, dirty };
    let ghost cv = c@;
    bodies.push(c);
    assert(chosen(bodies@) =~= chosen(old_bodies).push(cv));
    Unit { bodies, helpers, reasons, lits, loops }
}

} // verus!
