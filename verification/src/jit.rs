//! The emitter: one codegen unit, from functions to code.
//!
//! A unit is selected body by body and then assembled body by body. A call of another function is
//! always left to the linker, also where the callee is in the unit: the linker may move or drop a
//! function that nothing refers to.

use crate::abi::Tgt;
use crate::assemble::{As, Assembly, Fix};
use crate::calls::expanded;
use crate::glue::{helper_symbol, symbol};
use crate::ir::Program;
use crate::library::Library;
use crate::region::{Region, RelocKind, Rg, Target, Tg};
use crate::select::{byte_lists, Env, FrameSig, Switches};
use crate::slots::{filled, set_at};
use crate::text::{decimal, decimal_of, join2, own};
use crate::types::{at_or, ent, put, Tables};
use crate::unit::{chosen, selectable, Bv, Chosen, Un, Unit, Whole};
use vstd::prelude::*;

verus! {

/// The symbols outside the program that a stencil's body may name by itself.
pub const EXTERNALS: [&'static str; 7] = [
    "buri_rt_abort",
    "buri_rt_abort_div_zero",
    "buri_rt_abort_unreachable",
    "buri_rt_alloc",
    "buri_rt_decref",
    "buri_rt_i128_divmod",
    "memcpy",
];

/// The symbol of a function.
pub open spec fn symbol_text(prog: Program, f: u32) -> Seq<char> {
    if f < prog.funcs.len() {
        prog.funcs[f as int].symbol@
    } else {
        "buri$missing$"@ + decimal(f as nat)
    }
}

/// The symbol of a function. An index past the program gives a name that nothing defines.
pub fn symbol_of(prog: &Program, f: u32) -> (r: String)
    ensures
        r@ == symbol_text(*prog, f),
{
    if (f as usize) < prog.funcs.len() {
        own(prog.funcs[f as usize].symbol.as_str())
    } else {
        let n: String = decimal_of(f as u64);
        join2("buri$missing$", n.as_str())
    }
}

impl As {
    /// Bodies assembled one after another, from body `i` on, and the address of each.
    pub open spec fn bodies(
        self,
        lib: Library,
        lits: Seq<Seq<u8>>,
        bs: Seq<Bv>,
        at: Seq<u64>,
        i: int,
    ) -> Result<(As, Seq<u64>), Seq<char>>
        decreases bs.len() - i,
    {
        if i >= bs.len() {
            Ok((self, at))
        } else {
            match self.body(lib, lits, bs[i].ops, bs[i].labels) {
                Err(e) => Err(e),
                Ok(a) => a.bodies(
                    lib,
                    lits,
                    bs,
                    at.push(self.rg.align_code(4).code.len() as u64),
                    i + 1,
                ),
            }
        }
    }
}

/// The calls of functions left to the linker, from open branch `i` on.
pub open spec fn resolved(rg: Rg, prog: Program, fixups: Seq<Fix>, i: int) -> Rg
    decreases fixups.len() - i,
{
    if i >= fixups.len() {
        rg
    } else {
        resolved(
            match fixups[i] {
                Fix::Func { at, f } => rg.rel(
                    at,
                    RelocKind::Branch26,
                    Tg::Symbol(symbol_text(prog, f as u32)),
                    0,
                ),
                _ => rg,
            },
            prog,
            fixups,
            i + 1,
        )
    }
}

/// Addresses entered for functions, from member `i` on.
pub open spec fn entered(t: Seq<u64>, ms: Seq<usize>, at: Seq<u64>, i: int) -> Seq<u64>
    decreases ms.len() - i,
{
    if i >= ms.len() {
        t
    } else {
        entered(set_at(t, ms[i] as int, at[i]), ms, at, i + 1)
    }
}

/// The function that a refusal in body `i` counts against: a generated function counts against the
/// last member.
pub open spec fn blamed(ms: Seq<usize>, last: usize, i: int) -> usize {
    if i < ms.len() {
        ms[i]
    } else if ms.len() > 0 {
        ms.last()
    } else {
        last
    }
}

/// The functions in which something was refused, from body `i` on.
pub open spec fn marked(d: Seq<bool>, bs: Seq<Bv>, ms: Seq<usize>, last: usize, i: int) -> Seq<bool>
    decreases bs.len() - i,
{
    if i >= bs.len() {
        d
    } else {
        marked(
            if bs[i].dirty {
                set_at(d, blamed(ms, last, i) as int, true)
            } else {
                d
            },
            bs,
            ms,
            last,
            i + 1,
        )
    }
}

/// Which types own a counted block.
pub open spec fn counted_types(tables: Tables) -> Seq<bool> {
    Seq::new(tables.types@.len() + 1, |i: int| tables.owns(i))
}

/// The emitter of one unit.
pub struct Jit<'a> {
    pub lib: &'a Library,
    pub frames: &'a Vec<FrameSig>,
    pub sw: Switches,
    pub target: Tgt,
    pub region: Region,
    /// What was selected: the bodies, the helpers, the refusals and the literals.
    pub unit: Unit,
    /// The pool handle of each literal.
    pub handles: Vec<u64>,
    /// The address of each function of the program, zero for one that the unit does not have.
    pub entries: Vec<u64>,
    /// Whether something in a function was refused.
    pub dirty: Vec<bool>,
    /// The last function that was selected.
    pub current: usize,
    /// The address of each helper.
    pub helper_at: Vec<u64>,
}

impl<'a> Jit<'a> {
    /// What the unit's bodies are selected in.
    pub open spec fn env(&self, prog: Program) -> Env {
        Env {
            lib: *self.lib,
            prog,
            frames: self.frames@,
            counted: counted_types(prog.tables),
            sw: self.sw,
            target: self.target,
            side: crate::select::Side {
                slot: Seq::empty(),
                reg: Seq::empty(),
                wt: Seq::empty(),
                constants: Seq::empty(),
                folded: Seq::empty(),
                closure_of: Seq::empty(),
            },
            frame: crate::select::no_frame()@,
            scratch: 0,
        }
    }

    /// What a unit of these members selects.
    pub open spec fn selection(&self, prog: Program, ms: Seq<usize>) -> Un {
        Un { bodies: Seq::empty(), ..self.unit@ }.members(self.env(prog), ms, 0).generated(
            self.env(prog),
            0,
        )
    }

    /// What assembling the selected unit gives, and the address of each body.
    pub open spec fn assembled(&self) -> Result<(As, Seq<u64>), Seq<char>> {
        As { rg: self.region@, fixups: Seq::empty(), lits: self.handles@ }.bodies(
            *self.lib,
            self.unit@.lits,
            self.unit@.bodies,
            Seq::empty(),
            0,
        )
    }

    /// An emitter for one unit.
    pub fn new(
        lib: &'a Library,
        frames: &'a Vec<FrameSig>,
        sw: Switches,
        target: Tgt,
    ) -> (r: Jit<'a>)
        ensures
            *r.lib == *lib,
            r.frames@ == frames@,
            r.sw == sw,
            r.target == target,
            r.region@ == (Rg {
                code: Seq::empty(),
                pool: Seq::empty(),
                targets: Seq::empty(),
                index: Map::empty(),
                relocs: Seq::empty(),
            }),
            r.region@.wf(),
            r.unit@ == (Un {
                bodies: Seq::empty(),
                helpers: Seq::empty(),
                reasons: Seq::empty(),
                lits: Seq::empty(),
                loops: Seq::empty(),
            }),
            r.handles@.len() == 0,
            r.entries@.len() == 0,
            r.dirty@.len() == 0,
            r.current == 0,
            r.helper_at@.len() == 0,
    {
        Jit {
            lib,
            frames,
            sw,
            target,
            region: Region::new(),
            unit: Unit::new(),
            handles: Vec::new(),
            entries: Vec::new(),
            dirty: Vec::new(),
            current: 0,
            helper_at: Vec::new(),
        }
    }

    /// The symbol and the address of every function that the unit generated.
    pub fn helper_symbols(&self) -> (r: Vec<(String, u64)>)
        ensures
            r.len() == self.helper_at.len(),
            forall|i: int|
                0 <= i < r.len() ==> (#[trigger] r[i]).0@ == helper_symbol(i as nat) && r[i].1
                    == self.helper_at[i],
    {
        let mut out: Vec<(String, u64)> = Vec::new();
        let mut i: usize = 0;
        while i < self.helper_at.len()
            invariant
                i <= self.helper_at.len(),
                out.len() == i,
                forall|k: int|
                    0 <= k < i ==> (#[trigger] out[k]).0@ == helper_symbol(k as nat) && out[k].1
                        == self.helper_at[k],
            decreases self.helper_at.len() - i,
        {
            out.push((symbol(i), self.helper_at[i]));
            i = i + 1;
        }
        out
    }

    /// Makes ready for a program: no function has an address, and nothing is refused.
    pub fn plan(&mut self, prog: &Program)
        ensures
            *final(self) == (Jit {
                entries: final(self).entries,
                dirty: final(self).dirty,
                ..*old(self)
            }),
            final(self).entries@ == Seq::new(prog.funcs@.len(), |i: int| 0u64),
            final(self).dirty@ == Seq::new(prog.funcs@.len(), |i: int| false),
    {
        self.entries = filled(prog.funcs.len(), 0);
        self.dirty = filled(prog.funcs.len(), false);
    }
}

fn counted_of(tables: &Tables) -> (r: Vec<bool>)
    ensures
        r@ == counted_types(*tables),
{
    let r: Vec<bool> = tables.counted();
    assert(r@ =~= counted_types(*tables)) by {
        assert forall|i: int| 0 <= i < r@.len() implies r@[i] == counted_types(*tables)[i] by {
            assert(r[i] <==> tables.owns(i));
        }
    }
    r
}

impl<'a> Jit<'a> {
    fn select(&mut self, prog: &Program, members: &Vec<usize>)
        requires
            selectable(old(self).env(*prog), members@),
        ensures
            *final(self) == (Jit { unit: final(self).unit, ..*old(self) }),
            final(self).unit@ == old(self).selection(*prog, members@),
    {
        let counted: Vec<bool> = counted_of(&prog.tables);
        let w = Whole {
            lib: self.lib,
            prog,
            frames: self.frames,
            counted: &counted,
            sw: self.sw,
            target: self.target,
        };
        assert(w.env() == old(self).env(*prog));
        let mut u: Unit = Unit::new();
        core::mem::swap(&mut self.unit, &mut u);
        let Unit { bodies, helpers, reasons, lits, loops } = u;
        let u = Unit { bodies: Vec::new(), helpers, reasons, lits, loops };
        assert(u@.bodies =~= Seq::empty());
        self.unit = u.select(&w, members);
    }

    fn mark(&mut self, members: &Vec<usize>)
        ensures
            *final(self) == (Jit {
                dirty: final(self).dirty,
                current: final(self).current,
                ..*old(self)
            }),
            final(self).current == blamed(members@, old(self).current, members.len() as int),
            final(self).dirty@ == marked(
                old(self).dirty@,
                old(self).unit@.bodies,
                members@,
                old(self).current,
                0,
            ),
    {
        let last: usize = self.current;
        let mut i: usize = 0;
        while i < self.unit.bodies.len()
            invariant
                i <= self.unit.bodies.len(),
                last == old(self).current,
                *self == (Jit { dirty: self.dirty, ..*old(self) }),
                marked(self.dirty@, self.unit@.bodies, members@, last, i as int) == marked(
                    old(self).dirty@,
                    old(self).unit@.bodies,
                    members@,
                    last,
                    0,
                ),
            decreases self.unit.bodies.len() - i,
        {
            assert(self.unit@.bodies[i as int] == self.unit.bodies[i as int]@);
            if self.unit.bodies[i].dirty {
                let f: usize = if i < members.len() {
                    members[i]
                } else if members.len() > 0 {
                    members[members.len() - 1]
                } else {
                    last
                };
                put(&mut self.dirty, f, true);
            }
            i = i + 1;
        }
        if members.len() > 0 {
            self.current = members[members.len() - 1];
        }
    }

    /// Assembles the selected unit: every body at its address, the calls of functions left to the
    /// linker. The first body that cannot be assembled is reported, and the unit is then of no use.
    pub fn assemble_unit(&mut self, prog: &Program, members: &Vec<usize>) -> (r: Result<(), String>)
        requires
            old(self).unit.bodies.len() >= members.len(),
        ensures
            match r {
                Err(e) => old(self).assembled() == Err::<(As, Seq<u64>), Seq<char>>(e@),
                Ok(_) => {
                    &&& old(self).assembled() is Ok
                    &&& final(self).region@ == resolved(
                        (old(self).assembled()->Ok_0).0.rg,
                        *prog,
                        (old(self).assembled()->Ok_0).0.fixups,
                        0,
                    )
                    &&& final(self).handles@ == (old(self).assembled()->Ok_0).0.lits
                    &&& final(self).entries@ == entered(
                        old(self).entries@,
                        members@,
                        (old(self).assembled()->Ok_0).1,
                        0,
                    )
                    &&& final(self).helper_at@ == (old(self).assembled()->Ok_0).1.skip(
                        members@.len() as int,
                    )
                },
            },
            *final(self) == (Jit {
                region: final(self).region,
                handles: final(self).handles,
                entries: final(self).entries,
                helper_at: final(self).helper_at,
                ..*old(self)
            }),
            r is Ok && old(self).region@.wf() ==> final(self).region@.wf(),
    {
        let ghost asked = self.assembled();
        let ghost bs = self.unit@.bodies;
        let ghost ls = self.unit@.lits;
        let mut region: Region = Region::new();
        core::mem::swap(&mut self.region, &mut region);
        let mut lits: Vec<u64> = Vec::new();
        core::mem::swap(&mut self.handles, &mut lits);
        let mut a = Assembly { region, fixups: Vec::new(), lits };
        assert(a@.fixups =~= Seq::empty());
        let mut at: Vec<u64> = Vec::new();
        assert(at@ =~= Seq::empty());
        let mut i: usize = 0;
        while i < self.unit.bodies.len()
            invariant
                i <= self.unit.bodies.len(),
                old(self).region@.wf() ==> a@.rg.wf(),
                at.len() == i,
                bs == chosen(self.unit.bodies@),
                ls == byte_lists(self.unit.lits@),
                asked == old(self).assembled(),
                *self == (Jit { region: self.region, handles: self.handles, ..*old(self) }),
                a@.bodies(*self.lib, ls, bs, at@, i as int) == asked,
            decreases self.unit.bodies.len() - i,
        {
            let c: &Chosen = &self.unit.bodies[i];
            assert(bs[i as int] == c@);
            match a.body(self.lib, &self.unit.lits, &c.ops, c.labels) {
                Err(e) => return Err(e),
                Ok(start) => at.push(start),
            }
            i = i + 1;
        }
        let Assembly { region, fixups, lits } = a;
        self.region = region;
        self.handles = lits;
        let ghost start = self.region@;
        let mut k: usize = 0;
        while k < fixups.len()
            invariant
                k <= fixups.len(),
                old(self).region@.wf() ==> self.region@.wf(),
                *self == (Jit { region: self.region, handles: self.handles, ..*old(self) }),
                self.handles == lits,
                resolved(self.region@, *prog, fixups@, k as int) == resolved(
                    start,
                    *prog,
                    fixups@,
                    0,
                ),
            decreases fixups.len() - k,
        {
            match fixups[k] {
                Fix::Func { at: p, f } => {
                    self.region.reloc(
                        p,
                        RelocKind::Branch26,
                        Target::Symbol(symbol_of(prog, f as u32)),
                    );
                },
                _ => {},
            }
            k = k + 1;
        }
        let mut m: usize = 0;
        while m < members.len()
            invariant
                m <= members.len() <= at.len(),
                old(self).region@.wf() ==> self.region@.wf(),
                *self == (Jit {
                    region: self.region,
                    handles: self.handles,
                    entries: self.entries,
                    ..*old(self)
                }),
                self.handles == lits,
                self.region@ == resolved(start, *prog, fixups@, 0),
                entered(self.entries@, members@, at@, m as int) == entered(
                    old(self).entries@,
                    members@,
                    at@,
                    0,
                ),
            decreases members.len() - m,
        {
            put(&mut self.entries, members[m], at[m]);
            m = m + 1;
        }
        let mut helper_at: Vec<u64> = Vec::new();
        while m < at.len()
            invariant
                members.len() <= m <= at.len(),
                helper_at@ == at@.subrange(members.len() as int, m as int),
            decreases at.len() - m,
        {
            helper_at.push(at[m]);
            m = m + 1;
            assert(helper_at@ =~= at@.subrange(members.len() as int, m as int));
        }
        assert(helper_at@ =~= at@.skip(members.len() as int));
        self.helper_at = helper_at;
        Ok(())
    }

    /// Selects one unit: its members, then what they ask it to generate. What calls the runtime may
    /// then be expanded, before the unit is assembled.
    pub fn select_unit(&mut self, prog: &Program, members: &Vec<usize>)
        requires
            selectable(old(self).env(*prog), members@),
        ensures
            *final(self) == (Jit {
                unit: final(self).unit,
                entries: final(self).entries,
                dirty: final(self).dirty,
                current: final(self).current,
                ..*old(self)
            }),
            final(self).unit@ == old(self).selection(*prog, members@),
            final(self).unit.bodies.len() >= members.len(),
            final(self).entries@ == Seq::new(prog.funcs@.len(), |i: int| 0u64),
            final(self).dirty@ == marked(
                Seq::new(prog.funcs@.len(), |i: int| false),
                final(self).unit@.bodies,
                members@,
                old(self).current,
                0,
            ),
            final(self).current == blamed(members@, old(self).current, members.len() as int),
    {
        self.plan(prog);
        self.select(prog, members);
        proof {
            let start = Un { bodies: Seq::empty(), ..old(self).unit@ };
            let e = old(self).env(*prog);
            lemma_one_body_each(start, e, members@, 0);
            lemma_bodies_stay(start.members(e, members@, 0), e, 0);
        }
        self.mark(members);
    }

    /// Emits one unit: its members, then what they ask the unit to generate, with the calls of C
    /// functions expanded.
    ///
    /// The refusals are there whether or not the unit could be assembled.
    pub fn compile_unit(&mut self, prog: &Program, members: &Vec<usize>) -> (r: Result<(), String>)
        requires
            selectable(old(self).env(*prog), members@),
        ensures
            final(self).lib == old(self).lib,
            final(self).frames == old(self).frames,
            final(self).sw == old(self).sw,
            final(self).target == old(self).target,
            expanded(old(self).selection(*prog, members@), final(self).unit),
            final(self).dirty@ == marked(
                Seq::new(prog.funcs@.len(), |i: int| false),
                old(self).selection(*prog, members@).bodies,
                members@,
                old(self).current,
                0,
            ),
            final(self).current == blamed(members@, old(self).current, members.len() as int),
            match r {
                Err(e) => As {
                    rg: old(self).region@,
                    fixups: Seq::empty(),
                    lits: old(self).handles@,
                }.bodies(
                    *old(self).lib,
                    final(self).unit@.lits,
                    final(self).unit@.bodies,
                    Seq::empty(),
                    0,
                ) == Err::<(As, Seq<u64>), Seq<char>>(e@),
                Ok(_) => {
                    let done = As {
                        rg: old(self).region@,
                        fixups: Seq::empty(),
                        lits: old(self).handles@,
                    }.bodies(
                        *old(self).lib,
                        final(self).unit@.lits,
                        final(self).unit@.bodies,
                        Seq::empty(),
                        0,
                    );
                    &&& done is Ok
                    &&& final(self).region@ == resolved(
                        (done->Ok_0).0.rg,
                        *prog,
                        (done->Ok_0).0.fixups,
                        0,
                    )
                    &&& final(self).handles@ == (done->Ok_0).0.lits
                    &&& final(self).entries@ == entered(
                        Seq::new(prog.funcs@.len(), |i: int| 0u64),
                        members@,
                        (done->Ok_0).1,
                        0,
                    )
                    &&& final(self).helper_at@ == (done->Ok_0).1.skip(members@.len() as int)
                },
            },
            r is Ok && old(self).region@.wf() ==> final(self).region@.wf(),
    {
        self.select_unit(prog, members);
        let mut unit: Unit = Unit::new();
        core::mem::swap(&mut self.unit, &mut unit);
        self.unit = unit.expand_calls();
        self.assemble_unit(prog, members)
    }

    /// The address of a function, zero for one that the unit does not have.
    pub fn entry_of(&self, f: usize) -> (r: u64)
        ensures
            r == at_or(self.entries@, f as int, 0u64),
    {
        ent(&self.entries, f, 0)
    }

    /// For each function whether something in it was refused.
    pub fn dirty_raw(&self) -> (r: &Vec<bool>)
        ensures
            r@ == self.dirty@,
    {
        &self.dirty
    }

    /// The address of each function.
    pub fn entries_raw(&self) -> (r: &Vec<u64>)
        ensures
            r@ == self.entries@,
    {
        &self.entries
    }

    /// The size of a function's frame.
    pub fn frame_of(&self, f: usize) -> (r: u32)
        ensures
            r == if f < self.frames.len() {
                self.frames[f as int].size
            } else {
                0
            },
    {
        if f < self.frames.len() {
            self.frames[f].size
        } else {
            0
        }
    }

    /// Why anything was refused, each reason once, in the order they were met.
    pub fn reasons(&self) -> (r: &Vec<String>)
        ensures
            r@ == self.unit.reasons@,
    {
        &self.unit.reasons
    }
}

proof fn lemma_one_body_each(u: Un, e: Env, ms: Seq<usize>, i: int)
    requires
        0 <= i <= ms.len(),
    ensures
        u.members(e, ms, i).bodies.len() == u.bodies.len() + ms.len() - i,
    decreases ms.len() - i,
{
    if i < ms.len() {
        lemma_one_body_each(
            u.with(u.start().function(e, ms[i]), crate::unit::function_env(e, ms[i]).scratch),
            e,
            ms,
            i + 1,
        );
    }
}

proof fn lemma_bodies_stay(u: Un, e: Env, i: int)
    ensures
        u.generated(e, i).bodies.len() >= u.bodies.len(),
    decreases usize::MAX - i,
{
    if !(i < 0 || i >= u.helpers.len() || i >= usize::MAX) {
        let h = u.helpers[i];
        lemma_bodies_stay(
            u.with(
                u.start().generate(crate::glue::helper_env(e, h), h),
                crate::glue::helper_env(e, h).scratch,
            ),
            e,
            i + 1,
        );
    }
}

} // verus!
