//! One object per codegen unit.
//!
//! The unit that has the program's root also gets its entry point, behind the bodies, the doors that
//! other code enters a root through, and the stack it runs on. A unit in which something was refused
//! gives no object: it gives every refusal.

use crate::a64::{Piece, Shim, Sr};
use crate::abi::Tgt;
use crate::assemble::As;
use crate::bytes::{a_gap_ends_on_a_multiple, gap, zeros};
use crate::backend::{answer, main_result};
use crate::calls::{an_expansion_is_assembled_one_way, expanded};
use crate::elf;
use crate::entry::{
    arm_program, arm_suite, program_entry, test_entry, x86_program, x86_suite, STACK_ALIGN,
    STACK_BYTES, STACK_SYMBOL,
};
use crate::frames::{all_fit, fits, frame_of, frame_sigs, frames_fit, is_frame};
use crate::glue::helper_symbol;
use crate::grown::{every_helper_is_generated, members_only_add};
use crate::ir::Program;
use crate::jit::{counted_types, entered, resolved, symbol_of, symbol_text, Jit};
use crate::keys::{has_body, implemented};
use crate::library::Library;
use crate::object::{Definition, Reloc, Section, Symbol, CODE_ATTRIBUTES};
use crate::parts::{moved, name_text, places, syms, Ob, Object, Sy, CODE, POOL, POOL_ANCHOR, STACK};
use crate::region::{slot_rel, Emitted, Region, Rg, Tg, CODE_ALIGN, POOL_ALIGN, POOL_ALIGN_X86_64};
use crate::select::{no_frame, Env, FrameSig, Side, Switches};
use crate::sorted::{ascending, tidy};
use crate::text::{join2, join3, own, texts};
use crate::types::{at_or, Tables};
use crate::unit::{fits_a_frame, selectable, Un, Unit};
use vstd::prelude::*;

verus! {

/// The symbol that a C runtime starts a program at.
pub const ENTRY_SYMBOL: &'static str = "main";

/// What a program starts with.
pub enum Root {
    /// A function.
    Main(usize),
    /// Tests, one after another.
    Tests(Vec<usize>),
}

/// Everything that the units of a program share.
pub struct Emission<'a> {
    pub lib: &'a Library,
    pub prog: &'a Program,
    pub frames: &'a Vec<FrameSig>,
    pub root: &'a Root,
    /// The doors that other code enters the program through, with their symbols.
    pub doors: &'a Vec<(String, Shim)>,
    pub target: Tgt,
    pub sw: Switches,
}

/// A section, as a value.
pub struct Se {
    pub name: Seq<char>,
    pub segment: Seq<char>,
    pub align: u32,
    pub zerofill: u64,
    pub attributes: u32,
    pub data: Seq<u8>,
}

impl View for Section {
    type V = Se;

    open spec fn view(&self) -> Se {
        Se {
            name: self.name@,
            segment: self.segment@,
            align: self.align,
            zerofill: self.zerofill,
            attributes: self.attributes,
            data: self.data@,
        }
    }
}

/// Sections, as values.
pub open spec fn sects(v: Seq<Section>) -> Seq<Se> {
    v.map_values(|s: Section| s@)
}

/// The parts of a unit's object, as values.
pub struct Pt {
    pub sections: Seq<Se>,
    pub syms: Seq<Sy>,
    pub relocs: Seq<Reloc>,
}

/// The parts of a unit's object.
pub struct Parts {
    pub sections: Vec<Section>,
    pub symbols: Vec<Symbol>,
    pub relocs: Vec<Reloc>,
}

impl View for Parts {
    type V = Pt;

    open spec fn view(&self) -> Pt {
        Pt {
            sections: sects(self.sections@),
            syms: syms(self.symbols@),
            relocs: self.relocs@,
        }
    }
}

/// An emitted unit: the name of its object file, the parts, and the file itself where the container
/// is ELF.
pub struct UnitObject {
    pub name: String,
    pub parts: Parts,
    pub bytes: Option<Vec<u8>>,
}

/// The functions of tests, by symbol.
pub open spec fn test_names(prog: Program, ts: Seq<usize>) -> Seq<Seq<char>> {
    Seq::new(ts.len(), |i: int| symbol_text(prog, ts[i] as u32))
}

/// The entry point of a unit, which only the unit has that has the root: the function, or the first
/// test.
pub open spec fn entry_of(target: Tgt, prog: Program, root: Root, ms: Seq<usize>) -> Option<Piece> {
    match root {
        Root::Main(i) => if ms.contains(i) {
            let name = symbol_text(prog, i as u32);
            Some(
                if target.arm64() {
                    arm_program(name, answer(prog, i as int))
                } else {
                    x86_program(name, answer(prog, i as int))
                },
            )
        } else {
            None
        },
        Root::Tests(ts) => if ts@.len() > 0 && ms.contains(ts@[0]) {
            Some(
                if target.arm64() {
                    arm_suite(test_names(prog, ts@))
                } else {
                    x86_suite(test_names(prog, ts@))
                },
            )
        } else {
            None
        },
    }
}

/// A root that code outside the program may enter: the function, its number where it is a test, and
/// the size of what it answers.
#[derive(Clone, Copy, PartialEq, Eq, Structural, Debug)]
pub struct Way {
    pub func: usize,
    pub test: Option<usize>,
    pub ret_size: u32,
}

/// What the door of a root answers, where the root has one: only a root that takes nothing does.
pub open spec fn door_of(frames: Seq<FrameSig>, idx: usize) -> Option<u32> {
    if idx < frames.len() && frames[idx as int].params@.len() == 0 {
        Some(frames[idx as int].ret_size)
    } else {
        None
    }
}

/// The tests among the first `n` that have a door.
pub open spec fn test_ways(frames: Seq<FrameSig>, ts: Seq<usize>, n: int) -> Seq<Way>
    decreases n,
{
    if n <= 0 {
        Seq::empty()
    } else {
        let before = test_ways(frames, ts, n - 1);
        match door_of(frames, ts[n - 1]) {
            Some(ret_size) => before.push(
                Way { func: ts[n - 1], test: Some((n - 1) as usize), ret_size },
            ),
            None => before,
        }
    }
}

/// The roots that have a door, in the order of the doors.
pub open spec fn ways_of(frames: Seq<FrameSig>, root: Root) -> Seq<Way> {
    match root {
        Root::Main(i) => match door_of(frames, i) {
            Some(ret_size) => seq![Way { func: i, test: None, ret_size }],
            None => Seq::empty(),
        },
        Root::Tests(ts) => test_ways(frames, ts@, ts@.len() as int),
    }
}

/// Doors, as values.
pub open spec fn pieces(v: Seq<(String, Shim)>) -> Seq<(Seq<char>, Piece)> {
    v.map_values(|d: (String, Shim)| (d.0@, d.1@))
}

impl Ob {
    /// Doors behind the code, from door `i` on.
    pub open spec fn doors(self, prog: Program, ds: Seq<(Seq<char>, Piece)>, i: int) -> Ob
        decreases ds.len() - i,
    {
        if i >= ds.len() {
            self
        } else {
            self.shim(prog, ds[i].0, ds[i].1).doors(prog, ds, i + 1)
        }
    }
}

/// The section of the code.
pub open spec fn text_section(target: Tgt, data: Seq<u8>) -> Se {
    Se {
        name: if target != Tgt::MacosArm64 {
            ".text"@
        } else {
            "__text"@
        },
        segment: if target != Tgt::MacosArm64 {
            ""@
        } else {
            "__TEXT"@
        },
        align: CODE_ALIGN,
        zerofill: 0,
        attributes: CODE_ATTRIBUTES,
        data,
    }
}

/// The section of the constant pool.
pub open spec fn pool_section(target: Tgt, data: Seq<u8>) -> Se {
    Se {
        name: if target != Tgt::MacosArm64 {
            ".rodata"@
        } else {
            "__const"@
        },
        segment: if target != Tgt::MacosArm64 {
            ""@
        } else {
            "__DATA_CONST"@
        },
        align: if target.arm64() {
            POOL_ALIGN
        } else {
            POOL_ALIGN_X86_64
        },
        zerofill: 0,
        attributes: 0,
        data,
    }
}

/// The section of the stack, which carries no bytes.
pub open spec fn stack_section(target: Tgt) -> Se {
    Se {
        name: if target != Tgt::MacosArm64 {
            ".bss"@
        } else {
            "__bss"@
        },
        segment: if target != Tgt::MacosArm64 {
            ""@
        } else {
            "__DATA"@
        },
        align: STACK_ALIGN,
        zerofill: STACK_BYTES,
        attributes: 0,
        data: Seq::empty(),
    }
}

/// A code region's object, before the entry point.
pub open spec fn bare_object(
    prog: Program,
    ms: Seq<usize>,
    entries: Seq<u64>,
    helpers: Seq<(Seq<char>, u64)>,
    rg: Rg,
) -> Ob {
    Ob { code: rg.code, syms: Seq::empty(), relocs: Seq::empty() }.members(
        prog,
        ms,
        entries,
        0,
    ).helpers(helpers, 0).rels(prog, CODE, rg.relocs, 0).rels(
        prog,
        POOL,
        rg.targets.map_values(|t: (u64, Tg)| slot_rel(t)),
        0,
    ).define(POOL_ANCHOR@, POOL, 0, true)
}

/// The parts of an object, with an entry point, the doors behind it and a stack where the unit has
/// the root.
pub open spec fn whole_object(
    target: Tgt,
    prog: Program,
    o: Ob,
    pool: Seq<u8>,
    entry: Option<Piece>,
    doors: Seq<(Seq<char>, Piece)>,
) -> Pt {
    match entry {
        None => Pt {
            sections: seq![text_section(target, o.code), pool_section(target, pool)],
            syms: o.syms,
            relocs: o.relocs,
        },
        Some(p) => {
            let with = o.shim(prog, ENTRY_SYMBOL@, p).doors(prog, doors, 0).define(
                STACK_SYMBOL@,
                STACK,
                0,
                false,
            );
            Pt {
                sections: seq![
                    text_section(target, with.code),
                    pool_section(target, pool),
                    stack_section(target),
                ],
                syms: with.syms,
                relocs: with.relocs,
            }
        },
    }
}

/// What a refusal is reported as.
pub open spec fn refusal(why: Seq<char>) -> Seq<char> {
    "the stencil backend cannot compile "@ + why + " yet"@
}

impl<'a> Emission<'a> {
    /// What the units are selected in.
    pub open spec fn env(&self) -> Env {
        Env {
            lib: *self.lib,
            prog: *self.prog,
            frames: self.frames@,
            counted: counted_types(self.prog.tables),
            sw: self.sw,
            target: self.target,
            side: Side {
                slot: Seq::empty(),
                reg: Seq::empty(),
                wt: Seq::empty(),
                constants: Seq::empty(),
                folded: Seq::empty(),
                closure_of: Seq::empty(),
            },
            frame: no_frame()@,
            scratch: 0,
        }
    }

    /// What a unit selects.
    pub open spec fn selection(&self, ms: Seq<usize>) -> Un {
        Un {
            bodies: Seq::empty(),
            helpers: Seq::empty(),
            reasons: Seq::empty(),
            lits: Seq::empty(),
            loops: Seq::empty(),
        }.members(self.env(), ms, 0).generated(self.env(), 0)
    }

    /// A unit assembled, and the address of each of its bodies.
    pub open spec fn assembled(&self, u: Un) -> Result<(As, Seq<u64>), Seq<char>> {
        As {
            rg: Rg {
                code: Seq::empty(),
                pool: Seq::empty(),
                targets: Seq::empty(),
                index: Map::empty(),
                relocs: Seq::empty(),
            },
            fixups: Seq::empty(),
            lits: Seq::empty(),
        }.bodies(*self.lib, u.lits, u.bodies, Seq::empty(), 0)
    }

    /// The parts of the object of a selected unit, or what is reported.
    pub open spec fn parts_of(&self, u: Un, ms: Seq<usize>) -> Result<Pt, Seq<Seq<char>>> {
        let why = u.reasons;
        if why.len() > 0 {
            Err(Seq::new(why.len(), |i: int| refusal(why[i])))
        } else {
            match self.assembled(u) {
                Err(e) => Err(seq![e]),
                Ok(done) => {
                    let rg = resolved(done.0.rg, *self.prog, done.0.fixups, 0);
                    let table = entered(
                        Seq::new(self.prog.funcs@.len(), |i: int| 0u64),
                        ms,
                        done.1,
                        0,
                    );
                    let helper_at = done.1.skip(ms.len() as int);
                    Ok(
                        whole_object(
                            self.target,
                            *self.prog,
                            bare_object(
                                *self.prog,
                                ms,
                                Seq::new(
                                    ms.len(),
                                    |i: int| at_or(table, ms[i] as int, 0u64),
                                ),
                                Seq::new(
                                    helper_at.len(),
                                    |i: int| (helper_symbol(i as nat), helper_at[i]),
                                ),
                                rg,
                            ),
                            rg.pool,
                            entry_of(self.target, *self.prog, *self.root, ms),
                            pieces(self.doors@),
                        ),
                    )
                },
            }
        }
    }

    /// Whether this is what a selected unit gives: its object, or what is reported. An object that
    /// the container cannot hold is reported too.
    #[verifier::opaque]
    pub open spec fn gives(
        &self,
        name: Seq<char>,
        u: Un,
        ms: Seq<usize>,
        r: Result<UnitObject, Vec<String>>,
    ) -> bool {
        match r {
            Ok(em) => {
                &&& em.name@ == name + ".o"@
                &&& self.parts_of(u, ms) == Ok::<Pt, Seq<Seq<char>>>(em.parts@)
                &&& match em.bytes {
                    Some(b) => self.target != Tgt::MacosArm64 && elf::object_of(
                        self.target,
                        em.parts.sections@,
                        em.parts.symbols@,
                        em.parts.relocs@,
                    ) == Ok::<Seq<u8>, Seq<char>>(b@),
                    None => self.target == Tgt::MacosArm64,
                }
            },
            Err(es) => self.parts_of(u, ms) == Err::<Pt, Seq<Seq<char>>>(texts(es@)) || (es@.len() == 1
                && self.target != Tgt::MacosArm64 && exists|p: Parts|
                self.parts_of(u, ms) == Ok::<Pt, Seq<Seq<char>>>(#[trigger] p@) && elf::object_of(
                    self.target,
                    p.sections@,
                    p.symbols@,
                    p.relocs@,
                ) == Err::<Seq<u8>, Seq<char>>(es@[0]@)),
        }
    }
}

fn holds(v: &Vec<usize>, x: usize) -> (r: bool)
    ensures
        r == v@.contains(x),
{
    let mut i: usize = 0;
    while i < v.len()
        invariant
            i <= v.len(),
            forall|k: int| 0 <= k < i ==> v[k] != x,
        decreases v.len() - i,
    {
        if v[i] == x {
            return true;
        }
        i = i + 1;
    }
    false
}

fn entry(target: Tgt, prog: &Program, root: &Root, members: &Vec<usize>) -> (r: Option<Shim>)
    ensures
        match r {
            None => entry_of(target, *prog, *root, members@) is None,
            Some(s) => entry_of(target, *prog, *root, members@) == Some(s@),
        },
{
    match root {
        Root::Main(i) => {
            if !holds(members, *i) {
                return None;
            }
            let name: String = symbol_of(prog, *i as u32);
            Some(program_entry(target, name.as_str(), main_result(prog, *i)))
        },
        Root::Tests(ts) => {
            if ts.len() == 0 || !holds(members, ts[0]) {
                return None;
            }
            let mut names: Vec<String> = Vec::new();
            let mut k: usize = 0;
            while k < ts.len()
                invariant
                    k <= ts.len(),
                    names.len() == k,
                    forall|j: int|
                        0 <= j < k ==> (#[trigger] names[j])@ == symbol_text(*prog, ts[j] as u32),
                decreases ts.len() - k,
            {
                names.push(symbol_of(prog, ts[k] as u32));
                k = k + 1;
            }
            assert(texts(names@) =~= test_names(*prog, ts@));
            Some(test_entry(target, names.as_slice()))
        },
    }
}

fn text_of(target: Tgt, data: Vec<u8>) -> (r: Section)
    ensures
        r@ == text_section(target, data@),
{
    let elf: bool = target.is_elf();
    Section {
        name: if elf {
            ".text"
        } else {
            "__text"
        },
        segment: if elf {
            ""
        } else {
            "__TEXT"
        },
        align: CODE_ALIGN,
        zerofill: 0,
        attributes: CODE_ATTRIBUTES,
        data,
    }
}

fn pool_of(target: Tgt, data: Vec<u8>) -> (r: Section)
    ensures
        r@ == pool_section(target, data@),
{
    let elf: bool = target.is_elf();
    Section {
        name: if elf {
            ".rodata"
        } else {
            "__const"
        },
        segment: if elf {
            ""
        } else {
            "__DATA_CONST"
        },
        align: if target.is_arm64() {
            POOL_ALIGN
        } else {
            POOL_ALIGN_X86_64
        },
        zerofill: 0,
        attributes: 0,
        data,
    }
}

fn stack_of(target: Tgt) -> (r: Section)
    ensures
        r@ == stack_section(target),
{
    let elf: bool = target.is_elf();
    let data: Vec<u8> = Vec::new();
    assert(data@ =~= Seq::empty());
    Section {
        name: if elf {
            ".bss"
        } else {
            "__bss"
        },
        segment: if elf {
            ""
        } else {
            "__DATA"
        },
        align: STACK_ALIGN,
        zerofill: STACK_BYTES,
        attributes: 0,
        data,
    }
}

fn finished(
    target: Tgt,
    prog: &Program,
    members: &Vec<usize>,
    entries: &Vec<u64>,
    helpers: &Vec<(String, u64)>,
    region: Region,
    shim: Option<Shim>,
    doors: &Vec<(String, Shim)>,
) -> (r: Parts)
    requires
        entries.len() == members.len(),
    ensures
        r@ == whole_object(
            target,
            *prog,
            bare_object(*prog, members@, entries@, places(helpers@), region@),
            region@.pool,
            match shim {
                None => None,
                Some(s) => Some(s@),
            },
            pieces(doors@),
        ),
{
    let Emitted { code, code_relocs, pool, pool_relocs } = region.finish();
    let mut o = Object { code, symbols: Vec::new(), relocs: Vec::new() };
    assert(o@.syms =~= Seq::empty());
    assert(o@.relocs =~= Seq::empty());
    o.members(prog, members, entries);
    o.helpers(helpers);
    o.rels(prog, CODE, &code_relocs);
    o.rels(prog, POOL, &pool_relocs);
    o.define(POOL_ANCHOR, POOL, 0, true);
    match shim {
        None => {
            let Object { code, symbols, relocs } = o;
            let sections: Vec<Section> = vec![text_of(target, code), pool_of(target, pool)];
            assert(sects(sections@) =~= seq![
                text_section(target, code@),
                pool_section(target, pool@),
            ]);
            Parts { sections, symbols, relocs }
        },
        Some(s) => {
            o.shim(prog, ENTRY_SYMBOL, &s);
            let ghost start = o@;
            let ghost ds = pieces(doors@);
            let mut i: usize = 0;
            while i < doors.len()
                invariant
                    i <= doors.len(),
                    ds == pieces(doors@),
                    o@.doors(*prog, ds, i as int) == start.doors(*prog, ds, 0),
                decreases doors.len() - i,
            {
                assert(ds[i as int] == (doors[i as int].0@, doors[i as int].1@));
                o.shim(prog, doors[i].0.as_str(), &doors[i].1);
                i = i + 1;
            }
            o.define(STACK_SYMBOL, STACK, 0, false);
            let Object { code, symbols, relocs } = o;
            let sections: Vec<Section> = vec![
                text_of(target, code),
                pool_of(target, pool),
                stack_of(target),
            ];
            assert(sects(sections@) =~= seq![
                text_section(target, code@),
                pool_section(target, pool@),
                stack_section(target),
            ]);
            Parts { sections, symbols, relocs }
        },
    }
}

impl<'a> Emission<'a> {
    /// The parts of the object of a unit that was assembled.
    pub fn object(&self, j: Jit, members: &Vec<usize>) -> (r: Parts)
        ensures
            r@ == whole_object(
                self.target,
                *self.prog,
                bare_object(
                    *self.prog,
                    members@,
                    Seq::new(
                        members@.len(),
                        |i: int| at_or(j.entries@, members[i] as int, 0u64),
                    ),
                    Seq::new(
                        j.helper_at@.len(),
                        |i: int| (helper_symbol(i as nat), j.helper_at[i]),
                    ),
                    j.region@,
                ),
                j.region@.pool,
                entry_of(self.target, *self.prog, *self.root, members@),
                pieces(self.doors@),
            ),
    {
        let mut entries: Vec<u64> = Vec::new();
        let mut i: usize = 0;
        while i < members.len()
            invariant
                i <= members.len(),
                entries.len() == i,
                forall|k: int|
                    0 <= k < i ==> #[trigger] entries[k] == at_or(
                        j.entries@,
                        members[k] as int,
                        0u64,
                    ),
            decreases members.len() - i,
        {
            entries.push(j.entry_of(members[i]));
            i = i + 1;
        }
        let ghost table = j.entries@;
        let ghost helper_at = j.helper_at@;
        assert(entries@ =~= Seq::new(members@.len(), |i: int| at_or(table, members[i] as int, 0u64)));
        let helpers: Vec<(String, u64)> = j.helper_symbols();
        assert(places(helpers@) =~= Seq::new(
            helper_at.len(),
            |i: int| (helper_symbol(i as nat), helper_at[i]),
        ));
        let shim: Option<Shim> = entry(self.target, self.prog, self.root, members);
        finished(self.target, self.prog, members, &entries, &helpers, j.region, shim, self.doors)
    }

    /// What a unit selects: its members, and what they ask it to generate. What calls the runtime in
    /// it may then be expanded, and [`Emission::compile_selected`] makes the object.
    pub fn select(&self, members: &Vec<usize>) -> (r: Unit)
        requires
            selectable(self.env(), members@),
        ensures
            r@ == self.selection(members@),
            r.bodies.len() >= members.len(),
    {
        let mut j: Jit = Jit::new(self.lib, self.frames, self.sw, self.target);
        assert(j.env(*self.prog) == self.env());
        j.select_unit(self.prog, members);
        j.unit
    }

    fn parts(&self, members: &Vec<usize>, unit: Unit) -> (r: Result<Parts, Vec<String>>)
        requires
            unit.bodies.len() >= members.len(),
        ensures
            match r {
                Ok(p) => self.parts_of(unit@, members@) == Ok::<Pt, Seq<Seq<char>>>(p@),
                Err(es) => self.parts_of(unit@, members@) == Err::<Pt, Seq<Seq<char>>>(texts(es@)),
            },
    {
        let refused: &Vec<String> = &unit.reasons;
        assert(unit@.reasons == texts(refused@));
        if refused.len() > 0 {
            let mut out: Vec<String> = Vec::new();
            let mut i: usize = 0;
            while i < refused.len()
                invariant
                    i <= refused.len(),
                    out.len() == i,
                    forall|k: int| 0 <= k < i ==> (#[trigger] out[k])@ == refusal(refused[k]@),
                decreases refused.len() - i,
            {
                out.push(
                    join3("the stencil backend cannot compile ", refused[i].as_str(), " yet"),
                );
                i = i + 1;
            }
            assert(texts(out@) =~= Seq::new(
                unit@.reasons.len(),
                |i: int| refusal(unit@.reasons[i]),
            ));
            return Err(out);
        }
        let mut j: Jit = Jit::new(self.lib, self.frames, self.sw, self.target);
        j.plan(self.prog);
        j.unit = unit;
        assert(j.handles@ =~= Seq::empty());
        match j.assemble_unit(self.prog, members) {
            Err(e) => {
                let v: Vec<String> = vec![e];
                assert(texts(v@) =~= seq![e@]);
                return Err(v);
            },
            Ok(_) => {},
        }
        Ok(self.object(j, members))
    }

    /// One selected unit, in which nothing calls the runtime any more, from operations to an object.
    pub fn compile_selected(&self, name: &str, members: &Vec<usize>, unit: Unit) -> (r: Result<
        UnitObject,
        Vec<String>,
    >)
        requires
            unit.bodies.len() >= members.len(),
        ensures
            self.gives(name@, unit@, members@, r),
    {
        reveal(Emission::gives);
        let ghost u = unit@;
        match self.parts(members, unit) {
            Err(es) => Err(es),
            Ok(parts) => {
                if !self.target.is_elf() {
                    return Ok(UnitObject { name: join2(name, ".o"), parts, bytes: None });
                }
                match elf::write(
                    self.target,
                    parts.sections.as_slice(),
                    parts.symbols.as_slice(),
                    parts.relocs.as_slice(),
                ) {
                    Err(e) => {
                        let v: Vec<String> = vec![e];
                        assert(self.parts_of(u, members@) == Ok::<Pt, Seq<Seq<char>>>(parts@));
                        Err(v)
                    },
                    Ok(b) => Ok(UnitObject { name: join2(name, ".o"), parts, bytes: Some(b) }),
                }
            },
        }
    }

    /// One unit, from functions to an object, with the calls of C functions expanded.
    pub fn compile_unit(&self, name: &str, members: &Vec<usize>) -> (r: Result<UnitObject, Vec<String>>)
        requires
            selectable(self.env(), members@),
        ensures
            exists|u: Unit| #[trigger]
                expanded(self.selection(members@), u) && self.gives(name@, u@, members@, r),
    {
        let unit: Unit = self.select(members).expand_calls();
        self.compile_selected(name, members, unit)
    }
}

/// What the door of a root answers, where the root has one.
pub fn door_frame(frames: &Vec<FrameSig>, idx: usize) -> (r: Option<u32>)
    ensures
        r == door_of(frames@, idx),
{
    if idx < frames.len() && frames[idx].params.len() == 0 {
        Some(frames[idx].ret_size)
    } else {
        None
    }
}

/// The roots that have a door, in the order of the doors.
pub fn ways(frames: &Vec<FrameSig>, root: &Root) -> (r: Vec<Way>)
    ensures
        r@ == ways_of(frames@, *root),
{
    let mut out: Vec<Way> = Vec::new();
    match root {
        Root::Main(i) => {
            match door_frame(frames, *i) {
                Some(ret_size) => out.push(Way { func: *i, test: None, ret_size }),
                None => {},
            }
        },
        Root::Tests(ts) => {
            let mut k: usize = 0;
            while k < ts.len()
                invariant
                    k <= ts.len(),
                    out@ == test_ways(frames@, ts@, k as int),
                decreases ts.len() - k,
            {
                match door_frame(frames, ts[k]) {
                    Some(ret_size) => out.push(Way { func: ts[k], test: Some(k), ret_size }),
                    None => {},
                }
                k = k + 1;
            }
        },
    }
    assert(out@ =~= ways_of(frames@, *root));
    out
}

/// Whether units name only functions of a program.
pub open spec fn within(prog: Program, units: Seq<(String, Vec<usize>)>) -> bool {
    forall|u: int, k: int|
        0 <= u < units.len() && 0 <= k < units[u].1.len() ==> #[trigger] units[u].1[k]
            < prog.funcs.len()
}

/// The frames of a program, where they are within what an offset can reach and the units name only
/// functions of the program: the units can then be selected.
pub fn frames_for(prog: &Program, units: &Vec<(String, Vec<usize>)>) -> (r: Option<Vec<FrameSig>>)
    ensures
        match r {
            Some(fs) => {
                &&& all_fit(*prog) && within(*prog, units@)
                &&& fs.len() == prog.funcs.len()
                &&& forall|i: int|
                    0 <= i < fs.len() ==> is_frame(
                        #[trigger] fs[i],
                        frame_of(prog.tables, prog.funcs[i]),
                    )
                &&& forall|e: Env, u: int|
                    e.prog == *prog && e.frames == fs@ && 0 <= u < units.len() ==> #[trigger]
                        selectable(e, units[u].1@)
            },
            None => !all_fit(*prog) || !within(*prog, units@),
        },
{
    let mut u: usize = 0;
    while u < units.len()
        invariant
            u <= units.len(),
            forall|v: int, k: int|
                0 <= v < u && 0 <= k < units[v].1.len() ==> #[trigger] units[v].1[k]
                    < prog.funcs.len(),
        decreases units.len() - u,
    {
        let ms: &Vec<usize> = &units[u].1;
        let mut k: usize = 0;
        while k < ms.len()
            invariant
                k <= ms.len(),
                u < units.len(),
                *ms == units[u as int].1,
                forall|j: int| 0 <= j < k ==> #[trigger] ms[j] < prog.funcs.len(),
            decreases ms.len() - k,
        {
            if ms[k] >= prog.funcs.len() {
                assert(!(units[u as int].1[k as int] < prog.funcs.len()));
                return None;
            }
            k = k + 1;
        }
        u = u + 1;
    }
    if !frames_fit(prog) {
        return None;
    }
    assert forall|i: int| 0 <= i < prog.funcs.len() implies (#[trigger] frame_of(
        prog.tables,
        prog.funcs[i],
    )).size <= u32::MAX by {
        assert(fits(prog.tables, prog.funcs[i]));
    }
    let fs: Vec<FrameSig> = frame_sigs(prog);
    assert forall|e: Env, u: int|
        e.prog == *prog && e.frames == fs@ && 0 <= u < units.len() implies #[trigger] selectable(
        e,
        units[u].1@,
    ) by {
        let ms = units[u].1@;
        assert forall|k: int| 0 <= k < ms.len() implies (#[trigger] ms[k]) < e.prog.funcs.len()
            && fits_a_frame(e, ms[k] as int) by {
            assert(units[u].1[k] < prog.funcs.len());
            assert(fits(prog.tables, prog.funcs[ms[k] as int]));
            assert(is_frame(fs[ms[k] as int], frame_of(prog.tables, prog.funcs[ms[k] as int])));
        }
    }
    Some(fs)
}

/// Which units are asked for.
pub enum Units {
    All,
    Only(Vec<usize>),
}

impl Units {
    /// Whether a unit is asked for.
    pub open spec fn asks(self, i: usize) -> bool {
        match self {
            Units::All => true,
            Units::Only(v) => v@.contains(i),
        }
    }

    /// Whether a unit is asked for.
    pub fn wants(&self, i: usize) -> (r: bool)
        ensures
            r == self.asks(i),
    {
        match self {
            Units::All => true,
            Units::Only(v) => holds(v, i),
        }
    }
}

/// The units among the first `n` that are asked for.
pub open spec fn asked(units: Units, n: int) -> Seq<usize>
    decreases n,
{
    if n <= 0 {
        Seq::empty()
    } else if units.asks((n - 1) as usize) {
        asked(units, n - 1).push((n - 1) as usize)
    } else {
        asked(units, n - 1)
    }
}

/// The result of one unit.
pub type UnitResult = Result<UnitObject, Vec<String>>;

/// Whether a message is among those of the results.
pub open spec fn reported(rs: Seq<UnitResult>, t: Seq<char>) -> bool {
    exists|k: int|
        0 <= k < rs.len() && (#[trigger] rs[k]) is Err && texts(rs[k]->Err_0@).contains(t)
}

impl<'a> Emission<'a> {
    /// Whether results are those of the units that are asked for among the first `n`, selected as
    /// given.
    pub open spec fn results(
        &self,
        units: Seq<(String, Vec<usize>)>,
        which: Units,
        n: int,
        us: Seq<Un>,
        rs: Seq<UnitResult>,
    ) -> bool {
        let ks = asked(which, n);
        &&& rs.len() == ks.len()
        &&& forall|k: int|
            0 <= k < ks.len() ==> self.gives(
                units[ks[k] as int].0@,
                us[k],
                units[ks[k] as int].1@,
                #[trigger] rs[k],
            )
    }

    /// What the units that are asked for select.
    pub open spec fn selections(
        &self,
        units: Seq<(String, Vec<usize>)>,
        which: Units,
        n: int,
    ) -> Seq<Un> {
        let ks = asked(which, n);
        Seq::new(ks.len(), |k: int| self.selection(units[ks[k] as int].1@))
    }

    /// Whether this is what results come to: the objects, or, where one or more units give none,
    /// what all of them report, in order and each message once.
    pub open spec fn sums_up(rs: Seq<UnitResult>, r: Result<Vec<UnitObject>, Vec<String>>) -> bool {
        match r {
            Ok(out) => {
                &&& out@.len() == rs.len()
                &&& forall|k: int|
                    0 <= k < rs.len() ==> rs[k] == Ok::<UnitObject, Vec<String>>(#[trigger] out@[k])
            },
            Err(es) => {
                &&& exists|k: int| 0 <= k < rs.len() && (#[trigger] rs[k]) is Err
                &&& ascending(texts(es@))
                &&& forall|t: Seq<char>| #[trigger] texts(es@).contains(t) <==> reported(rs, t)
            },
        }
    }

    /// Selects the units that are asked for, in their order, and expands the calls of C functions.
    pub fn select_units(&self, units: &Vec<(String, Vec<usize>)>, which: &Units) -> (r: Vec<Unit>)
        requires
            forall|i: int|
                0 <= i < units.len() ==> selectable(self.env(), (#[trigger] units[i]).1@),
        ensures
            all_expanded(self.selections(units@, *which, units.len() as int), r@),
            enough(units@, asked(*which, units.len() as int), r@),
    {
        let mut out: Vec<Unit> = Vec::new();
        let mut i: usize = 0;
        while i < units.len()
            invariant
                i <= units.len(),
                forall|i: int|
                    0 <= i < units.len() ==> selectable(self.env(), (#[trigger] units[i]).1@),
                out.len() == asked(*which, i as int).len(),
                forall|k: int|
                    0 <= k < out.len() ==> expanded(
                        self.selection(units[asked(*which, i as int)[k] as int].1@),
                        #[trigger] out[k],
                    ),
                enough(units@, asked(*which, i as int), out@),
            decreases units.len() - i,
        {
            if which.wants(i) {
                let ghost ks = asked(*which, i as int);
                let ghost before = out@;
                let u: Unit = self.select(&units[i].1).expand_calls();
                out.push(u);
                assert(asked(*which, i + 1) == ks.push(i));
                assert forall|k: int| 0 <= k < out.len() implies expanded(
                    self.selection(units[asked(*which, i + 1)[k] as int].1@),
                    #[trigger] out[k],
                ) && out[k].bodies.len() >= units[asked(*which, i + 1)[k] as int].1.len() by {
                    if k < ks.len() {
                        assert(out[k] == before[k]);
                    }
                }
            }
            i = i + 1;
        }
        out
    }

    /// Makes the objects of the units that are asked for, in their order, from what they select.
    /// Where one or more give no object, what all of them report is given, in order and each message
    /// once.
    pub fn emit_selected(
        &self,
        units: &Vec<(String, Vec<usize>)>,
        which: &Units,
        chosen: Vec<Unit>,
    ) -> (r: Result<Vec<UnitObject>, Vec<String>>)
        requires
            enough(units@, asked(*which, units.len() as int), chosen@),
        ensures
            exists|rs: Seq<UnitResult>| #[trigger]
                self.results(units@, *which, units.len() as int, selected(chosen@), rs)
                    && Self::sums_up(rs, r),
    {
        let mut left: Vec<Unit> = chosen;
        let mut out: Vec<UnitObject> = Vec::new();
        let mut errors: Vec<String> = Vec::new();
        let mut failed: bool = false;
        let ghost us = selected(chosen@);
        let ghost all = asked(*which, units.len() as int);
        let ghost mut rs: Seq<UnitResult> = Seq::empty();
        assert(texts(errors@) =~= Seq::empty());
        assert(chosen@.skip(0) =~= chosen@);
        let mut i: usize = 0;
        while i < units.len()
            invariant
                i <= units.len(),
                all == asked(*which, units.len() as int),
                us == selected(chosen@),
                enough(units@, all, chosen@),
                asked(*which, i as int).len() <= all.len(),
                left@ == chosen@.skip(asked(*which, i as int).len() as int),
                self.results(units@, *which, i as int, us, rs),
                !failed ==> out@.len() == rs.len() && forall|k: int|
                    0 <= k < rs.len() ==> rs[k] == Ok::<UnitObject, Vec<String>>(
                        #[trigger] out@[k],
                    ),
                failed ==> exists|k: int| 0 <= k < rs.len() && (#[trigger] rs[k]) is Err,
                forall|t: Seq<char>| #[trigger]
                    texts(errors@).contains(t) <==> reported(rs, t),
            decreases units.len() - i,
        {
            proof {
                lemma_asked_grows(*which, i as int + 1, units.len() as int);
            }
            if which.wants(i) {
                let ghost before = rs;
                let ghost ks = asked(*which, i as int);
                assert(asked(*which, i + 1) == ks.push(i));
                assert(all[ks.len() as int] == i);
                assert(left@[0] == chosen@[ks.len() as int]);
                let unit: Unit = left.remove(0);
                assert(left@ =~= chosen@.skip(ks.len() as int + 1));
                assert(unit@ == us[ks.len() as int]);
                let u: UnitResult = self.compile_selected(units[i].0.as_str(), &units[i].1, unit);
                proof {
                    rs = before.push(u);
                    self.lemma_one_more(units@, *which, i as int, us, before, u);
                    lemma_reported_push(before, u);
                    assert(rs[before.len() as int] == u);
                    assert(failed ==> exists|k: int| 0 <= k < rs.len() && (#[trigger] rs[k]) is Err)
                        by {
                        if failed {
                            let k = choose|k: int|
                                0 <= k < before.len() && (#[trigger] before[k]) is Err;
                            assert(rs[k] is Err);
                        }
                    }
                }
                match u {
                    Ok(u) => out.push(u),
                    Err(e) => {
                        join(&mut errors, e);
                        failed = true;
                    },
                }
            }
            i = i + 1;
        }
        if failed {
            let es: Vec<String> = tidy(&errors);
            assert(self.results(units@, *which, units.len() as int, us, rs));
            return Err(es);
        }
        assert(self.results(units@, *which, units.len() as int, us, rs));
        Ok(out)
    }

    /// Emits the units that are asked for, in their order, with the calls of C functions expanded.
    /// Where one or more give no object, what all of them report is given, in order and each message
    /// once.
    pub fn emit_units(&self, units: &Vec<(String, Vec<usize>)>, which: &Units) -> (r: Result<
        Vec<UnitObject>,
        Vec<String>,
    >)
        requires
            forall|i: int|
                0 <= i < units.len() ==> selectable(self.env(), (#[trigger] units[i]).1@),
        ensures
            exists|us: Seq<Unit>, rs: Seq<UnitResult>|
                #![trigger self.results(units@, *which, units.len() as int, selected(us), rs)]
                all_expanded(self.selections(units@, *which, units.len() as int), us)
                    && self.results(units@, *which, units.len() as int, selected(us), rs)
                    && Self::sums_up(rs, r),
    {
        let chosen: Vec<Unit> = self.select_units(units, which);
        self.emit_selected(units, which, chosen)
    }
}

/// Whether units are others in which the calls of C functions have been expanded.
pub open spec fn all_expanded(ss: Seq<Un>, us: Seq<Unit>) -> bool {
    ss.len() == us.len() && forall|k: int|
        0 <= k < us.len() ==> expanded(ss[k], #[trigger] us[k])
}

/// Selected units, as values.
pub open spec fn selected(v: Seq<Unit>) -> Seq<Un> {
    v.map_values(|u: Unit| u@)
}

/// Whether there is one selected unit for each of the given ones, with a body for each of its
/// members.
pub open spec fn enough(units: Seq<(String, Vec<usize>)>, ks: Seq<usize>, us: Seq<Unit>) -> bool {
    &&& us.len() == ks.len()
    &&& forall|k: int|
        0 <= k < us.len() ==> (#[trigger] us[k]).bodies.len() >= units[ks[k] as int].1.len()
}

/// The units asked for among the first ones come first among those asked for of more.
proof fn lemma_asked_grows(which: Units, i: int, n: int)
    requires
        i <= n,
    ensures
        asked(which, i).len() <= asked(which, n).len(),
        forall|k: int|
            0 <= k < asked(which, i).len() ==> #[trigger] asked(which, n)[k] == asked(which, i)[k],
    decreases n - i,
{
    if i < n {
        lemma_asked_grows(which, i, n - 1);
    }
}

impl<'a> Emission<'a> {
    proof fn lemma_one_more(
        &self,
        units: Seq<(String, Vec<usize>)>,
        which: Units,
        i: int,
        us: Seq<Un>,
        rs: Seq<UnitResult>,
        u: UnitResult,
    )
        requires
            0 <= i < units.len(),
            i < usize::MAX,
            which.asks(i as usize),
            self.results(units, which, i, us, rs),
            self.gives(units[i].0@, us[asked(which, i).len() as int], units[i].1@, u),
        ensures
            self.results(units, which, i + 1, us, rs.push(u)),
    {
        let ks = asked(which, i);
        let all = asked(which, i + 1);
        assert(all == ks.push(i as usize));
        assert forall|k: int| 0 <= k < all.len() implies self.gives(
            units[all[k] as int].0@,
            us[k],
            units[all[k] as int].1@,
            #[trigger] rs.push(u)[k],
        ) by {
            if k < ks.len() {
                assert(rs.push(u)[k] == rs[k]);
                assert(all[k] == ks[k]);
            }
        }
    }
}

fn join(all: &mut Vec<String>, more: Vec<String>)
    ensures
        forall|t: Seq<char>| #[trigger]
            texts(final(all)@).contains(t) <==> texts(old(all)@).contains(t) || texts(
                more@,
            ).contains(t),
{
    let ghost a = texts(all@);
    let ghost b = texts(more@);
    let mut e: Vec<String> = more;
    all.append(&mut e);
    proof {
        assert(texts(all@) =~= a + b);
        assert forall|t: Seq<char>| #[trigger]
            texts(all@).contains(t) <==> a.contains(t) || b.contains(t) by {
            lemma_either(a, b, t);
        }
    }
}

proof fn lemma_either(a: Seq<Seq<char>>, b: Seq<Seq<char>>, t: Seq<char>)
    ensures
        (a + b).contains(t) <==> a.contains(t) || b.contains(t),
{
    if (a + b).contains(t) {
        let k = choose|k: int| 0 <= k < (a + b).len() && (a + b)[k] == t;
        if k < a.len() {
            assert(a[k] == t);
        } else {
            assert(b[k - a.len()] == t);
        }
    }
    if a.contains(t) {
        let k = choose|k: int| 0 <= k < a.len() && a[k] == t;
        assert((a + b)[k] == t);
    }
    if b.contains(t) {
        let k = choose|k: int| 0 <= k < b.len() && b[k] == t;
        assert((a + b)[k + a.len()] == t);
    }
}

proof fn lemma_reported_push(rs: Seq<UnitResult>, r: UnitResult)
    ensures
        forall|t: Seq<char>| #[trigger]
            reported(rs.push(r), t) <==> reported(rs, t) || (r is Err && texts(
                r->Err_0@,
            ).contains(t)),
{
    let all = rs.push(r);
    assert forall|t: Seq<char>| #[trigger]
        reported(all, t) <==> reported(rs, t) || (r is Err && texts(r->Err_0@).contains(t)) by {
        if reported(all, t) {
            let k = choose|k: int|
                0 <= k < all.len() && (#[trigger] all[k]) is Err && texts(
                    all[k]->Err_0@,
                ).contains(t);
            if k < rs.len() {
                assert(rs[k] is Err);
            }
        }
        if reported(rs, t) {
            let k = choose|k: int|
                0 <= k < rs.len() && (#[trigger] rs[k]) is Err && texts(rs[k]->Err_0@).contains(t);
            assert(all[k] is Err);
        }
        if r is Err && texts(r->Err_0@).contains(t) {
            assert(all[rs.len() as int] is Err);
        }
    }
}

/// The keys that nothing implements, in order and each once: those among `keys` that the backend has
/// no body for, and those of `gap`, which no backend can answer on this toolchain.
pub fn missing_intrinsics(tables: &Tables, keys: &Vec<String>, gap: &Vec<String>) -> (r: Vec<String>)
    ensures
        ascending(texts(r@)),
        forall|t: Seq<char>| #[trigger]
            texts(r@).contains(t) <==> (texts(keys@).contains(t) && !has_body(*tables, t))
                || texts(gap@).contains(t),
{
    let mut out: Vec<String> = Vec::new();
    let ghost all = texts(keys@);
    let ghost more = texts(gap@);
    let mut i: usize = 0;
    while i < keys.len()
        invariant
            i <= keys.len(),
            all == texts(keys@),
            forall|t: Seq<char>| #[trigger]
                texts(out@).contains(t) <==> all.subrange(0, i as int).contains(t) && !has_body(
                    *tables,
                    t,
                ),
        decreases keys.len() - i,
    {
        let ghost before = texts(out@);
        let ghost k = keys[i as int]@;
        if !implemented(tables, keys[i].as_str()) {
            out.push(own(keys[i].as_str()));
            assert(texts(out@) =~= before + seq![k]);
        } else {
            assert(texts(out@) =~= before + Seq::empty());
        }
        proof {
            assert(all.subrange(0, i + 1) =~= all.subrange(0, i as int) + seq![k]);
            assert forall|t: Seq<char>| #[trigger]
                texts(out@).contains(t) <==> all.subrange(0, i + 1).contains(t) && !has_body(
                    *tables,
                    t,
                ) by {
                lemma_either(all.subrange(0, i as int), seq![k], t);
                lemma_either(before, seq![k], t);
                assert(seq![k].contains(t) <==> t == k) by {
                    assert(seq![k][0] == k);
                }
            }
        }
        i = i + 1;
    }
    assert(all.subrange(0, keys.len() as int) =~= all);
    let ghost mine = texts(out@);
    let mut g: usize = 0;
    while g < gap.len()
        invariant
            g <= gap.len(),
            more == texts(gap@),
            texts(out@) == mine + more.subrange(0, g as int),
        decreases gap.len() - g,
    {
        let ghost before = texts(out@);
        out.push(own(gap[g].as_str()));
        assert(texts(out@) =~= before.push(more[g as int]));
        g = g + 1;
        assert(texts(out@) =~= mine + more.subrange(0, g as int));
    }
    assert(more.subrange(0, gap.len() as int) =~= more);
    proof {
        assert forall|t: Seq<char>| #[trigger]
            texts(out@).contains(t) <==> (all.contains(t) && !has_body(*tables, t))
                || more.contains(t) by {
            lemma_either(mine, more, t);
        }
    }
    tidy(&out)
}

/// How many names the doors from door `i` on bring along.
pub open spec fn door_names(ds: Seq<(Seq<char>, Piece)>, i: int) -> nat
    decreases ds.len() - i,
{
    if i >= ds.len() {
        0
    } else {
        1 + ds[i].1.relocs.len() + door_names(ds, i + 1)
    }
}

impl Ob {
    proof fn lemma_doors_keep_the_table(self, prog: Program, ds: Seq<(Seq<char>, Piece)>, i: int)
        requires
            0 <= i,
            self.wf(),
            self.syms.len() + door_names(ds, i) < usize::MAX,
        ensures
            self.doors(prog, ds, i).wf(),
            self.doors(prog, ds, i).syms.len() <= self.syms.len() + door_names(ds, i),
        decreases ds.len() - i,
    {
        if i < ds.len() {
            self.a_block_keeps_the_table(prog, ds[i].0, ds[i].1);
            self.shim(prog, ds[i].0, ds[i].1).lemma_doors_keep_the_table(prog, ds, i + 1);
        }
    }
}

/// In an object every symbol has a name of its own, and every relocation names one of the symbols.
pub proof fn a_relocation_of_an_object_names_a_symbol(
    target: Tgt,
    prog: Program,
    ms: Seq<usize>,
    entries: Seq<u64>,
    helpers: Seq<(Seq<char>, u64)>,
    rg: Rg,
    entry: Option<Piece>,
    doors: Seq<(Seq<char>, Piece)>,
)
    requires
        ms.len() + helpers.len() + rg.relocs.len() + rg.targets.len() + (match entry {
            None => 0,
            Some(p) => p.relocs.len() + door_names(doors, 0),
        }) + 3 < usize::MAX,
    ensures
        ({
            let pt = whole_object(
                target,
                prog,
                bare_object(prog, ms, entries, helpers, rg),
                rg.pool,
                entry,
                doors,
            );
            &&& forall|i: int, j: int|
                0 <= i < j < pt.syms.len() ==> (#[trigger] pt.syms[i]).name != (
                #[trigger] pt.syms[j]).name
            &&& forall|k: int|
                0 <= k < pt.relocs.len() ==> (#[trigger] pt.relocs[k]).symbol < pt.syms.len()
        }),
{
    let start = Ob { code: rg.code, syms: Seq::empty(), relocs: Seq::empty() };
    let pool = rg.targets.map_values(|t: (u64, Tg)| slot_rel(t));
    assert(start.wf());
    start.a_unit_names_every_symbol_once(prog, ms, entries, helpers, rg.relocs, pool);
    let o = bare_object(prog, ms, entries, helpers, rg);
    match entry {
        None => {},
        Some(p) => {
            o.a_block_keeps_the_table(prog, ENTRY_SYMBOL@, p);
            let b = o.shim(prog, ENTRY_SYMBOL@, p);
            b.lemma_doors_keep_the_table(prog, doors, 0);
            b.doors(prog, doors, 0).a_definition_keeps_the_table(
                STACK_SYMBOL@,
                STACK,
                0,
                false,
            );
        },
    }
}

/// Whether a hand-written block stands in an object at `at`, whole and on a multiple of sixteen, and
/// its symbol is defined there.
pub open spec fn stands(o: Ob, name: Seq<char>, p: Piece, at: int) -> bool {
    &&& 0 <= at && at + p.bytes.len() <= o.code.len()
    &&& at % 16 == 0
    &&& o.code.subrange(at, at + p.bytes.len()) == p.bytes
    &&& exists|s: int|
        0 <= s < o.syms.len() && (#[trigger] o.syms[s]).name == name && o.syms[s].defined == Some(
            Definition { section: CODE, offset: at as u64 },
        )
}

impl Ob {
    proof fn lemma_rels_keep_definitions(self, prog: Program, at: u64, rs: Seq<Sr>, i: int)
        requires
            0 <= i,
        ensures
            self.shim_rels(prog, at, rs, i).code == self.code,
            self.syms.len() <= self.shim_rels(prog, at, rs, i).syms.len(),
            forall|s: int|
                0 <= s < self.syms.len() ==> #[trigger] self.shim_rels(prog, at, rs, i).syms[s]
                    == self.syms[s],
        decreases rs.len() - i,
    {
        if i < rs.len() {
            let n = self.reloc(
                CODE,
                moved(at, rs[i].at),
                rs[i].kind,
                name_text(prog, rs[i].target),
                rs[i].addend,
            );
            n.lemma_rels_keep_definitions(prog, at, rs, i + 1);
            let now = self.shim_rels(prog, at, rs, i);
            assert forall|s: int| 0 <= s < self.syms.len() implies #[trigger] now.syms[s]
                == self.syms[s] by {
                assert(now.syms[s] == n.syms[s]);
            }
        }
    }

    proof fn lemma_block_stands(self, prog: Program, name: Seq<char>, p: Piece) -> (at: int)
        requires
            self.wf(),
            self.syms.len() < usize::MAX,
        ensures
            at >= self.code.len(),
            stands(self.shim(prog, name, p), name, p, at),
    {
        let code = self.code + zeros(gap(self.code.len(), 16));
        let at = code.len() as u64;
        a_gap_ends_on_a_multiple(self.code.len(), 16);
        let o = Ob { code: code + p.bytes, ..self };
        o.lemma_want(name);
        let d = o.define(name, CODE, at, false);
        d.lemma_rels_keep_definitions(prog, at, p.relocs, 0);
        let now = self.shim(prog, name, p);
        let s = o.index(name) as int;
        assert(now.syms[s] == d.syms[s]);
        let start = code.len() as int;
        assert(now.code.subrange(start, start + p.bytes.len()) =~= p.bytes);
        start
    }

    proof fn lemma_block_stays(
        self,
        prog: Program,
        name: Seq<char>,
        p: Piece,
        at: int,
        other: Seq<char>,
        q: Piece,
    )
        requires
            self.wf(),
            self.syms.len() < usize::MAX,
            stands(self, name, p, at),
            other != name,
        ensures
            stands(self.shim(prog, other, q), name, p, at),
    {
        let code = self.code + zeros(gap(self.code.len(), 16));
        let o = Ob { code: code + q.bytes, ..self };
        o.lemma_want(other);
        let d = o.define(other, CODE, code.len() as u64, false);
        d.lemma_rels_keep_definitions(prog, code.len() as u64, q.relocs, 0);
        let now = self.shim(prog, other, q);
        let s = choose|s: int|
            0 <= s < self.syms.len() && (#[trigger] self.syms[s]).name == name
                && self.syms[s].defined == Some(Definition { section: CODE, offset: at as u64 });
        assert(o.want(other).syms[s] == self.syms[s]);
        assert(s != o.index(other));
        assert(d.syms[s] == self.syms[s]);
        assert(now.syms[s] == d.syms[s]);
        assert(now.code.subrange(at, at + p.bytes.len()) =~= self.code.subrange(
            at,
            at + p.bytes.len(),
        ));
    }

    proof fn lemma_block_stays_behind_doors(
        self,
        prog: Program,
        name: Seq<char>,
        p: Piece,
        at: int,
        ds: Seq<(Seq<char>, Piece)>,
        i: int,
    )
        requires
            0 <= i,
            self.wf(),
            self.syms.len() + door_names(ds, i) < usize::MAX,
            stands(self, name, p, at),
            forall|k: int| i <= k < ds.len() ==> (#[trigger] ds[k]).0 != name,
        ensures
            stands(self.doors(prog, ds, i), name, p, at),
        decreases ds.len() - i,
    {
        if i < ds.len() {
            self.lemma_block_stays(prog, name, p, at, ds[i].0, ds[i].1);
            self.a_block_keeps_the_table(prog, ds[i].0, ds[i].1);
            self.shim(prog, ds[i].0, ds[i].1).lemma_block_stays_behind_doors(
                prog,
                name,
                p,
                at,
                ds,
                i + 1,
            );
        }
    }

    proof fn lemma_door_stands(self, prog: Program, ds: Seq<(Seq<char>, Piece)>, i: int, k: int)
        requires
            0 <= i <= k < ds.len(),
            self.wf(),
            self.syms.len() + door_names(ds, i) < usize::MAX,
            forall|x: int, y: int|
                0 <= x < y < ds.len() ==> (#[trigger] ds[x]).0 != (#[trigger] ds[y]).0,
        ensures
            exists|at: int|
                at >= self.code.len() && #[trigger] stands(
                    self.doors(prog, ds, i),
                    ds[k].0,
                    ds[k].1,
                    at,
                ),
        decreases ds.len() - i,
    {
        let n = self.shim(prog, ds[i].0, ds[i].1);
        self.a_block_keeps_the_table(prog, ds[i].0, ds[i].1);
        let at = self.lemma_block_stands(prog, ds[i].0, ds[i].1);
        if i == k {
            n.lemma_block_stays_behind_doors(prog, ds[i].0, ds[i].1, at, ds, i + 1);
            assert(self.doors(prog, ds, i) == n.doors(prog, ds, i + 1));
            assert(stands(self.doors(prog, ds, i), ds[k].0, ds[k].1, at));
        } else {
            n.lemma_door_stands(prog, ds, i + 1, k);
            let b = choose|b: int|
                b >= n.code.len() && #[trigger] stands(
                    n.doors(prog, ds, i + 1),
                    ds[k].0,
                    ds[k].1,
                    b,
                );
            assert(self.doors(prog, ds, i) == n.doors(prog, ds, i + 1));
            assert(stands(self.doors(prog, ds, i), ds[k].0, ds[k].1, b));
        }
    }

    /// The entry point and the doors behind it stand in the code, each whole and on a multiple of
    /// sixteen, behind what was there, and the symbol of each is defined where it stands.
    pub proof fn every_door_stands_behind_the_code(
        self,
        prog: Program,
        p: Piece,
        ds: Seq<(Seq<char>, Piece)>,
        k: int,
    )
        requires
            self.wf(),
            self.syms.len() + p.relocs.len() + 1 + door_names(ds, 0) < usize::MAX,
            forall|x: int, y: int|
                0 <= x < y < ds.len() ==> (#[trigger] ds[x]).0 != (#[trigger] ds[y]).0,
            forall|x: int| 0 <= x < ds.len() ==> (#[trigger] ds[x]).0 != ENTRY_SYMBOL@,
            0 <= k < ds.len(),
        ensures
            exists|at: int, door: int|
                self.code.len() <= at <= door && #[trigger] stands(
                    self.shim(prog, ENTRY_SYMBOL@, p).doors(prog, ds, 0),
                    ENTRY_SYMBOL@,
                    p,
                    at,
                ) && #[trigger] stands(
                    self.shim(prog, ENTRY_SYMBOL@, p).doors(prog, ds, 0),
                    ds[k].0,
                    ds[k].1,
                    door,
                ),
    {
        let n = self.shim(prog, ENTRY_SYMBOL@, p);
        self.a_block_keeps_the_table(prog, ENTRY_SYMBOL@, p);
        let at = self.lemma_block_stands(prog, ENTRY_SYMBOL@, p);
        n.lemma_block_stays_behind_doors(prog, ENTRY_SYMBOL@, p, at, ds, 0);
        n.lemma_door_stands(prog, ds, 0, k);
        let door = choose|b: int|
            b >= n.code.len() && #[trigger] stands(n.doors(prog, ds, 0), ds[k].0, ds[k].1, b);
        assert(at <= door);
        assert(stands(n.doors(prog, ds, 0), ENTRY_SYMBOL@, p, at));
    }
}

/// Every root that takes nothing has a door, and no other root has one.
pub proof fn every_nullary_root_has_a_door(frames: Seq<FrameSig>, root: Root, w: Way)
    ensures
        ways_of(frames, root).contains(w) <==> door_of(frames, w.func) == Some(w.ret_size)
            && match root {
            Root::Main(i) => w.func == i && w.test is None,
            Root::Tests(ts) => w.test matches Some(k) && k < ts@.len() && w.func == ts@[k as int],
        },
{
    match root {
        Root::Main(i) => {
            if door_of(frames, i) is Some {
                assert(ways_of(frames, root)[0] == (Way {
                    func: i,
                    test: None,
                    ret_size: door_of(frames, i)->0,
                }));
            }
        },
        Root::Tests(ts) => {
            assert(ts@.len() == ts.len());
            lemma_test_ways(frames, ts@, ts@.len() as int, w);
        },
    }
}

proof fn lemma_test_ways(frames: Seq<FrameSig>, ts: Seq<usize>, n: int, w: Way)
    requires
        0 <= n <= ts.len() <= usize::MAX,
    ensures
        test_ways(frames, ts, n).contains(w) <==> door_of(frames, w.func) == Some(w.ret_size)
            && (w.test matches Some(k) && k < n && w.func == ts[k as int]),
    decreases n,
{
    if n > 0 {
        lemma_test_ways(frames, ts, n - 1, w);
        let before = test_ways(frames, ts, n - 1);
        let all = test_ways(frames, ts, n);
        match door_of(frames, ts[n - 1]) {
            Some(ret_size) => {
                let last = Way { func: ts[n - 1], test: Some((n - 1) as usize), ret_size };
                assert(all == before.push(last));
                assert(all.contains(w) <==> before.contains(w) || w == last) by {
                    if before.contains(w) {
                        let k = choose|k: int| 0 <= k < before.len() && before[k] == w;
                        assert(all[k] == w);
                    }
                    if w == last {
                        assert(all[before.len() as int] == w);
                    }
                    if all.contains(w) && w != last {
                        let k = choose|k: int| 0 <= k < all.len() && all[k] == w;
                        assert(before[k] == w);
                    }
                }
            },
            None => {},
        }
    }
}

/// A unit gives one object: whichever way the calls in it are expanded, its parts are the same.
pub proof fn a_unit_gives_one_object(em: Emission, ms: Seq<usize>, a: Unit, b: Unit)
    requires
        expanded(em.selection(ms), a),
        expanded(em.selection(ms), b),
    ensures
        em.parts_of(a@, ms) == em.parts_of(b@, ms),
{
    an_expansion_is_assembled_one_way(
        As {
            rg: Rg {
                code: Seq::empty(),
                pool: Seq::empty(),
                targets: Seq::empty(),
                index: Map::empty(),
                relocs: Seq::empty(),
            },
            fixups: Seq::empty(),
            lits: Seq::empty(),
        },
        *em.lib,
        em.selection(ms),
        a,
        b,
    );
}

/// What was refused never reaches an object: a unit that gives one holds no body in which something
/// was refused. It has a body for each of its functions and for each helper that they ask for.
pub proof fn an_object_holds_nothing_refused(em: Emission, ms: Seq<usize>, u: Unit)
    requires
        expanded(em.selection(ms), u),
        em.parts_of(u@, ms) is Ok,
        em.selection(ms).helpers.len() < usize::MAX,
    ensures
        forall|i: int|
            0 <= i < em.selection(ms).bodies.len() ==> !(#[trigger] em.selection(
                ms,
            ).bodies[i]).dirty,
        em.selection(ms).bodies.len() == ms.len() + em.selection(ms).helpers.len(),
{
    let none = Un {
        bodies: Seq::empty(),
        helpers: Seq::empty(),
        reasons: Seq::empty(),
        lits: Seq::empty(),
        loops: Seq::empty(),
    };
    members_only_add(none, em.env(), ms, 0);
    every_helper_is_generated(none.members(em.env(), ms, 0), em.env(), 0);
}

} // verus!
