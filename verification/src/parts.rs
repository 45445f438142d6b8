//! The parts of a unit's object: its symbols, its relocations and its sections.
//!
//! A symbol is in the table once, however often it is named. What the unit emits for others is
//! global; what it generates for itself, and the anchor of its constant pool, is local.

use crate::a64::{Piece, Shim, Sr};
use crate::bytes::{append, gap, pad, zeros};
use crate::ir::Program;
use crate::jit::{symbol_of, symbol_text};
use crate::object::{Definition, RelKind, Reloc, Symbol};
use crate::region::{self, RelocKind, Rl, Target, Tg};
use crate::text::{own, same};
use vstd::prelude::*;

verus! {

/// The symbol that every offset into the constant pool is measured from.
pub const POOL_ANCHOR: &'static str = "buri$stencil$pool";

/// The sections of a unit's object, in their order.
pub const CODE: usize = 0;

pub const POOL: usize = 1;

pub const STACK: usize = 2;

/// A symbol, as a value.
pub struct Sy {
    pub name: Seq<char>,
    pub defined: Option<Definition>,
    pub global: bool,
}

impl View for Symbol {
    type V = Sy;

    open spec fn view(&self) -> Sy {
        Sy { name: self.name@, defined: self.defined, global: self.global }
    }
}

/// Symbols, as values.
pub open spec fn syms(v: Seq<Symbol>) -> Seq<Sy> {
    v.map_values(|s: Symbol| s@)
}

/// The first index of a name, from index `i` on.
pub open spec fn named(t: Seq<Sy>, name: Seq<char>, i: int) -> Option<int>
    decreases t.len() - i,
{
    if i >= t.len() {
        None
    } else if t[i].name == name {
        Some(i)
    } else {
        named(t, name, i + 1)
    }
}

/// What an object is made of while it is put together: its code, its symbols and its relocations.
pub struct Ob {
    pub code: Seq<u8>,
    pub syms: Seq<Sy>,
    pub relocs: Seq<Reloc>,
}

/// The relocation kinds of an object.
pub open spec fn kind_of(k: RelocKind) -> RelKind {
    match k {
        RelocKind::Branch26 => RelKind::Branch26,
        RelocKind::Abs64 => RelKind::Abs64,
        RelocKind::Page21 => RelKind::Page21,
        RelocKind::PageOff12 => RelKind::PageOff12,
        RelocKind::Rel32 => RelKind::Rel32,
        RelocKind::Pc32 => RelKind::Pc32,
    }
}

/// The symbol that a target is named by.
pub open spec fn name_text(prog: Program, t: Tg) -> Seq<char> {
    match t {
        Tg::Func(f) => symbol_text(prog, f),
        Tg::Symbol(s) => s,
        Tg::Here(_) => POOL_ANCHOR@,
        Tg::Pool => POOL_ANCHOR@,
    }
}

impl Ob {
    /// The index of a name, once it is in the table.
    pub open spec fn index(self, name: Seq<char>) -> usize {
        match named(self.syms, name, 0) {
            Some(i) => i as usize,
            None => self.syms.len() as usize,
        }
    }

    /// A name put into the table, where it is not already: undefined, and global.
    pub open spec fn want(self, name: Seq<char>) -> Ob {
        match named(self.syms, name, 0) {
            Some(i) => self,
            None => Ob { syms: self.syms.push(Sy { name, defined: None, global: true }), ..self },
        }
    }

    /// A name defined, and made local where it is the unit's own.
    pub open spec fn define(self, name: Seq<char>, section: usize, offset: u64, local: bool) -> Ob {
        let o = self.want(name);
        let i = self.index(name) as int;
        Ob {
            syms: o.syms.update(
                i,
                Sy {
                    name: o.syms[i].name,
                    defined: Some(Definition { section, offset }),
                    global: o.syms[i].global && !local,
                },
            ),
            ..o
        }
    }

    /// A relocation against a name.
    pub open spec fn reloc(
        self,
        section: usize,
        offset: u64,
        kind: RelKind,
        name: Seq<char>,
        addend: i64,
    ) -> Ob {
        let o = self.want(name);
        Ob {
            relocs: o.relocs.push(
                Reloc { section, offset, kind, symbol: self.index(name), addend },
            ),
            ..o
        }
    }

    /// The unit's functions, from member `i` on.
    pub open spec fn members(self, prog: Program, ms: Seq<usize>, at: Seq<u64>, i: int) -> Ob
        decreases ms.len() - i,
    {
        if i >= ms.len() {
            self
        } else {
            self.define(symbol_text(prog, ms[i] as u32), CODE, at[i], false).members(
                prog,
                ms,
                at,
                i + 1,
            )
        }
    }

    /// The functions the unit generated, by name and address, from helper `i` on.
    pub open spec fn helpers(self, hs: Seq<(Seq<char>, u64)>, i: int) -> Ob
        decreases hs.len() - i,
    {
        if i >= hs.len() {
            self
        } else {
            self.define(hs[i].0, CODE, hs[i].1, true).helpers(hs, i + 1)
        }
    }

    /// The relocations of a section, from relocation `i` on.
    pub open spec fn rels(self, prog: Program, section: usize, rs: Seq<Rl>, i: int) -> Ob
        decreases rs.len() - i,
    {
        if i >= rs.len() {
            self
        } else {
            self.reloc(
                section,
                rs[i].at,
                kind_of(rs[i].kind),
                name_text(prog, rs[i].target),
                rs[i].addend,
            ).rels(prog, section, rs, i + 1)
        }
    }

    /// The relocations of a hand-written block at `at`, from relocation `i` on.
    pub open spec fn shim_rels(self, prog: Program, at: u64, rs: Seq<Sr>, i: int) -> Ob
        decreases rs.len() - i,
    {
        if i >= rs.len() {
            self
        } else {
            self.reloc(
                CODE,
                moved(at, rs[i].at),
                rs[i].kind,
                name_text(prog, rs[i].target),
                rs[i].addend,
            ).shim_rels(prog, at, rs, i + 1)
        }
    }

    /// A hand-written block, behind the code and on a multiple of sixteen.
    pub open spec fn shim(self, prog: Program, name: Seq<char>, p: Piece) -> Ob {
        let code = self.code + zeros(gap(self.code.len(), 16));
        let at = code.len() as u64;
        Ob { code: code + p.bytes, ..self }.define(name, CODE, at, false).shim_rels(
            prog,
            at,
            p.relocs,
            0,
        )
    }
}

/// Names and addresses, as values.
pub open spec fn places(v: Seq<(String, u64)>) -> Seq<(Seq<char>, u64)> {
    v.map_values(|p: (String, u64)| (p.0@, p.1))
}

/// An offset moved, up to the largest.
pub open spec fn moved(at: u64, by: u64) -> u64 {
    if at + by > u64::MAX {
        u64::MAX
    } else {
        (at + by) as u64
    }
}

/// What an object is made of while it is put together.
pub struct Object {
    pub code: Vec<u8>,
    pub symbols: Vec<Symbol>,
    pub relocs: Vec<Reloc>,
}

impl View for Object {
    type V = Ob;

    open spec fn view(&self) -> Ob {
        Ob { code: self.code@, syms: syms(self.symbols@), relocs: self.relocs@ }
    }
}

/// The kind of an object's relocation.
pub fn object_kind(k: RelocKind) -> (r: RelKind)
    ensures
        r == kind_of(k),
{
    match k {
        RelocKind::Branch26 => RelKind::Branch26,
        RelocKind::Abs64 => RelKind::Abs64,
        RelocKind::Page21 => RelKind::Page21,
        RelocKind::PageOff12 => RelKind::PageOff12,
        RelocKind::Rel32 => RelKind::Rel32,
        RelocKind::Pc32 => RelKind::Pc32,
    }
}

/// The symbol that a target is named by.
pub fn name_of(prog: &Program, t: &Target) -> (r: String)
    ensures
        r@ == name_text(*prog, t@),
{
    match t {
        Target::Func(f) => symbol_of(prog, *f),
        Target::Symbol(s) => own(s.as_str()),
        Target::Here(_) => own(POOL_ANCHOR),
        Target::Pool => own(POOL_ANCHOR),
    }
}

proof fn lemma_named(t: Seq<Sy>, name: Seq<char>, i: int)
    requires
        0 <= i,
    ensures
        match named(t, name, i) {
            Some(k) => i <= k < t.len() && t[k].name == name,
            None => forall|k: int| i <= k < t.len() ==> (#[trigger] t[k]).name != name,
        },
    decreases t.len() - i,
{
    if i < t.len() && t[i].name != name {
        lemma_named(t, name, i + 1);
    }
}

impl Object {
    /// The index of a name, which is put into the table where it is not already.
    pub fn want(&mut self, name: &str) -> (r: usize)
        ensures
            r == old(self)@.index(name@),
            final(self)@ == old(self)@.want(name@),
            r < final(self).symbols.len(),
    {
        let mut i: usize = 0;
        while i < self.symbols.len()
            invariant
                i <= self.symbols.len(),
                *self == *old(self),
                named(self@.syms, name@, 0) == named(self@.syms, name@, i as int),
            decreases self.symbols.len() - i,
        {
            assert(self@.syms[i as int] == self.symbols[i as int]@);
            if same(self.symbols[i].name.as_str(), name) {
                return i;
            }
            i = i + 1;
        }
        let n: usize = self.symbols.len();
        self.symbols.push(Symbol { name: own(name), defined: None, global: true });
        assert(self@.syms =~= old(self)@.syms.push(Sy { name: name@, defined: None, global: true }));
        n
    }

    /// Defines a name.
    pub fn define(&mut self, name: &str, section: usize, offset: u64, local: bool)
        ensures
            final(self)@ == old(self)@.define(name@, section, offset, local),
    {
        let i: usize = self.want(name);
        let ghost between = self@;
        let n: String = own(self.symbols[i].name.as_str());
        let global: bool = self.symbols[i].global && !local;
        let ghost v = self.symbols[i as int]@;
        assert(between.syms[i as int] == v);
        self.symbols.set(
            i,
            Symbol { name: n, defined: Some(Definition { section, offset }), global },
        );
        assert(self@.syms =~= old(self)@.define(name@, section, offset, local).syms);
    }

    /// Adds a relocation against a name.
    pub fn reloc(&mut self, section: usize, offset: u64, kind: RelKind, name: &str, addend: i64)
        ensures
            final(self)@ == old(self)@.reloc(section, offset, kind, name@, addend),
    {
        let symbol: usize = self.want(name);
        self.relocs.push(Reloc { section, offset, kind, symbol, addend });
    }

    /// Defines the unit's functions at their addresses.
    pub fn members(&mut self, prog: &Program, ms: &Vec<usize>, at: &Vec<u64>)
        requires
            at.len() == ms.len(),
        ensures
            final(self)@ == old(self)@.members(*prog, ms@, at@, 0),
    {
        let mut i: usize = 0;
        while i < ms.len()
            invariant
                i <= ms.len(),
                at.len() == ms.len(),
                self@.members(*prog, ms@, at@, i as int) == old(self)@.members(
                    *prog,
                    ms@,
                    at@,
                    0,
                ),
            decreases ms.len() - i,
        {
            let n: String = symbol_of(prog, ms[i] as u32);
            self.define(n.as_str(), CODE, at[i], false);
            i = i + 1;
        }
    }

    /// Defines the functions the unit generated.
    pub fn helpers(&mut self, hs: &Vec<(String, u64)>)
        ensures
            final(self)@ == old(self)@.helpers(places(hs@), 0),
    {
        let ghost v = places(hs@);
        let mut i: usize = 0;
        while i < hs.len()
            invariant
                i <= hs.len(),
                v == places(hs@),
                self@.helpers(v, i as int) == old(self)@.helpers(v, 0),
            decreases hs.len() - i,
        {
            assert(v[i as int] == (hs[i as int].0@, hs[i as int].1));
            self.define(hs[i].0.as_str(), CODE, hs[i].1, true);
            i = i + 1;
        }
    }

    /// Adds the relocations of a section.
    pub fn rels(&mut self, prog: &Program, section: usize, rs: &Vec<region::Reloc>)
        ensures
            final(self)@ == old(self)@.rels(*prog, section, region::rels(rs@), 0),
    {
        let ghost v = region::rels(rs@);
        let mut i: usize = 0;
        while i < rs.len()
            invariant
                i <= rs.len(),
                v == region::rels(rs@),
                self@.rels(*prog, section, v, i as int) == old(self)@.rels(*prog, section, v, 0),
            decreases rs.len() - i,
        {
            assert(v[i as int] == rs[i as int]@);
            let n: String = name_of(prog, &rs[i].target);
            self.reloc(section, rs[i].at, object_kind(rs[i].kind), n.as_str(), rs[i].addend);
            i = i + 1;
        }
    }

    /// Puts a hand-written block behind the code.
    pub fn shim(&mut self, prog: &Program, name: &str, shim: &Shim)
        ensures
            final(self)@ == old(self)@.shim(*prog, name@, shim@),
    {
        let n: usize = self.code.len() % 16;
        proof {
            crate::bytes::a_gap_ends_on_a_multiple(self.code@.len(), 16);
        }
        if n != 0 {
            pad(&mut self.code, 16 - n);
        }
        assert(self.code@ =~= old(self).code@ + zeros(gap(old(self).code@.len(), 16)));
        let at: u64 = self.code.len() as u64;
        append(&mut self.code, shim.bytes.as_slice());
        self.define(name, CODE, at, false);
        let ghost start = self@;
        let ghost v = crate::a64::shim_rels(shim.relocs@);
        let mut i: usize = 0;
        while i < shim.relocs.len()
            invariant
                i <= shim.relocs.len(),
                v == crate::a64::shim_rels(shim.relocs@),
                self@.shim_rels(*prog, at, v, i as int) == start.shim_rels(*prog, at, v, 0),
            decreases shim.relocs.len() - i,
        {
            let r: &(u64, RelKind, Target, i64) = &shim.relocs[i];
            assert(v[i as int] == (Sr { at: r.0, kind: r.1, target: r.2@, addend: r.3 }));
            let name: String = name_of(prog, &r.2);
            self.reloc(CODE, at.saturating_add(r.0), r.1, name.as_str(), r.3);
            i = i + 1;
        }
    }
}

// ---------------------------------------------------------------------------
// What the table keeps
// ---------------------------------------------------------------------------

impl Ob {
    /// Whether no two symbols have one name, and every relocation names a symbol.
    pub open spec fn wf(self) -> bool {
        &&& forall|i: int, j: int|
            0 <= i < j < self.syms.len() ==> (#[trigger] self.syms[i]).name != (
            #[trigger] self.syms[j]).name
        &&& forall|k: int|
            0 <= k < self.relocs.len() ==> (#[trigger] self.relocs[k]).symbol < self.syms.len()
    }

    pub proof fn lemma_want(self, name: Seq<char>)
        requires
            self.wf(),
            self.syms.len() < usize::MAX,
        ensures
            self.want(name).wf(),
            self.index(name) < self.want(name).syms.len(),
            self.want(name).syms[self.index(name) as int].name == name,
            self.want(name).relocs == self.relocs,
            self.syms.len() <= self.want(name).syms.len() <= self.syms.len() + 1,
    {
        lemma_named(self.syms, name, 0);
    }

    /// Defining a name keeps the table: each name stays in it once.
    pub proof fn a_definition_keeps_the_table(
        self,
        name: Seq<char>,
        section: usize,
        offset: u64,
        local: bool,
    )
        requires
            self.wf(),
            self.syms.len() < usize::MAX,
        ensures
            self.define(name, section, offset, local).wf(),
            self.define(name, section, offset, local).syms.len() <= self.syms.len() + 1,
    {
        self.lemma_want(name);
        let o = self.want(name);
        let d = self.define(name, section, offset, local);
        assert forall|i: int, j: int| 0 <= i < j < d.syms.len() implies (#[trigger] d.syms[i]).name
            != (#[trigger] d.syms[j]).name by {
            assert(d.syms[i].name == o.syms[i].name);
            assert(d.syms[j].name == o.syms[j].name);
        }
    }

    /// A relocation keeps the table, and is against the name it was asked for.
    pub proof fn a_relocation_is_against_its_name(
        self,
        section: usize,
        offset: u64,
        kind: RelKind,
        name: Seq<char>,
        addend: i64,
    )
        requires
            self.wf(),
            self.syms.len() < usize::MAX,
        ensures
            self.reloc(section, offset, kind, name, addend).wf(),
            self.reloc(section, offset, kind, name, addend).syms.len() <= self.syms.len() + 1,
            ({
                let o = self.reloc(section, offset, kind, name, addend);
                o.syms[o.relocs.last().symbol as int].name == name
            }),
    {
        self.lemma_want(name);
        let w = self.want(name);
        let o = self.reloc(section, offset, kind, name, addend);
        assert forall|k: int| 0 <= k < o.relocs.len() implies (#[trigger] o.relocs[k]).symbol
            < o.syms.len() by {
            if k < self.relocs.len() {
                assert(o.relocs[k] == self.relocs[k]);
            }
        }
    }
}

impl Ob {
    proof fn lemma_members(self, prog: Program, ms: Seq<usize>, at: Seq<u64>, i: int)
        requires
            self.wf(),
            0 <= i <= ms.len(),
            self.syms.len() + ms.len() - i < usize::MAX,
        ensures
            self.members(prog, ms, at, i).wf(),
            self.members(prog, ms, at, i).syms.len() <= self.syms.len() + ms.len() - i,
        decreases ms.len() - i,
    {
        if i < ms.len() {
            let name = symbol_text(prog, ms[i] as u32);
            self.a_definition_keeps_the_table(name, CODE, at[i], false);
            self.define(name, CODE, at[i], false).lemma_members(prog, ms, at, i + 1);
        }
    }

    proof fn lemma_helpers(self, hs: Seq<(Seq<char>, u64)>, i: int)
        requires
            self.wf(),
            0 <= i <= hs.len(),
            self.syms.len() + hs.len() - i < usize::MAX,
        ensures
            self.helpers(hs, i).wf(),
            self.helpers(hs, i).syms.len() <= self.syms.len() + hs.len() - i,
        decreases hs.len() - i,
    {
        if i < hs.len() {
            self.a_definition_keeps_the_table(hs[i].0, CODE, hs[i].1, true);
            self.define(hs[i].0, CODE, hs[i].1, true).lemma_helpers(hs, i + 1);
        }
    }

    proof fn lemma_rels(self, prog: Program, section: usize, rs: Seq<Rl>, i: int)
        requires
            self.wf(),
            0 <= i <= rs.len(),
            self.syms.len() + rs.len() - i < usize::MAX,
        ensures
            self.rels(prog, section, rs, i).wf(),
            self.rels(prog, section, rs, i).syms.len() <= self.syms.len() + rs.len() - i,
        decreases rs.len() - i,
    {
        if i < rs.len() {
            let r = rs[i];
            let name = name_text(prog, r.target);
            self.a_relocation_is_against_its_name(section, r.at, kind_of(r.kind), name, r.addend);
            self.reloc(section, r.at, kind_of(r.kind), name, r.addend).lemma_rels(
                prog,
                section,
                rs,
                i + 1,
            );
        }
    }

    proof fn lemma_shim_rels(self, prog: Program, at: u64, rs: Seq<Sr>, i: int)
        requires
            self.wf(),
            0 <= i <= rs.len(),
            self.syms.len() + rs.len() - i < usize::MAX,
        ensures
            self.shim_rels(prog, at, rs, i).wf(),
            self.shim_rels(prog, at, rs, i).syms.len() <= self.syms.len() + rs.len() - i,
        decreases rs.len() - i,
    {
        if i < rs.len() {
            let r = rs[i];
            let name = name_text(prog, r.target);
            self.a_relocation_is_against_its_name(CODE, moved(at, r.at), r.kind, name, r.addend);
            self.reloc(CODE, moved(at, r.at), r.kind, name, r.addend).lemma_shim_rels(
                prog,
                at,
                rs,
                i + 1,
            );
        }
    }

    /// A hand-written block keeps the table.
    pub proof fn a_block_keeps_the_table(self, prog: Program, name: Seq<char>, p: Piece)
        requires
            self.wf(),
            self.syms.len() + p.relocs.len() + 1 < usize::MAX,
        ensures
            self.shim(prog, name, p).wf(),
            self.shim(prog, name, p).syms.len() <= self.syms.len() + p.relocs.len() + 1,
    {
        let code = self.code + zeros(gap(self.code.len(), 16));
        let at = code.len() as u64;
        let o = Ob { code: code + p.bytes, ..self };
        assert(o.wf());
        o.a_definition_keeps_the_table(name, CODE, at, false);
        o.define(name, CODE, at, false).lemma_shim_rels(prog, at, p.relocs, 0);
    }

    /// The symbols of a unit, of what it generated and of what it refers to are in the table once
    /// each, and every relocation names one of them.
    pub proof fn a_unit_names_every_symbol_once(
        self,
        prog: Program,
        ms: Seq<usize>,
        at: Seq<u64>,
        hs: Seq<(Seq<char>, u64)>,
        code: Seq<Rl>,
        pool: Seq<Rl>,
    )
        requires
            self.wf(),
            self.syms.len() + ms.len() + hs.len() + code.len() + pool.len() + 1 < usize::MAX,
        ensures
            ({
                let o = self.members(prog, ms, at, 0).helpers(hs, 0).rels(prog, CODE, code, 0).rels(
                    prog,
                    POOL,
                    pool,
                    0,
                ).define(POOL_ANCHOR@, POOL, 0, true);
                &&& o.wf()
                &&& o.syms.len() <= self.syms.len() + ms.len() + hs.len() + code.len() + pool.len()
                    + 1
            }),
    {
        let a = self.members(prog, ms, at, 0);
        self.lemma_members(prog, ms, at, 0);
        let b = a.helpers(hs, 0);
        a.lemma_helpers(hs, 0);
        let c = b.rels(prog, CODE, code, 0);
        b.lemma_rels(prog, CODE, code, 0);
        let d = c.rels(prog, POOL, pool, 0);
        c.lemma_rels(prog, POOL, pool, 0);
        d.a_definition_keeps_the_table(POOL_ANCHOR@, POOL, 0, true);
    }
}

} // verus!
