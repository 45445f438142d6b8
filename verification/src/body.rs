//! A body, from operations to code.
//!
//! The operations are assembled one after another. A branch to a block of the body is filled in when
//! the whole body is there, and only then may a veneer be planted: in the middle of a body it would
//! stand where a stencil falls through to the next.

use crate::assemble::{did, patch_branch, patch_cond, with_branch, with_cond, As, Assembly, Fix};
use crate::library::Library;
use crate::select::{byte_lists, items, Item, Op};
use crate::slots::set_at;
use crate::text::own;
use crate::types::{at_or, ent, put};
use vstd::prelude::*;

verus! {

/// A body while it is laid out: the unit, and the address of each block and label.
pub struct Laid {
    pub unit: As,
    pub blk: Seq<u64>,
}

impl Laid {
    /// One operation.
    pub open spec fn op(self, lib: Library, lits: Seq<Seq<u8>>, o: Item) -> Result<Laid, Seq<char>> {
        match o {
            Item::Stencil { key, binds } => match self.unit.emit(lib, key, binds) {
                Err(e) => Err(e),
                Ok(unit) => Ok(Laid { unit, ..self }),
            },
            Item::Place(l) => Ok(
                Laid {
                    blk: set_at(self.blk, l as int, self.unit.rg.code.len() as u64),
                    ..self
                },
            ),
            Item::Pool(i) => if i != self.unit.lits.len() || i >= lits.len() {
                Err("stencil: a literal out of its order"@)
            } else {
                let p = self.unit.rg.pool_bytes(lits[i as int]);
                Ok(Laid { unit: As { rg: p.0, lits: self.unit.lits.push(p.1), ..self.unit }, ..self })
            },
            Item::Raw(b) => Ok(
                Laid { unit: As { rg: self.unit.rg.put(b), ..self.unit }, ..self },
            ),
            _ => Err("stencil: a runtime call that was not expanded"@),
        }
    }

    /// Operations, from operation `i` on.
    pub open spec fn ops(self, lib: Library, lits: Seq<Seq<u8>>, os: Seq<Item>, i: int) -> Result<
        Laid,
        Seq<char>,
    >
        decreases os.len() - i,
    {
        if i >= os.len() {
            Ok(self)
        } else {
            match self.op(lib, lits, os[i]) {
                Err(e) => Err(e),
                Ok(n) => n.ops(lib, lits, os, i + 1),
            }
        }
    }
}

/// A list whose last entry has taken the place of entry `i`.
pub open spec fn without<T>(s: Seq<T>, i: int) -> Seq<T> {
    s.update(i, s.last()).drop_last()
}

impl As {
    /// The branches to blocks filled in, from open branch `i` on. Branches to functions stay open.
    pub open spec fn resolve_blocks(self, blk: Seq<u64>, i: int) -> Result<As, Seq<char>>
        decreases self.fixups.len() - i,
    {
        if i < 0 || i >= self.fixups.len() {
            Ok(self)
        } else {
            match self.fixups[i] {
                Fix::Block { at, blk: b } => match with_branch(
                    self.rg,
                    at,
                    at_or(blk, b as int, 0u64),
                ) {
                    Err(e) => Err(e),
                    Ok(rg) => As {
                        rg,
                        fixups: without(self.fixups, i),
                        ..self
                    }.resolve_blocks(blk, i),
                },
                Fix::BlockCond { at, blk: b } => match with_cond(
                    self.rg,
                    at,
                    at_or(blk, b as int, 0u64),
                    true,
                ) {
                    Err(e) => Err(e),
                    Ok(rg) => As {
                        rg,
                        fixups: without(self.fixups, i),
                        ..self
                    }.resolve_blocks(blk, i),
                },
                Fix::Func { at, f } => self.resolve_blocks(blk, i + 1),
            }
        }
    }

    /// A whole body of `labels` blocks and labels, on a multiple of four, and where it starts.
    pub open spec fn body(self, lib: Library, lits: Seq<Seq<u8>>, os: Seq<Item>, labels: nat) -> Result<
        As,
        Seq<char>,
    > {
        let start = As { rg: self.rg.align_code(4), ..self };
        match (Laid { unit: start, blk: Seq::new(labels, |i: int| 0u64) }).ops(lib, lits, os, 0) {
            Err(e) => Err(e),
            Ok(n) => n.unit.resolve_blocks(n.blk, self.fixups.len() as int),
        }
    }
}

impl Assembly {
    /// Assembles one operation of a body whose labels have the addresses `blk`.
    pub fn op(
        &mut self,
        lib: &Library,
        lits: &Vec<Vec<u8>>,
        blk: &mut Vec<u64>,
        o: &Op,
    ) -> (r: Result<(), String>)
        ensures
            did(
                r,
                (Laid { unit: final(self)@, blk: final(blk)@ }),
                (Laid { unit: old(self)@, blk: old(blk)@ }).op(*lib, byte_lists(lits@), o@),
            ),
            old(self)@.rg.wf() ==> final(self)@.rg.wf(),
    {
        match o {
            Op::Stencil { key, binds } => self.emit(lib, key.as_str(), binds),
            Op::Place(l) => {
                put(blk, *l, self.region.code_addr());
                Ok(())
            },
            Op::Pool(i) => {
                if *i != self.lits.len() || *i >= lits.len() {
                    return Err(own("stencil: a literal out of its order"));
                }
                let h: u64 = self.region.pool_bytes(lits[*i].as_slice());
                self.lits.push(h);
                Ok(())
            },
            Op::Raw(b) => {
                self.region.put(b.as_slice());
                Ok(())
            },
            _ => Err(own("stencil: a runtime call that was not expanded")),
        }
    }

    /// Fills in the branches to the blocks of a body, among the open branches from `base` on.
    pub fn resolve_blocks(&mut self, base: usize, blk: &Vec<u64>) -> (r: Result<(), String>)
        ensures
            did(r, final(self)@, old(self)@.resolve_blocks(blk@, base as int)),
            old(self)@.rg.wf() ==> final(self)@.rg.wf(),
    {
        let mut i: usize = base;
        while i < self.fixups.len()
            invariant
                old(self)@.rg.wf() ==> self@.rg.wf(),
                self@.resolve_blocks(blk@, i as int) == old(self)@.resolve_blocks(blk@, base as int),
            decreases self.fixups.len() - i,
        {
            match self.fixups[i] {
                Fix::Block { at, blk: b } => {
                    match patch_branch(&mut self.region, at, ent(blk, b, 0)) {
                        Err(e) => return Err(e),
                        Ok(_) => {},
                    }
                    let ghost before = self.fixups@;
                    self.fixups.swap_remove(i);
                    assert(self.fixups@ =~= without(before, i as int));
                },
                Fix::BlockCond { at, blk: b } => {
                    match patch_cond(&mut self.region, at, ent(blk, b, 0), true) {
                        Err(e) => return Err(e),
                        Ok(_) => {},
                    }
                    let ghost before = self.fixups@;
                    self.fixups.swap_remove(i);
                    assert(self.fixups@ =~= without(before, i as int));
                },
                Fix::Func { at, f } => {
                    i = i + 1;
                },
            }
        }
        Ok(())
    }

    /// Assembles a body of `labels` blocks and labels and gives its address.
    pub fn body(
        &mut self,
        lib: &Library,
        lits: &Vec<Vec<u8>>,
        ops: &Vec<Op>,
        labels: usize,
    ) -> (r: Result<u64, String>)
        ensures
            match r {
                Ok(at) => {
                    &&& old(self)@.body(*lib, byte_lists(lits@), items(ops@), labels as nat) == Ok::<
                        As,
                        Seq<char>,
                    >(final(self)@)
                    &&& at == old(self)@.rg.align_code(4).code.len()
                },
                Err(e) => old(self)@.body(*lib, byte_lists(lits@), items(ops@), labels as nat)
                    == Err::<As, Seq<char>>(e@),
            },
            old(self)@.rg.wf() ==> final(self)@.rg.wf(),
    {
        let base: usize = self.fixups.len();
        self.region.align_code(4);
        let at: u64 = self.region.code_addr();
        let mut blk: Vec<u64> = crate::slots::filled(labels, 0);
        let ghost os = items(ops@);
        let ghost ls = byte_lists(lits@);
        let ghost start = Laid { unit: self@, blk: blk@ };
        assert(start == (Laid {
            unit: As { rg: old(self)@.rg.align_code(4), ..old(self)@ },
            blk: Seq::new(labels as nat, |i: int| 0u64),
        }));
        let mut i: usize = 0;
        while i < ops.len()
            invariant
                old(self)@.rg.wf() ==> self@.rg.wf(),
                i <= ops.len(),
                os == items(ops@),
                ls == byte_lists(lits@),
                base == old(self).fixups.len(),
                start == (Laid {
                    unit: As { rg: old(self)@.rg.align_code(4), ..old(self)@ },
                    blk: Seq::new(labels as nat, |i: int| 0u64),
                }),
                (Laid { unit: self@, blk: blk@ }).ops(*lib, ls, os, i as int) == start.ops(
                    *lib,
                    ls,
                    os,
                    0,
                ),
            decreases ops.len() - i,
        {
            assert(os[i as int] == ops[i as int]@);
            match self.op(lib, lits, &mut blk, &ops[i]) {
                Err(e) => return Err(e),
                Ok(_) => {},
            }
            i = i + 1;
        }
        match self.resolve_blocks(base, &blk) {
            Err(e) => Err(e),
            Ok(_) => Ok(at),
        }
    }
}

} // verus!
