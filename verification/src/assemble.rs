//! Copy, and patch.
//!
//! A stencil's bytes are copied into the region and its holes are filled in: a literal into an
//! instruction or a pair of them, a datum through the constant pool, a branch by its displacement. A
//! branch to a block is filled in once the body is laid out; a branch to a function, to a helper or
//! out of the program is left to the linker. The branch that ends a stencil is dropped where what it
//! leads to is laid out next.

use crate::a64::{with_19, with_26, B};
use crate::bytes::{le32, word_of};
use crate::glue::{helper_symbol, symbol};
use crate::library::{fold_suffix, ConstRef, Hole, HoleKind, Library, Stencil};
use crate::region::{Region, RelocKind, Rg, Target, Tg};
use crate::select::{plus, H, V};
use crate::text::{
    begins, decimal, decimal_of, wide_decimal_of, join2, join3, join4, join5, own, same,
    strip_prefix,
};
use crate::types::{at_or, ent, put};
use vstd::prelude::*;

verus! {

/// A branch whose target was not known when it was copied.
#[derive(Clone, Copy, PartialEq, Eq, Debug, Structural)]
pub enum Fix {
    /// A branch to a block or a label of the body.
    Block { at: u64, blk: usize },
    /// A conditional branch to a block or a label of the body.
    BlockCond { at: u64, blk: usize },
    /// A branch to a function.
    Func { at: u64, f: usize },
}

/// A unit while it is assembled: its region, its open branches, and the pool handles of its
/// literals.
pub struct As {
    pub rg: Rg,
    pub fixups: Seq<Fix>,
    pub lits: Seq<u64>,
}

/// The value of a hole.
pub open spec fn bound(binds: Seq<(H, V)>, name: Seq<char>, i: int) -> Option<V>
    decreases binds.len() - i,
{
    if i >= binds.len() {
        None
    } else if binds[i].0.text() == name {
        Some(binds[i].1)
    } else {
        bound(binds, name, i + 1)
    }
}

/// Whether a number fits the twelve-bit fields of a hole: it is a multiple of each one's scale, and
/// within its reach.
pub open spec fn reaches(lo12: Seq<(u32, u32)>, v: u64) -> bool {
    forall|i: int|
        0 <= i < lo12.len() ==> (#[trigger] lo12[i]).1 != 0 && v % lo12[i].1 as u64 == 0 && v
            / lo12[i].1 as u64 <= 4095
}

/// Whether the operands fit the fields of a folded twin.
pub open spec fn fits(s: Stencil, binds: Seq<(H, V)>) -> bool {
    forall|i: int|
        0 <= i < s.holes.len() ==> (#[trigger] s.holes[i]).lo12@.len() == 0 || match bound(
            binds,
            s.holes[i].name@,
            0,
        ) {
            Some(V::I(v)) => reaches(s.holes[i].lo12@, v),
            _ => false,
        }
}

/// The stencil that a key is copied from: the first of its folded twins, from twin `k` on, whose
/// fields the operands fit, or the stencil itself.
pub open spec fn chosen(lib: Library, key: Seq<char>, binds: Seq<(H, V)>, k: int) -> Option<int>
    decreases 3 - k,
{
    if k >= 3 {
        lib.slot(key)
    } else {
        match lib.slot(key + fold_suffix(k)) {
            Some(i) => if fits(lib.stencils[i], binds) {
                Some(i)
            } else {
                chosen(lib, key, binds, k + 1)
            },
            None => chosen(lib, key, binds, k + 1),
        }
    }
}

/// Whether a folded twin of a key is there and the operands fit its fields.
pub open spec fn twin_fits(lib: Library, key: Seq<char>, binds: Seq<(H, V)>, k: int) -> bool {
    match lib.slot(key + fold_suffix(k)) {
        Some(i) => fits(lib.stencils[i], binds),
        None => false,
    }
}

/// Whether a key is copied from one of its folded twins.
pub open spec fn folds(lib: Library, key: Seq<char>, binds: Seq<(H, V)>) -> bool {
    twin_fits(lib, key, binds, 0) || twin_fits(lib, key, binds, 1) || twin_fits(lib, key, binds, 2)
}

/// A displacement as text.
pub open spec fn signed(d: int) -> Seq<char> {
    if d < 0 {
        "-"@ + decimal((-d) as nat)
    } else {
        decimal(d as nat)
    }
}

/// A branch at `at` with its displacement filled in.
pub open spec fn with_branch(rg: Rg, at: u64, target: u64) -> Result<Rg, Seq<char>> {
    let d = target - at;
    if d % 4 != 0 {
        Err("misaligned branch"@)
    } else if !(-0x200_0000 <= d / 4 < 0x200_0000) {
        Err("branch out of range: "@ + signed(d))
    } else {
        Ok(rg.set_word(at, with_26(word_of(rg.code, at as int), (d / 4) as u32)))
    }
}

/// The branch that a conditional branch goes through where its target is out of its reach.
pub open spec fn with_veneer(rg: Rg, target: u64) -> Result<(Rg, u64), Seq<char>> {
    let a = rg.align_code(4);
    let v = a.code.len() as u64;
    match with_branch(a.put(le32(B)), v, target) {
        Err(e) => Err(e),
        Ok(r) => Ok((r, v)),
    }
}

/// A conditional branch at `at` with its displacement filled in.
pub open spec fn with_near(rg: Rg, at: u64, target: u64) -> Result<Rg, Seq<char>> {
    let d = target - at;
    if d % 4 != 0 {
        Err("misaligned conditional branch"@)
    } else if !(-0x4_0000 <= d / 4 < 0x4_0000) {
        Err("conditional branch out of imm19 range: "@ + signed(d) + " bytes"@)
    } else {
        Ok(rg.set_word(at, with_19(word_of(rg.code, at as int), (d / 4) as u32)))
    }
}

/// A conditional branch at `at` with its displacement filled in, through a veneer where its target
/// is out of reach and a veneer may be planted.
pub open spec fn with_cond(rg: Rg, at: u64, target: u64, veneer: bool) -> Result<Rg, Seq<char>> {
    let d = target - at;
    if -0x10_0000 <= d < 0x10_0000 {
        with_near(rg, at, target)
    } else if !veneer {
        Err(
            "a conditional-branch hole reached a target "@ + signed(d)
                + " bytes away while the function was still being emitted"@,
        )
    } else {
        match with_veneer(rg, target) {
            Err(e) => Err(e),
            Ok(p) => with_near(p.0, at, p.1),
        }
    }
}

/// The destination register of an instruction.
pub open spec fn destination(w: u32) -> u32 {
    w & 0x1f
}

/// A pair of instructions rewritten to form a literal of 32 bits.
pub open spec fn with_imm32(rg: Rg, first: u64, second: u64, v: u32) -> Result<Rg, Seq<char>> {
    let rd = destination(word_of(rg.code, first as int));
    if destination(word_of(rg.code, second as int)) != rd {
        Err("a literal's pair of instructions has two destinations"@)
    } else {
        Ok(
            rg.set_word(first, 0xd280_0000 | ((v & 0xffff) << 5) | rd).set_word(
                second,
                0xf2a0_0000 | (((v >> 16) & 0xffff) << 5) | rd,
            ),
        )
    }
}

/// A word whose twelve-bit immediate is `imm`.
pub open spec fn with_12(w: u32, imm: u32) -> u32 {
    (w & 0xffc0_03ff) | ((imm & 0xfff) << 10)
}

/// A twelve-bit immediate field filled in, in units of its scale.
pub open spec fn with_lo12(rg: Rg, at: u64, v: u32, scale: u32) -> Result<Rg, Seq<char>> {
    if scale == 0 || v % scale != 0 || v / scale > 4095 {
        Err("a literal does not fit its twelve-bit field"@)
    } else {
        Ok(rg.set_word(at, with_12(word_of(rg.code, at as int), v / scale)))
    }
}

/// Branches filled in, from offset `i` on.
pub open spec fn with_branches(rg: Rg, at: u64, offs: Seq<u32>, target: u64, i: int) -> Result<
    Rg,
    Seq<char>,
>
    decreases offs.len() - i,
{
    if i >= offs.len() {
        Ok(rg)
    } else {
        match with_branch(rg, (at + offs[i]) as u64, target) {
            Err(e) => Err(e),
            Ok(r) => with_branches(r, at, offs, target, i + 1),
        }
    }
}

/// Conditional branches filled in, from offset `i` on.
pub open spec fn with_conds(rg: Rg, at: u64, offs: Seq<u32>, target: u64, i: int) -> Result<
    Rg,
    Seq<char>,
>
    decreases offs.len() - i,
{
    if i >= offs.len() {
        Ok(rg)
    } else {
        match with_cond(rg, (at + offs[i]) as u64, target, false) {
            Err(e) => Err(e),
            Ok(r) => with_conds(r, at, offs, target, i + 1),
        }
    }
}

/// Literals of 32 bits formed, from pair `i` on.
pub open spec fn with_imm32s(rg: Rg, at: u64, pairs: Seq<(u32, u32)>, v: u32, i: int) -> Result<
    Rg,
    Seq<char>,
>
    decreases pairs.len() - i,
{
    if i >= pairs.len() {
        Ok(rg)
    } else {
        match with_imm32(rg, (at + pairs[i].0) as u64, (at + pairs[i].1) as u64, v) {
            Err(e) => Err(e),
            Ok(r) => with_imm32s(r, at, pairs, v, i + 1),
        }
    }
}

/// Twelve-bit fields filled in, from field `i` on.
pub open spec fn with_lo12s(rg: Rg, at: u64, fields: Seq<(u32, u32)>, v: u32, i: int) -> Result<
    Rg,
    Seq<char>,
>
    decreases fields.len() - i,
{
    if i >= fields.len() {
        Ok(rg)
    } else {
        match with_lo12(rg, (at + fields[i].0) as u64, v, fields[i].1) {
            Err(e) => Err(e),
            Ok(r) => with_lo12s(r, at, fields, v, i + 1),
        }
    }
}

/// References to a pool slot, from pair `i` on.
pub open spec fn with_refs(rg: Rg, at: u64, pairs: Seq<(u32, u32)>, slot: u64, i: int) -> Rg
    decreases pairs.len() - i,
{
    if i >= pairs.len() {
        rg
    } else {
        with_refs(
            rg.pool_ref((at + pairs[i].0) as u64, (at + pairs[i].1) as u64, slot),
            at,
            pairs,
            slot,
            i + 1,
        )
    }
}

/// Branches left to the linker, from offset `i` on.
pub open spec fn with_symbols(rg: Rg, at: u64, offs: Seq<u32>, name: Seq<char>, i: int) -> Rg
    decreases offs.len() - i,
{
    if i >= offs.len() {
        rg
    } else {
        with_symbols(
            rg.rel((at + offs[i]) as u64, RelocKind::Branch26, Tg::Symbol(name), 0),
            at,
            offs,
            name,
            i + 1,
        )
    }
}

/// What is added to the pool's address at a reference to constants that were copied to `pool`: a
/// displacement is measured from the end of its instruction, and a relocation from the field.
pub open spec fn const_addend(pool: u64, c: ConstRef) -> i64 {
    (pool + c.at - (c.insn_end - c.field)) as i64
}

/// References to the constants of a stencil at `at`, from reference `i` on.
pub open spec fn with_const_refs(rg: Rg, at: u64, pool: u64, cs: Seq<ConstRef>, i: int) -> Rg
    decreases cs.len() - i,
{
    if i >= cs.len() {
        rg
    } else {
        with_const_refs(
            rg.rel(
                (at + cs[i].field) as u64,
                RelocKind::Pc32,
                Tg::Pool,
                const_addend(pool, cs[i]),
            ),
            at,
            pool,
            cs,
            i + 1,
        )
    }
}

/// Whether each pair of instructions has one destination, which the second also reads.
pub open spec fn relaxable(rg: Rg, at: u64, pairs: Seq<(u32, u32)>) -> bool {
    forall|i: int|
        0 <= i < pairs.len() ==> {
            let a = word_of(rg.code, (at + (#[trigger] pairs[i]).0) as u64 as int);
            let b = word_of(rg.code, (at + pairs[i].1) as u64 as int);
            destination(a) == destination(b) && destination(a) == (b >> 5) & 0x1f
        }
}

/// Open branches to a block, from offset `i` on.
pub open spec fn block_fixes(f: Seq<Fix>, at: u64, offs: Seq<u32>, b: usize, cond: bool, i: int) -> Seq<
    Fix,
>
    decreases offs.len() - i,
{
    if i >= offs.len() {
        f
    } else {
        let p = (at + offs[i]) as u64;
        block_fixes(
            f.push(
                if cond {
                    Fix::BlockCond { at: p, blk: b }
                } else {
                    Fix::Block { at: p, blk: b }
                },
            ),
            at,
            offs,
            b,
            cond,
            i + 1,
        )
    }
}

/// Open branches to a function, from offset `i` on.
pub open spec fn func_fixes(f: Seq<Fix>, at: u64, offs: Seq<u32>, func: usize, i: int) -> Seq<Fix>
    decreases offs.len() - i,
{
    if i >= offs.len() {
        f
    } else {
        func_fixes(
            f.push(Fix::Func { at: (at + offs[i]) as u64, f: func }),
            at,
            offs,
            func,
            i + 1,
        )
    }
}

impl As {
    /// A branch hole whose target is an address.
    pub open spec fn branch_to(self, at: u64, h: Hole, target: u64) -> Result<As, Seq<char>> {
        match with_branches(self.rg, at, h.branches@, target, 0) {
            Err(e) => Err(e),
            Ok(r) => match with_conds(r, at, h.conds@, target, 0) {
                Err(e) => Err(e),
                Ok(rg) => Ok(As { rg, ..self }),
            },
        }
    }

    /// A branch hole.
    pub open spec fn branch_hole(self, at: u64, end: u64, h: Hole, v: V) -> Result<As, Seq<char>> {
        match v {
            V::I(x) => self.branch_to(at, h, x),
            V::Ptr(k) => self.branch_to(at, h, at_or(self.lits, k as int, 0u64)),
            V::Fall => self.branch_to(at, h, end),
            V::Sym(i) => Ok(
                As {
                    rg: with_symbols(self.rg, at, h.branches@, helper_symbol(i as nat), 0),
                    ..self
                },
            ),
            V::Ext(n) => Ok(
                As { rg: with_symbols(self.rg, at, h.branches@, n@, 0), ..self },
            ),
            V::Blk(b) => Ok(
                As {
                    fixups: block_fixes(
                        block_fixes(self.fixups, at, h.branches@, b, false, 0),
                        at,
                        h.conds@,
                        b,
                        true,
                        0,
                    ),
                    ..self
                },
            ),
            V::Fn(f) => Ok(
                As { fixups: func_fixes(self.fixups, at, h.branches@, f, 0), ..self },
            ),
        }
    }

    /// A hole of a literal.
    pub open spec fn literal_hole(self, at: u64, h: Hole, v: V) -> Result<As, Seq<char>> {
        match v {
            V::I(x) => match with_imm32s(self.rg, at, h.pairs@, x as u32, 0) {
                Err(e) => Err(e),
                Ok(r) => match with_lo12s(r, at, h.lo12@, x as u32, 0) {
                    Err(e) => Err(e),
                    Ok(rg) => Ok(As { rg, ..self }),
                },
            },
            _ => Err("stencil: hole "@ + h.name@ + " takes a literal"@),
        }
    }

    /// The pool slot of a datum.
    pub open spec fn datum(self, h: Hole, v: V) -> Result<(Rg, u64), Seq<char>> {
        match v {
            V::I(x) => Ok(self.rg.pool_u64(x)),
            V::Ptr(k) => Ok(self.rg.pool_target(Tg::Here(at_or(self.lits, k as int, 0u64)))),
            V::Fn(f) => Ok(self.rg.pool_target(Tg::Func(f as u32))),
            V::Sym(i) => Ok(self.rg.pool_target(Tg::Symbol(helper_symbol(i as nat)))),
            V::Ext(n) => Ok(self.rg.pool_target(Tg::Symbol(n@))),
            _ => Err("stencil: hole "@ + h.name@ + " takes a datum"@),
        }
    }

    /// A hole of a datum whose references are still there: a literal of 32 bits where it is one, and
    /// a pool slot where not.
    pub open spec fn datum_pairs(self, at: u64, h: Hole, v: V) -> Result<As, Seq<char>> {
        let small = v matches V::I(x) && x < 0x1_0000_0000 && relaxable(self.rg, at, h.pairs@);
        if small {
            match with_imm32s(self.rg, at, h.pairs@, v->I_0 as u32, 0) {
                Err(e) => Err(e),
                Ok(rg) => Ok(As { rg, ..self }),
            }
        } else {
            match self.datum(h, v) {
                Err(e) => Err(e),
                Ok(p) => Ok(As { rg: with_refs(p.0, at, h.pairs@, p.1, 0), ..self }),
            }
        }
    }

    /// A hole of a datum. One that was folded into a twelve-bit field has no reference left, or
    /// both.
    pub open spec fn datum_hole(self, at: u64, h: Hole, v: V) -> Result<As, Seq<char>> {
        if h.lo12@.len() == 0 {
            self.datum_pairs(at, h, v)
        } else {
            match v {
                V::I(x) => match with_lo12s(self.rg, at, h.lo12@, x as u32, 0) {
                    Err(e) => Err(e),
                    Ok(rg) => if h.pairs@.len() == 0 {
                        Ok(As { rg, ..self })
                    } else {
                        As { rg, ..self }.datum_pairs(at, h, v)
                    },
                },
                _ => Err(
                    "stencil: hole "@ + h.name@ + " was folded into an imm12 but is not an offset"@,
                ),
            }
        }
    }

    /// A hole.
    pub open spec fn patch_hole(self, at: u64, end: u64, h: Hole, v: V) -> Result<As, Seq<char>> {
        match h.kind {
            HoleKind::Branch => self.branch_hole(at, end, h, v),
            HoleKind::Imm32 => self.literal_hole(at, h, v),
            HoleKind::Imm64 => self.datum_hole(at, h, v),
        }
    }

    /// A hole that names a symbol outside the program.
    pub open spec fn import(self, at: u64, h: Hole) -> As {
        let rg = with_symbols(self.rg, at, h.branches@, h.name@, 0);
        if h.pairs@.len() == 0 {
            As { rg, ..self }
        } else {
            let p = rg.pool_target(Tg::Symbol(h.name@));
            As { rg: with_refs(p.0, at, h.pairs@, p.1, 0), ..self }
        }
    }

    /// A hole, whose value is looked up: one that has none is an import, unless it is the
    /// emitter's own.
    pub open spec fn fill(
        self,
        key: Seq<char>,
        binds: Seq<(H, V)>,
        at: u64,
        end: u64,
        h: Hole,
    ) -> Result<As, Seq<char>> {
        match bound(binds, h.name@, 0) {
            Some(v) => self.patch_hole(at, end, h, v),
            None => if begins(h.name@, "JIT_"@) {
                Err("stencil: stencil "@ + key + " has an unbound hole "@ + h.name@)
            } else {
                Ok(self.import(at, h))
            },
        }
    }

    /// The holes of a stencil, from hole `i` on, but for the one that was dropped.
    pub open spec fn fill_all(
        self,
        key: Seq<char>,
        binds: Seq<(H, V)>,
        at: u64,
        end: u64,
        holes: Seq<Hole>,
        but: Option<Seq<char>>,
        i: int,
    ) -> Result<As, Seq<char>>
        decreases holes.len() - i,
    {
        if i >= holes.len() {
            Ok(self)
        } else if but == Some(holes[i].name@) {
            self.fill_all(key, binds, at, end, holes, but, i + 1)
        } else {
            match self.fill(key, binds, at, end, holes[i]) {
                Err(e) => Err(e),
                Ok(a) => a.fill_all(key, binds, at, end, holes, but, i + 1),
            }
        }
    }

    /// The code of a stencil copied, up to `len`, and behind it in the pool the constants that it
    /// reads, with the references to them left to the linker.
    pub open spec fn lay(self, s: Stencil, len: int) -> As {
        let at = self.rg.code.len() as u64;
        let rg = self.rg.put(s.code@.subrange(0, len));
        if s.const_refs@.len() == 0 {
            As { rg, ..self }
        } else {
            let p = rg.pool_consts(s.consts@, s.consts_align);
            As { rg: with_const_refs(p.0, at, p.1, s.const_refs@, 0), ..self }
        }
    }

    /// A stencil copied and patched. Where its last branch leads to what is laid out next, the
    /// branch is not copied.
    pub open spec fn copy_stencil(self, key: Seq<char>, binds: Seq<(H, V)>, s: Stencil) -> Result<
        As,
        Seq<char>,
    > {
        let drop = match s.tail_hole() {
            Some(n) => if falls(binds, n) {
                Some(n)
            } else {
                None
            },
            None => None,
        };
        if drop is Some && s.code@.len() < 4 {
            Err(
                "stencil: stencil "@ + key + " is "@ + decimal(s.code@.len())
                    + " bytes, shorter than the tail branch it names"@,
            )
        } else {
            let len = if drop is Some {
                s.code@.len() - 4
            } else {
                s.code@.len() as int
            };
            let at = self.rg.code.len() as u64;
            self.lay(s, len).fill_all(
                key,
                binds,
                at,
                (at + len) as u64,
                s.holes@,
                drop,
                0,
            )
        }
    }

    /// The stencil of a key copied and patched.
    pub open spec fn emit(self, lib: Library, key: Seq<char>, binds: Seq<(H, V)>) -> Result<
        As,
        Seq<char>,
    > {
        if !lib.holds(key) {
            Err("stencil: no stencil "@ + key + " in "@ + lib.config@)
        } else {
            self.copy_stencil(key, binds, lib.stencils[chosen(lib, key, binds, 0)->0])
        }
    }
}

/// Whether a hole is bound to what is laid out next.
pub open spec fn falls(binds: Seq<(H, V)>, name: Seq<char>) -> bool {
    exists|i: int| 0 <= i < binds.len() && (#[trigger] binds[i]).0.text() == name && binds[i].1 == V::Fall
}

/// A unit while it is assembled.
pub struct Assembly {
    pub region: Region,
    pub fixups: Vec<Fix>,
    pub lits: Vec<u64>,
}

impl View for Assembly {
    type V = As;

    open spec fn view(&self) -> As {
        As { rg: self.region@, fixups: self.fixups@, lits: self.lits@ }
    }
}

/// Whether a step that can fail did what was asked.
pub open spec fn did<T>(r: Result<(), String>, now: T, asked: Result<T, Seq<char>>) -> bool {
    match r {
        Ok(_) => asked == Ok::<T, Seq<char>>(now),
        Err(e) => asked == Err::<T, Seq<char>>(e@),
    }
}

fn signed_of(d: i128) -> (r: String)
    requires
        -0x1_0000_0000_0000_0000 <= d <= 0x1_0000_0000_0000_0000,
    ensures
        r@ == signed(d as int),
{
    if d < 0 {
        let n: String = wide_decimal_of((-d) as u128);
        join2("-", n.as_str())
    } else {
        wide_decimal_of(d as u128)
    }
}

fn bound_to<'b>(binds: &'b Vec<(H, V)>, name: &str) -> (r: Option<&'b V>)
    ensures
        bound(binds@, name@, 0) == (match r {
            Some(v) => Some(*v),
            None => None,
        }),
{
    let mut i: usize = 0;
    while i < binds.len()
        invariant
            i <= binds.len(),
            bound(binds@, name@, i as int) == bound(binds@, name@, 0),
        decreases binds.len() - i,
    {
        if same(binds[i].0.name(), name) {
            return Some(&binds[i].1);
        }
        i = i + 1;
    }
    None
}

pub fn falls_through(binds: &Vec<(H, V)>, name: &str) -> (r: bool)
    ensures
        r == falls(binds@, name@),
{
    let mut i: usize = 0;
    while i < binds.len()
        invariant
            i <= binds.len(),
            forall|k: int|
                0 <= k < i ==> !((#[trigger] binds@[k]).0.text() == name@ && binds@[k].1 == V::Fall),
        decreases binds.len() - i,
    {
        let last: bool = match &binds[i].1 {
            V::Fall => true,
            _ => false,
        };
        if last && same(binds[i].0.name(), name) {
            assert(binds@[i as int].0.text() == name@);
            return true;
        }
        i = i + 1;
    }
    false
}

fn refer_to_consts(rg: &mut Region, at: u64, pool: u64, cs: &Vec<ConstRef>)
    ensures
        final(rg)@ == with_const_refs(old(rg)@, at, pool, cs@, 0),
        old(rg)@.wf() ==> final(rg)@.wf(),
{
    let mut i: usize = 0;
    while i < cs.len()
        invariant
            i <= cs.len(),
            old(rg)@.wf() ==> rg@.wf(),
            with_const_refs(rg@, at, pool, cs@, i as int) == with_const_refs(
                old(rg)@,
                at,
                pool,
                cs@,
                0,
            ),
        decreases cs.len() - i,
    {
        let c: ConstRef = cs[i];
        let addend: i128 = pool as i128 + c.at as i128 - (c.insn_end as i128 - c.field as i128);
        rg.reloc_to(
            plus(at, c.field as u64),
            RelocKind::Pc32,
            Target::Pool,
            #[verifier::truncate]
            (addend as i64),
        );
        i = i + 1;
    }
}

fn fits_fields(s: &Stencil, binds: &Vec<(H, V)>) -> (r: bool)
    ensures
        r == fits(*s, binds@),
{
    let mut i: usize = 0;
    while i < s.holes.len()
        invariant
            i <= s.holes.len(),
            forall|k: int|
                0 <= k < i ==> (#[trigger] s.holes[k]).lo12@.len() == 0 || match bound(
                    binds@,
                    s.holes[k].name@,
                    0,
                ) {
                    Some(V::I(v)) => reaches(s.holes[k].lo12@, v),
                    _ => false,
                },
        decreases s.holes.len() - i,
    {
        let h: &Hole = &s.holes[i];
        if h.lo12.len() > 0 {
            match bound_to(binds, h.name.as_str()) {
                Some(V::I(w)) => {
                    let v: u64 = *w;
                    let mut k: usize = 0;
                    while k < h.lo12.len()
                        invariant
                            k <= h.lo12.len(),
                            i < s.holes.len(),
                            *h == s.holes[i as int],
                            h.lo12@.len() > 0,
                            bound(binds@, h.name@, 0) == Some(V::I(v)),
                            forall|j: int|
                                0 <= j < k ==> (#[trigger] h.lo12@[j]).1 != 0 && v % h.lo12@[j].1 as u64
                                    == 0 && v / h.lo12@[j].1 as u64 <= 4095,
                        decreases h.lo12.len() - k,
                    {
                        let scale: u64 = h.lo12[k].1 as u64;
                        if scale == 0 || v % scale != 0 || v / scale > 4095 {
                            assert(!reaches(h.lo12@, v)) by {
                                let bad = h.lo12@[k as int];
                                assert(!(bad.1 != 0 && v % bad.1 as u64 == 0 && v / bad.1 as u64
                                    <= 4095));
                            }
                            return false;
                        }
                        k = k + 1;
                    }
                },
                _ => return false,
            }
        }
        i = i + 1;
    }
    true
}

/// The stencil that a key is copied from, and whether it is a folded twin.
pub fn choose_stencil<'l>(
    lib: &'l Library,
    key: &str,
    binds: &Vec<(H, V)>,
    plain: &'l Stencil,
) -> (r: (&'l Stencil, bool))
    requires
        lib.holds(key@),
        *plain == lib.stencils[lib.slot(key@)->0],
    ensures
        chosen(*lib, key@, binds@, 0) is Some,
        *r.0 == lib.stencils[chosen(*lib, key@, binds@, 0)->0],
        r.1 == folds(*lib, key@, binds@),
{
    let mut k: usize = 0;
    while k < 3
        invariant
            k <= 3,
            k > 0 ==> !twin_fits(*lib, key@, binds@, 0),
            k > 1 ==> !twin_fits(*lib, key@, binds@, 1),
            k > 2 ==> !twin_fits(*lib, key@, binds@, 2),
            chosen(*lib, key@, binds@, k as int) == chosen(*lib, key@, binds@, 0),
        decreases 3 - k,
    {
        let suffix: &str = if k == 0 {
            "+ifold+fold"
        } else if k == 1 {
            "+fold"
        } else {
            "+ifold"
        };
        let twin: String = join2(key, suffix);
        match lib.get(twin.as_str()) {
            Some(s) => {
                if fits_fields(s, binds) {
                    return (s, true);
                }
            },
            None => {},
        }
        k = k + 1;
    }
    (plain, false)
}

pub fn patch_branch(rg: &mut Region, at: u64, target: u64) -> (r: Result<(), String>)
    ensures
        did(r, final(rg)@, with_branch(old(rg)@, at, target)),
        old(rg)@.wf() ==> final(rg)@.wf(),
{
    let d: i128 = target as i128 - at as i128;
    if d % 4 != 0 {
        return Err(own("misaligned branch"));
    }
    let w: i128 = d / 4;
    if !(-0x200_0000 <= w && w < 0x200_0000) {
        let n: String = signed_of(d);
        return Err(join2("branch out of range: ", n.as_str()));
    }
    let word: u32 = rg.word_at(at);
    rg.set_word(at, (word & 0xfc00_0000) | ((w as u32) & 0x3ff_ffff));
    Ok(())
}

fn patch_near(rg: &mut Region, at: u64, target: u64) -> (r: Result<(), String>)
    ensures
        did(r, final(rg)@, with_near(old(rg)@, at, target)),
        old(rg)@.wf() ==> final(rg)@.wf(),
{
    let d: i128 = target as i128 - at as i128;
    if d % 4 != 0 {
        return Err(own("misaligned conditional branch"));
    }
    let w: i128 = d / 4;
    if !(-0x4_0000 <= w && w < 0x4_0000) {
        let n: String = signed_of(d);
        return Err(
            join3("conditional branch out of imm19 range: ", n.as_str(), " bytes"),
        );
    }
    let word: u32 = rg.word_at(at);
    rg.set_word(at, (word & 0xff00_001f) | (((w as u32) & 0x7_ffff) << 5));
    Ok(())
}

pub fn patch_cond(rg: &mut Region, at: u64, target: u64, veneer: bool) -> (r: Result<(), String>)
    ensures
        did(r, final(rg)@, with_cond(old(rg)@, at, target, veneer)),
        old(rg)@.wf() ==> final(rg)@.wf(),
{
    let d: i128 = target as i128 - at as i128;
    if -0x10_0000 <= d && d < 0x10_0000 {
        return patch_near(rg, at, target);
    }
    if !veneer {
        let n: String = signed_of(d);
        return Err(
            join3(
                "a conditional-branch hole reached a target ",
                n.as_str(),
                " bytes away while the function was still being emitted",
            ),
        );
    }
    rg.align_code(4);
    let v: u64 = rg.code_addr();
    let mut b: Vec<u8> = Vec::new();
    crate::bytes::put32(&mut b, B);
    assert(b@ =~= le32(B));
    rg.put(b.as_slice());
    match patch_branch(rg, v, target) {
        Err(e) => Err(e),
        Ok(_) => patch_near(rg, at, v),
    }
}

fn patch_imm32(rg: &mut Region, first: u64, second: u64, v: u32) -> (r: Result<(), String>)
    ensures
        did(r, final(rg)@, with_imm32(old(rg)@, first, second, v)),
        old(rg)@.wf() ==> final(rg)@.wf(),
{
    let rd: u32 = rg.word_at(first) & 0x1f;
    if rg.word_at(second) & 0x1f != rd {
        return Err(own("a literal's pair of instructions has two destinations"));
    }
    rg.set_word(first, 0xd280_0000 | ((v & 0xffff) << 5) | rd);
    rg.set_word(second, 0xf2a0_0000 | (((v >> 16) & 0xffff) << 5) | rd);
    Ok(())
}

fn patch_lo12(rg: &mut Region, at: u64, v: u32, scale: u32) -> (r: Result<(), String>)
    ensures
        did(r, final(rg)@, with_lo12(old(rg)@, at, v, scale)),
        old(rg)@.wf() ==> final(rg)@.wf(),
{
    if scale == 0 || v % scale != 0 || v / scale > 4095 {
        return Err(own("a literal does not fit its twelve-bit field"));
    }
    let w: u32 = rg.word_at(at);
    rg.set_word(at, (w & 0xffc0_03ff) | (((v / scale) & 0xfff) << 10));
    Ok(())
}

fn patch_branches(rg: &mut Region, at: u64, offs: &Vec<u32>, target: u64) -> (r: Result<(), String>)
    ensures
        did(r, final(rg)@, with_branches(old(rg)@, at, offs@, target, 0)),
        old(rg)@.wf() ==> final(rg)@.wf(),
{
    let mut i: usize = 0;
    while i < offs.len()
        invariant
            old(rg)@.wf() ==> rg@.wf(),
            i <= offs.len(),
            with_branches(rg@, at, offs@, target, i as int) == with_branches(
                old(rg)@,
                at,
                offs@,
                target,
                0,
            ),
        decreases offs.len() - i,
    {
        match patch_branch(rg, plus(at, offs[i] as u64), target) {
            Err(e) => return Err(e),
            Ok(_) => {},
        }
        i = i + 1;
    }
    Ok(())
}

fn patch_conds(rg: &mut Region, at: u64, offs: &Vec<u32>, target: u64) -> (r: Result<(), String>)
    ensures
        did(r, final(rg)@, with_conds(old(rg)@, at, offs@, target, 0)),
        old(rg)@.wf() ==> final(rg)@.wf(),
{
    let mut i: usize = 0;
    while i < offs.len()
        invariant
            old(rg)@.wf() ==> rg@.wf(),
            i <= offs.len(),
            with_conds(rg@, at, offs@, target, i as int) == with_conds(
                old(rg)@,
                at,
                offs@,
                target,
                0,
            ),
        decreases offs.len() - i,
    {
        match patch_cond(rg, plus(at, offs[i] as u64), target, false) {
            Err(e) => return Err(e),
            Ok(_) => {},
        }
        i = i + 1;
    }
    Ok(())
}

fn patch_imm32s(rg: &mut Region, at: u64, pairs: &Vec<(u32, u32)>, v: u32) -> (r: Result<(), String>)
    ensures
        did(r, final(rg)@, with_imm32s(old(rg)@, at, pairs@, v, 0)),
        old(rg)@.wf() ==> final(rg)@.wf(),
{
    let mut i: usize = 0;
    while i < pairs.len()
        invariant
            old(rg)@.wf() ==> rg@.wf(),
            i <= pairs.len(),
            with_imm32s(rg@, at, pairs@, v, i as int) == with_imm32s(old(rg)@, at, pairs@, v, 0),
        decreases pairs.len() - i,
    {
        match patch_imm32(rg, plus(at, pairs[i].0 as u64), plus(at, pairs[i].1 as u64), v) {
            Err(e) => return Err(e),
            Ok(_) => {},
        }
        i = i + 1;
    }
    Ok(())
}

fn patch_lo12s(rg: &mut Region, at: u64, fields: &Vec<(u32, u32)>, v: u32) -> (r: Result<(), String>)
    ensures
        did(r, final(rg)@, with_lo12s(old(rg)@, at, fields@, v, 0)),
        old(rg)@.wf() ==> final(rg)@.wf(),
{
    let mut i: usize = 0;
    while i < fields.len()
        invariant
            old(rg)@.wf() ==> rg@.wf(),
            i <= fields.len(),
            with_lo12s(rg@, at, fields@, v, i as int) == with_lo12s(old(rg)@, at, fields@, v, 0),
        decreases fields.len() - i,
    {
        match patch_lo12(rg, plus(at, fields[i].0 as u64), v, fields[i].1) {
            Err(e) => return Err(e),
            Ok(_) => {},
        }
        i = i + 1;
    }
    Ok(())
}

fn pool_refs(rg: &mut Region, at: u64, pairs: &Vec<(u32, u32)>, slot: u64)
    ensures
        final(rg)@ == with_refs(old(rg)@, at, pairs@, slot, 0),
        old(rg)@.wf() ==> final(rg)@.wf(),
{
    let mut i: usize = 0;
    while i < pairs.len()
        invariant
            old(rg)@.wf() ==> rg@.wf(),
            i <= pairs.len(),
            with_refs(rg@, at, pairs@, slot, i as int) == with_refs(old(rg)@, at, pairs@, slot, 0),
        decreases pairs.len() - i,
    {
        rg.pool_ref(plus(at, pairs[i].0 as u64), plus(at, pairs[i].1 as u64), slot);
        i = i + 1;
    }
}

fn symbol_branches(rg: &mut Region, at: u64, offs: &Vec<u32>, name: &str)
    ensures
        final(rg)@ == with_symbols(old(rg)@, at, offs@, name@, 0),
        old(rg)@.wf() ==> final(rg)@.wf(),
{
    let mut i: usize = 0;
    while i < offs.len()
        invariant
            old(rg)@.wf() ==> rg@.wf(),
            i <= offs.len(),
            with_symbols(rg@, at, offs@, name@, i as int) == with_symbols(
                old(rg)@,
                at,
                offs@,
                name@,
                0,
            ),
        decreases offs.len() - i,
    {
        rg.reloc(plus(at, offs[i] as u64), RelocKind::Branch26, Target::Symbol(own(name)));
        i = i + 1;
    }
}

fn can_relax(rg: &Region, at: u64, pairs: &Vec<(u32, u32)>) -> (r: bool)
    ensures
        r == relaxable(rg@, at, pairs@),
{
    let mut i: usize = 0;
    while i < pairs.len()
        invariant
            i <= pairs.len(),
            forall|k: int|
                0 <= k < i ==> {
                    let a = word_of(rg@.code, (at + (#[trigger] pairs@[k]).0) as u64 as int);
                    let b = word_of(rg@.code, (at + pairs@[k].1) as u64 as int);
                    destination(a) == destination(b) && destination(a) == (b >> 5) & 0x1f
                },
        decreases pairs.len() - i,
    {
        let a: u32 = rg.word_at(plus(at, pairs[i].0 as u64));
        let b: u32 = rg.word_at(plus(at, pairs[i].1 as u64));
        if !(a & 0x1f == b & 0x1f && a & 0x1f == (b >> 5) & 0x1f) {
            assert(!relaxable(rg@, at, pairs@)) by {
                let p = pairs@[i as int];
                assert(a == word_of(rg@.code, (at + p.0) as u64 as int));
            }
            return false;
        }
        i = i + 1;
    }
    true
}

impl Assembly {
    fn branch_to(&mut self, at: u64, h: &Hole, target: u64) -> (r: Result<(), String>)
        ensures
            did(r, final(self)@, old(self)@.branch_to(at, *h, target)),
            old(self)@.rg.wf() ==> final(self)@.rg.wf(),
    {
        match patch_branches(&mut self.region, at, &h.branches, target) {
            Err(e) => Err(e),
            Ok(_) => patch_conds(&mut self.region, at, &h.conds, target),
        }
    }

    fn branch_hole(&mut self, at: u64, end: u64, h: &Hole, v: &V) -> (r: Result<(), String>)
        ensures
            did(r, final(self)@, old(self)@.branch_hole(at, end, *h, *v)),
            old(self)@.rg.wf() ==> final(self)@.rg.wf(),
    {
        match v {
            V::I(x) => self.branch_to(at, h, *x),
            V::Ptr(k) => {
                let x: u64 = ent(&self.lits, *k, 0);
                self.branch_to(at, h, x)
            },
            V::Fall => self.branch_to(at, h, end),
            V::Sym(i) => {
                let name: String = symbol(*i);
                symbol_branches(&mut self.region, at, &h.branches, name.as_str());
                Ok(())
            },
            V::Ext(name) => {
                symbol_branches(&mut self.region, at, &h.branches, name.as_str());
                Ok(())
            },
            V::Blk(target) => {
                let b: usize = *target;
                let mut i: usize = 0;
                while i < h.branches.len()
                    invariant
                        old(self)@.rg.wf() ==> self@.rg.wf(),
                        i <= h.branches.len(),
                        self.region == old(self).region,
                        self.lits == old(self).lits,
                        block_fixes(self.fixups@, at, h.branches@, b, false, i as int)
                            == block_fixes(old(self).fixups@, at, h.branches@, b, false, 0),
                    decreases h.branches.len() - i,
                {
                    self.fixups.push(Fix::Block { at: plus(at, h.branches[i] as u64), blk: b });
                    i = i + 1;
                }
                let ghost first = self.fixups@;
                let mut k: usize = 0;
                while k < h.conds.len()
                    invariant
                        old(self)@.rg.wf() ==> self@.rg.wf(),
                        k <= h.conds.len(),
                        self.region == old(self).region,
                        self.lits == old(self).lits,
                        block_fixes(self.fixups@, at, h.conds@, b, true, k as int) == block_fixes(
                            first,
                            at,
                            h.conds@,
                            b,
                            true,
                            0,
                        ),
                    decreases h.conds.len() - k,
                {
                    self.fixups.push(Fix::BlockCond { at: plus(at, h.conds[k] as u64), blk: b });
                    k = k + 1;
                }
                Ok(())
            },
            V::Fn(target) => {
                let f: usize = *target;
                let mut i: usize = 0;
                while i < h.branches.len()
                    invariant
                        old(self)@.rg.wf() ==> self@.rg.wf(),
                        i <= h.branches.len(),
                        self.region == old(self).region,
                        self.lits == old(self).lits,
                        func_fixes(self.fixups@, at, h.branches@, f, i as int) == func_fixes(
                            old(self).fixups@,
                            at,
                            h.branches@,
                            f,
                            0,
                        ),
                    decreases h.branches.len() - i,
                {
                    self.fixups.push(Fix::Func { at: plus(at, h.branches[i] as u64), f });
                    i = i + 1;
                }
                Ok(())
            },
        }
    }

    fn literal_hole(&mut self, at: u64, h: &Hole, v: &V) -> (r: Result<(), String>)
        ensures
            did(r, final(self)@, old(self)@.literal_hole(at, *h, *v)),
            old(self)@.rg.wf() ==> final(self)@.rg.wf(),
    {
        match v {
            V::I(x) => match patch_imm32s(&mut self.region, at, &h.pairs, *x as u32) {
                Err(e) => Err(e),
                Ok(_) => patch_lo12s(&mut self.region, at, &h.lo12, *x as u32),
            },
            _ => Err(join3("stencil: hole ", h.name.as_str(), " takes a literal")),
        }
    }

    fn datum_pairs(&mut self, at: u64, h: &Hole, v: &V) -> (r: Result<(), String>)
        ensures
            did(r, final(self)@, old(self)@.datum_pairs(at, *h, *v)),
            old(self)@.rg.wf() ==> final(self)@.rg.wf(),
    {
        let slot: u64 = match v {
            V::I(x) => {
                if *x < 0x1_0000_0000 && can_relax(&self.region, at, &h.pairs) {
                    return patch_imm32s(&mut self.region, at, &h.pairs, *x as u32);
                }
                self.region.pool_u64(*x)
            },
            V::Ptr(k) => {
                let x: u64 = ent(&self.lits, *k, 0);
                self.region.pool_target(Target::Here(x))
            },
            V::Fn(f) => self.region.pool_target(Target::Func(*f as u32)),
            V::Sym(i) => {
                let name: String = symbol(*i);
                self.region.pool_target(Target::Symbol(name))
            },
            V::Ext(name) => self.region.pool_target(Target::Symbol(name.clone())),
            _ => {
                return Err(join3("stencil: hole ", h.name.as_str(), " takes a datum"));
            },
        };
        pool_refs(&mut self.region, at, &h.pairs, slot);
        Ok(())
    }

    fn datum_hole(&mut self, at: u64, h: &Hole, v: &V) -> (r: Result<(), String>)
        ensures
            did(r, final(self)@, old(self)@.datum_hole(at, *h, *v)),
            old(self)@.rg.wf() ==> final(self)@.rg.wf(),
    {
        if h.lo12.len() == 0 {
            return self.datum_pairs(at, h, v);
        }
        match v {
            V::I(x) => match patch_lo12s(&mut self.region, at, &h.lo12, *x as u32) {
                Err(e) => Err(e),
                Ok(_) => {
                    if h.pairs.len() == 0 {
                        Ok(())
                    } else {
                        self.datum_pairs(at, h, v)
                    }
                },
            },
            _ => Err(
                join3(
                    "stencil: hole ",
                    h.name.as_str(),
                    " was folded into an imm12 but is not an offset",
                ),
            ),
        }
    }

    /// Fills in a hole.
    pub fn patch_hole(&mut self, at: u64, end: u64, h: &Hole, v: &V) -> (r: Result<(), String>)
        ensures
            did(r, final(self)@, old(self)@.patch_hole(at, end, *h, *v)),
            old(self)@.rg.wf() ==> final(self)@.rg.wf(),
    {
        match h.kind {
            HoleKind::Branch => self.branch_hole(at, end, h, v),
            HoleKind::Imm32 => self.literal_hole(at, h, v),
            HoleKind::Imm64 => self.datum_hole(at, h, v),
        }
    }

    /// A hole that names a symbol outside the program: one relocation per site, and no instruction
    /// rewritten.
    pub fn import(&mut self, at: u64, h: &Hole)
        ensures
            final(self)@ == old(self)@.import(at, *h),
            old(self)@.rg.wf() ==> final(self)@.rg.wf(),
    {
        symbol_branches(&mut self.region, at, &h.branches, h.name.as_str());
        if h.pairs.len() > 0 {
            let slot: u64 = self.region.pool_target(Target::Symbol(h.name.clone()));
            pool_refs(&mut self.region, at, &h.pairs, slot);
        }
    }

    /// Copies the stencil of a key and fills in its holes.
    pub fn emit(&mut self, lib: &Library, key: &str, binds: &Vec<(H, V)>) -> (r: Result<(), String>)
        ensures
            did(r, final(self)@, old(self)@.emit(*lib, key@, binds@)),
            old(self)@.rg.wf() ==> final(self)@.rg.wf(),
    {
        let plain: &Stencil = match lib.get(key) {
            None => {
                return Err(join4("stencil: no stencil ", key, " in ", lib.config.as_str()));
            },
            Some(s) => s,
        };
        let s: &Stencil = choose_stencil(lib, key, binds, plain).0;
        let drop: Option<&str> = match s.tail_name() {
            Some(n) => if falls_through(binds, n) {
                Some(n)
            } else {
                None
            },
            None => None,
        };
        let total: usize = s.code.len();
        if drop.is_some() && total < 4 {
            let n: String = decimal_of(total as u64);
            return Err(
                join5(
                    "stencil: stencil ",
                    key,
                    " is ",
                    n.as_str(),
                    " bytes, shorter than the tail branch it names",
                ),
            );
        }
        let len: usize = if drop.is_some() {
            total - 4
        } else {
            total
        };
        let bytes: Vec<u8> = crate::bytes::part(s.code.as_slice(), 0, len);
        let at: u64 = self.region.put(bytes.as_slice());
        let end: u64 = self.region.code_addr();
        if s.const_refs.len() > 0 {
            let pool: u64 = self.region.pool_consts(s.consts.as_slice(), s.consts_align);
            refer_to_consts(&mut self.region, at, pool, &s.const_refs);
        }
        let ghost but = match drop {
            Some(n) => Some(n@),
            None => None,
        };
        let ghost start = self@;
        assert(old(self)@.emit(*lib, key@, binds@) == start.fill_all(
            key@,
            binds@,
            at,
            end,
            s.holes@,
            but,
            0,
        ));
        let mut i: usize = 0;
        while i < s.holes.len()
            invariant
                old(self)@.rg.wf() ==> self@.rg.wf(),
                i <= s.holes.len(),
                but == (match drop {
                    Some(n) => Some(n@),
                    None => None,
                }),
                old(self)@.emit(*lib, key@, binds@) == start.fill_all(
                    key@,
                    binds@,
                    at,
                    end,
                    s.holes@,
                    but,
                    0,
                ),
                self@.fill_all(key@, binds@, at, end, s.holes@, but, i as int) == start.fill_all(
                    key@,
                    binds@,
                    at,
                    end,
                    s.holes@,
                    but,
                    0,
                ),
            decreases s.holes.len() - i,
        {
            let h: &Hole = &s.holes[i];
            let dropped: bool = match drop {
                Some(n) => same(n, h.name.as_str()),
                None => false,
            };
            if !dropped {
                match bound_to(binds, h.name.as_str()) {
                    Some(v) => match self.patch_hole(at, end, h, v) {
                        Err(e) => return Err(e),
                        Ok(_) => {},
                    },
                    None => {
                        if strip_prefix(h.name.as_str(), "JIT_").is_some() {
                            return Err(
                                join4(
                                    "stencil: stencil ",
                                    key,
                                    " has an unbound hole ",
                                    h.name.as_str(),
                                ),
                            );
                        }
                        self.import(at, h);
                    },
                }
            }
            i = i + 1;
        }
        Ok(())
    }
}

} // verus!
