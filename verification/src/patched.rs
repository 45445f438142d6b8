//! What a patched instruction does.
//!
//! The displacement of a branch counts instructions, and is a signed field of the word. A branch
//! that was filled in lands on its target, and nothing else in the code moves.

use crate::a64::{a_displacement_is_where_it_was_put, with_19, with_26, B, BUT_19, BUT_26};
use crate::assemble::{
    const_addend, destination, with_12, with_branch, with_cond, with_imm32, with_lo12, with_near, with_const_refs, with_symbols,
    As, Fix,
};
use crate::body::without;
use crate::bytes::{a_word_put_is_a_word_found, le32, word_of};
use crate::ir::Program;
use crate::jit::{resolved, symbol_text};
use crate::library::{ConstRef, Hole, HoleKind, Stencil};
use crate::region::{RelocKind, Rg, Rl, Tg};
use crate::select::V;
use vstd::prelude::*;

verus! {

/// A field of `2 * half` values, read as a signed number.
pub open spec fn signed_field(f: int, half: int) -> int {
    if f < half {
        f
    } else {
        f - 2 * half
    }
}

/// Where the branch in a word at `at` lands.
pub open spec fn lands(w: u32, at: u64) -> int {
    at + 4 * signed_field((w & 0x3ff_ffff) as int, 0x200_0000)
}

/// Where the conditional branch in a word at `at` lands.
pub open spec fn lands_near(w: u32, at: u64) -> int {
    at + 4 * signed_field(((w >> 5) & 0x7_ffff) as int, 0x4_0000)
}

/// Whether only the word at `at` differs.
pub open spec fn only_at(a: Rg, b: Rg, at: u64) -> bool {
    &&& b == (Rg { code: b.code, ..a })
    &&& b.code.len() == a.code.len()
    &&& forall|i: int|
        0 <= i < a.code.len() && !(at <= i < at + 4) ==> #[trigger] b.code[i] == a.code[i]
}

proof fn lemma_field26(q: int)
    requires
        -0x200_0000 <= q < 0x200_0000,
    ensures
        signed_field(((q as u32) & 0x3ff_ffff) as int, 0x200_0000) == q,
{
    let z = q as i32;
    assert(z as u32 == q as u32);
    assert(-0x200_0000 <= z < 0x200_0000 ==> (z >= 0 ==> (z as u32) & 0x3ff_ffff == z) && (z < 0
        ==> (z as u32) & 0x3ff_ffff == z + 0x400_0000)) by (bit_vector);
}

proof fn lemma_field19(q: int)
    requires
        -0x4_0000 <= q < 0x4_0000,
    ensures
        signed_field(((q as u32) & 0x7_ffff) as int, 0x4_0000) == q,
{
    let z = q as i32;
    assert(z as u32 == q as u32);
    assert(-0x4_0000 <= z < 0x4_0000 ==> (z >= 0 ==> (z as u32) & 0x7_ffff == z) && (z < 0 ==> (
    z as u32) & 0x7_ffff == z + 0x8_0000)) by (bit_vector);
}

/// A branch that was filled in lands on its target. Its other bits stay, and so does everything
/// around it.
pub proof fn a_branch_lands_on_its_target(rg: Rg, at: u64, target: u64)
    requires
        with_branch(rg, at, target) is Ok,
        at + 4 <= rg.code.len(),
    ensures
        ({
            let now = with_branch(rg, at, target)->Ok_0;
            let w = word_of(now.code, at as int);
            &&& lands(w, at) == target
            &&& w & BUT_26 == word_of(rg.code, at as int) & BUT_26
            &&& only_at(rg, now, at)
        }),
{
    let d = target - at;
    let q = d / 4;
    let old_word = word_of(rg.code, at as int);
    a_word_put_is_a_word_found(rg.code, at as int, with_26(old_word, q as u32));
    a_displacement_is_where_it_was_put(old_word, q as u32);
    lemma_field26(q);
}

/// A conditional branch that was filled in lands on its target. Its other bits stay, and so does
/// everything around it.
pub proof fn a_conditional_branch_lands_on_its_target(rg: Rg, at: u64, target: u64)
    requires
        with_near(rg, at, target) is Ok,
        at + 4 <= rg.code.len(),
    ensures
        ({
            let now = with_near(rg, at, target)->Ok_0;
            let w = word_of(now.code, at as int);
            &&& lands_near(w, at) == target
            &&& w & BUT_19 == word_of(rg.code, at as int) & BUT_19
            &&& only_at(rg, now, at)
        }),
{
    let d = target - at;
    let q = d / 4;
    let old_word = word_of(rg.code, at as int);
    a_word_put_is_a_word_found(rg.code, at as int, with_19(old_word, q as u32));
    a_displacement_is_where_it_was_put(old_word, q as u32);
    lemma_field19(q);
}

/// The literal that a `movz` and the `movk` of its second half leave in a register.
pub open spec fn formed(first: u32, second: u32) -> u32 {
    (((first >> 5) & 0xffff) | (((second >> 5) & 0xffff) << 16)) as u32
}

/// A pair of instructions that was rewritten forms the literal, in the register the pair wrote.
pub proof fn a_pair_forms_its_literal(rg: Rg, first: u64, second: u64, v: u32)
    requires
        with_imm32(rg, first, second, v) is Ok,
        first + 4 <= rg.code.len(),
        second + 4 <= rg.code.len(),
        first + 4 <= second || second + 4 <= first,
    ensures
        ({
            let now = with_imm32(rg, first, second, v)->Ok_0;
            let a = word_of(now.code, first as int);
            let b = word_of(now.code, second as int);
            &&& formed(a, b) == v
            &&& a & 0xffe0_0000 == 0xd280_0000
            &&& b & 0xffe0_0000 == 0xf2a0_0000
            &&& destination(a) == destination(word_of(rg.code, first as int))
            &&& destination(b) == destination(a)
        }),
{
    let rd = destination(word_of(rg.code, first as int));
    let x = word_of(rg.code, first as int);
    assert(x & 0x1f <= 31) by (bit_vector);
    let a = 0xd280_0000 | ((v & 0xffff) << 5) | rd;
    let b = 0xf2a0_0000 | (((v >> 16) & 0xffff) << 5) | rd;
    a_word_put_is_a_word_found(rg.code, first as int, a);
    let mid = rg.set_word(first, a);
    a_word_put_is_a_word_found(mid.code, second as int, b);
    let now = mid.set_word(second, b);
    assert(word_of(now.code, first as int) == word_of(mid.code, first as int)) by {
        let f = first as int;
        assert(now.code[f] == mid.code[f]);
        assert(now.code[f + 1] == mid.code[f + 1]);
        assert(now.code[f + 2] == mid.code[f + 2]);
        assert(now.code[f + 3] == mid.code[f + 3]);
    }
    assert(rd <= 31 ==> ({
        let a = 0xd280_0000u32 | ((v & 0xffff) << 5) | rd;
        let b = 0xf2a0_0000u32 | (((v >> 16) & 0xffff) << 5) | rd;
        (((a >> 5) & 0xffff) | (((b >> 5) & 0xffff) << 16)) == v && a & 0xffe0_0000 == 0xd280_0000
            && b & 0xffe0_0000 == 0xf2a0_0000 && a & 0x1f == rd && b & 0x1f == rd
    })) by (bit_vector);
}

/// A twelve-bit field that was filled in holds the literal, in units of its scale.
pub proof fn a_field_holds_its_literal(rg: Rg, at: u64, v: u32, scale: u32)
    requires
        with_lo12(rg, at, v, scale) is Ok,
        at + 4 <= rg.code.len(),
    ensures
        ({
            let now = with_lo12(rg, at, v, scale)->Ok_0;
            let w = word_of(now.code, at as int);
            &&& ((w >> 10) & 0xfff) * scale == v
            &&& only_at(rg, now, at)
        }),
{
    let w = word_of(rg.code, at as int);
    let k = v / scale;
    a_word_put_is_a_word_found(rg.code, at as int, with_12(w, k));
    assert(k <= 4095 ==> ((((w & 0xffc0_03ff) | ((k & 0xfff) << 10)) >> 10) & 0xfff) == k)
        by (bit_vector);
    assert(k * scale == v) by {
        vstd::arithmetic::div_mod::lemma_fundamental_div_mod(v as int, scale as int);
        assert(scale as int * (v as int / scale as int) == k * scale) by (nonlinear_arith)
            requires
                k == v as int / scale as int,
        ;
    }
}

/// Whether an open branch is to a function.
pub open spec fn is_call(f: Fix) -> bool {
    f is Func
}

/// When a body is resolved, no branch of it to one of its blocks is open. What was open before it
/// stays.
pub proof fn no_branch_to_a_block_stays_open(a: As, blk: Seq<u64>, base: int, i: int)
    requires
        0 <= base <= i,
        base <= a.fixups.len(),
        forall|k: int| base <= k < i && k < a.fixups.len() ==> is_call(#[trigger] a.fixups[k]),
        a.resolve_blocks(blk, i) is Ok,
    ensures
        ({
            let now = a.resolve_blocks(blk, i)->Ok_0;
            &&& base <= now.fixups.len()
            &&& forall|k: int| base <= k < now.fixups.len() ==> is_call(#[trigger] now.fixups[k])
            &&& forall|k: int| 0 <= k < base ==> now.fixups[k] == #[trigger] a.fixups[k]
        }),
    decreases a.fixups.len() - i,
{
    if i < a.fixups.len() {
        match a.fixups[i] {
            Fix::Block { at, blk: b } => {
                let rg = with_branch(a.rg, at, crate::types::at_or(blk, b as int, 0u64))->Ok_0;
                let n = As { rg, fixups: without(a.fixups, i), ..a };
                assert forall|k: int| 0 <= k < i implies #[trigger] n.fixups[k] == a.fixups[k] by {}
                no_branch_to_a_block_stays_open(n, blk, base, i);
                let now = a.resolve_blocks(blk, i)->Ok_0;
                assert forall|k: int| 0 <= k < base implies now.fixups[k]
                    == #[trigger] a.fixups[k] by {
                    assert(n.fixups[k] == a.fixups[k]);
                }
            },
            Fix::BlockCond { at, blk: b } => {
                let rg = with_cond(
                    a.rg,
                    at,
                    crate::types::at_or(blk, b as int, 0u64),
                    true,
                )->Ok_0;
                let n = As { rg, fixups: without(a.fixups, i), ..a };
                assert forall|k: int| 0 <= k < i implies #[trigger] n.fixups[k] == a.fixups[k] by {}
                no_branch_to_a_block_stays_open(n, blk, base, i);
                let now = a.resolve_blocks(blk, i)->Ok_0;
                assert forall|k: int| 0 <= k < base implies now.fixups[k]
                    == #[trigger] a.fixups[k] by {
                    assert(n.fixups[k] == a.fixups[k]);
                }
            },
            Fix::Func { at, f } => {
                no_branch_to_a_block_stays_open(a, blk, base, i + 1);
            },
        }
    }
}

/// Every call of a function is left to the linker, by the function's symbol, and no instruction is
/// rewritten for it.
pub proof fn every_call_is_left_to_the_linker(rg: Rg, prog: Program, fixups: Seq<Fix>, i: int)
    requires
        0 <= i <= fixups.len(),
    ensures
        ({
            let now = resolved(rg, prog, fixups, i);
            &&& now.code == rg.code
            &&& now.pool == rg.pool
            &&& now.relocs.len() >= rg.relocs.len()
            &&& forall|k: int| 0 <= k < rg.relocs.len() ==> #[trigger] now.relocs[k] == rg.relocs[k]
            &&& forall|k: int|
                i <= k < fixups.len() ==> (#[trigger] fixups[k] matches Fix::Func { at, f }
                    ==> now.relocs.contains(
                    Rl {
                        at,
                        kind: RelocKind::Branch26,
                        target: Tg::Symbol(symbol_text(prog, f as u32)),
                        addend: 0,
                    },
                ))
        }),
    decreases fixups.len() - i,
{
    if i < fixups.len() {
        match fixups[i] {
            Fix::Func { at, f } => {
                let r = Rl {
                    at,
                    kind: RelocKind::Branch26,
                    target: Tg::Symbol(symbol_text(prog, f as u32)),
                    addend: 0,
                };
                let n = rg.rel(at, RelocKind::Branch26, Tg::Symbol(symbol_text(prog, f as u32)), 0);
                every_call_is_left_to_the_linker(n, prog, fixups, i + 1);
                let now = resolved(rg, prog, fixups, i);
                assert(n.relocs[rg.relocs.len() as int] == r);
                assert(now.relocs[rg.relocs.len() as int] == r);
                assert forall|k: int| 0 <= k < rg.relocs.len() implies #[trigger] now.relocs[k]
                    == rg.relocs[k] by {
                    assert(now.relocs[k] == n.relocs[k]);
                }
            },
            _ => {
                every_call_is_left_to_the_linker(rg, prog, fixups, i + 1);
            },
        }
    }
}

/// Relocations against a symbol rewrite no instruction and leave no site out.
proof fn lemma_symbols(rg: Rg, at: u64, offs: Seq<u32>, name: Seq<char>, i: int)
    requires
        0 <= i <= offs.len(),
    ensures
        ({
            let now = with_symbols(rg, at, offs, name, i);
            &&& now == (Rg { relocs: now.relocs, ..rg })
            &&& now.relocs.len() == rg.relocs.len() + offs.len() - i
            &&& forall|k: int| 0 <= k < rg.relocs.len() ==> #[trigger] now.relocs[k] == rg.relocs[k]
            &&& forall|k: int|
                i <= k < offs.len() ==> now.relocs[rg.relocs.len() + k - i] == (Rl {
                    at: (at + #[trigger] offs[k]) as u64,
                    kind: RelocKind::Branch26,
                    target: Tg::Symbol(name),
                    addend: 0,
                })
        }),
    decreases offs.len() - i,
{
    if i < offs.len() {
        let n = rg.rel((at + offs[i]) as u64, RelocKind::Branch26, Tg::Symbol(name), 0);
        lemma_symbols(n, at, offs, name, i + 1);
        let now = with_symbols(rg, at, offs, name, i);
        assert forall|k: int| i <= k < offs.len() implies now.relocs[rg.relocs.len() + k - i] == (Rl {
            at: (at + #[trigger] offs[k]) as u64,
            kind: RelocKind::Branch26,
            target: Tg::Symbol(name),
            addend: 0,
        }) by {
            if k == i {
                assert(now.relocs[rg.relocs.len() as int] == n.relocs[rg.relocs.len() as int]);
            }
        }
    }
}

/// A call out of the program is a branch to a symbol that the linker resolves: each of its sites gets
/// a relocation against the symbol, in order, and nothing else changes.
pub proof fn a_call_out_of_the_program_is_left_to_the_linker(
    a: As,
    at: u64,
    end: u64,
    h: Hole,
    name: String,
)
    requires
        h.kind == HoleKind::Branch,
    ensures
        ({
            let r = a.patch_hole(at, end, h, V::Ext(name));
            let now = r->Ok_0;
            &&& r is Ok
            &&& now == (As { rg: Rg { relocs: now.rg.relocs, ..a.rg }, ..a })
            &&& now.rg.relocs.len() == a.rg.relocs.len() + h.branches@.len()
            &&& forall|k: int|
                0 <= k < a.rg.relocs.len() ==> #[trigger] now.rg.relocs[k] == a.rg.relocs[k]
            &&& forall|k: int|
                0 <= k < h.branches@.len() ==> now.rg.relocs[a.rg.relocs.len() + k] == (Rl {
                    at: (at + #[trigger] h.branches@[k]) as u64,
                    kind: RelocKind::Branch26,
                    target: Tg::Symbol(name@),
                    addend: 0,
                })
        }),
{
    lemma_symbols(a.rg, at, h.branches@, name@, 0);
}

proof fn lemma_const_refs(rg: Rg, at: u64, pool: u64, cs: Seq<ConstRef>, i: int)
    requires
        0 <= i <= cs.len(),
    ensures
        ({
            let now = with_const_refs(rg, at, pool, cs, i);
            &&& now == (Rg { relocs: now.relocs, ..rg })
            &&& now.relocs.len() == rg.relocs.len() + cs.len() - i
            &&& forall|k: int| 0 <= k < rg.relocs.len() ==> #[trigger] now.relocs[k] == rg.relocs[k]
            &&& forall|k: int|
                i <= k < cs.len() ==> now.relocs[rg.relocs.len() + k - i] == (Rl {
                    at: (at + (#[trigger] cs[k]).field) as u64,
                    kind: RelocKind::Pc32,
                    target: Tg::Pool,
                    addend: const_addend(pool, cs[k]),
                })
        }),
    decreases cs.len() - i,
{
    if i < cs.len() {
        let c = cs[i];
        let n = rg.rel(
            (at + c.field) as u64,
            RelocKind::Pc32,
            Tg::Pool,
            const_addend(pool, c),
        );
        lemma_const_refs(n, at, pool, cs, i + 1);
        let now = with_const_refs(rg, at, pool, cs, i);
        assert forall|k: int| i <= k < cs.len() implies now.relocs[rg.relocs.len() + k - i] == (Rl {
            at: (at + (#[trigger] cs[k]).field) as u64,
            kind: RelocKind::Pc32,
            target: Tg::Pool,
            addend: const_addend(pool, cs[k]),
        }) by {
            if k == i {
                assert(now.relocs[rg.relocs.len() as int] == n.relocs[rg.relocs.len() as int]);
            }
        }
    }
}

/// The constants that a stencil reads are copied whole into the pool, at their alignment, and each
/// reference to them is left to the linker: measured from the end of its instruction, as the
/// processor does, it reaches its datum in the copy.
pub proof fn a_reference_reaches_its_constant(a: As, s: Stencil, len: int, k: int)
    requires
        0 <= len <= s.code@.len(),
        0 <= k < s.const_refs@.len(),
        a.lay(s, len).rg.pool.len() <= i64::MAX - 0x2_0000_0000,
    ensures
        ({
            let now = a.lay(s, len).rg;
            let o = now.pool.len() - s.consts@.len();
            let c = s.const_refs@[k];
            let r = now.relocs[a.rg.relocs.len() + k];
            &&& s.consts_align > 0 ==> o % s.consts_align as int == 0
            &&& now.pool.subrange(o, now.pool.len() as int) == s.consts@
            &&& now.code == a.rg.code + s.code@.subrange(0, len)
            &&& now.relocs.len() == a.rg.relocs.len() + s.const_refs@.len()
            &&& r.at == (a.rg.code.len() as u64 + c.field) as u64
            &&& r.kind == RelocKind::Pc32 && r.target == Tg::Pool
            &&& r.addend + (c.insn_end - c.field) == o + c.at
        }),
{
    let at = a.rg.code.len() as u64;
    let rg = a.rg.put(s.code@.subrange(0, len));
    let p = rg.pool_consts(s.consts@, s.consts_align);
    let to = if s.consts_align == 0 {
        1nat
    } else {
        s.consts_align as nat
    };
    crate::bytes::a_gap_ends_on_a_multiple(rg.pool.len(), to);
    lemma_const_refs(p.0, at, p.1, s.const_refs@, 0);
    let now = a.lay(s, len).rg;
    let o = now.pool.len() - s.consts@.len();
    assert(now.pool == p.0.pool);
    assert(p.1 == o);
    assert(now.pool.subrange(o, now.pool.len() as int) =~= s.consts@);
    let c = s.const_refs@[k];
    let r = now.relocs[a.rg.relocs.len() + k];
    assert(p.0.relocs == a.rg.relocs);
    assert(r == (Rl {
        at: (at + c.field) as u64,
        kind: RelocKind::Pc32,
        target: Tg::Pool,
        addend: const_addend(p.1, c),
    }));
    assert(const_addend(p.1, c) == o + c.at - (c.insn_end - c.field));
    assert(s.consts_align > 0 ==> o % s.consts_align as int == 0);
}

/// A conditional branch whose target is out of its reach lands on a branch that lands on the target.
pub proof fn a_far_branch_goes_through_a_veneer(rg: Rg, at: u64, target: u64)
    requires
        with_cond(rg, at, target, true) is Ok,
        at + 4 <= rg.code.len(),
        rg.code.len() + 8 <= u64::MAX,
    ensures
        ({
            let now = with_cond(rg, at, target, true)->Ok_0;
            let v = lands_near(word_of(now.code, at as int), at);
            ||| v == target
            ||| rg.code.len() <= v && v + 4 <= now.code.len() && lands(
                word_of(now.code, v),
                v as u64,
            ) == target
        }),
{
    let d = target - at;
    if -0x10_0000 <= d < 0x10_0000 {
        a_conditional_branch_lands_on_its_target(rg, at, target);
    } else {
        let a = rg.align_code(4);
        crate::bytes::a_gap_ends_on_a_multiple(rg.code.len(), 4);
        let v = a.code.len() as u64;
        let p = a.put(le32(B));
        let mid = with_branch(p, v, target)->Ok_0;
        a_branch_lands_on_its_target(p, v, target);
        a_conditional_branch_lands_on_its_target(mid, at, v);
        let now = with_near(mid, at, v)->Ok_0;
        assert(word_of(now.code, v as int) == word_of(mid.code, v as int)) by {
            let f = v as int;
            assert(now.code[f] == mid.code[f]);
            assert(now.code[f + 1] == mid.code[f + 1]);
            assert(now.code[f + 2] == mid.code[f + 2]);
            assert(now.code[f + 3] == mid.code[f + 3]);
        }
    }
}

} // verus!
