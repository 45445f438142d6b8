//! Hand-written machine code: the few instructions that no stencil can supply.
//!
//! An emitted function's whole calling convention is one register and one block: the first
//! argument register holds a frame pointer, and the callee answers the pointer it was handed. The
//! bridge between that and C is written here, for both machines, as instruction words and bytes.

use crate::bytes::{le32, put32, set_word, with32, word_at, word_of};
use crate::object::RelKind;
use crate::region::{Target, Tg};
use crate::text::own;
use vstd::prelude::*;

verus! {

/// A relocation of a hand-written block, as a value: where, what kind, what it names, and what is
/// added to it.
pub struct Sr {
    pub at: u64,
    pub kind: RelKind,
    pub target: Tg,
    pub addend: i64,
}

/// A hand-written block, as a value.
#[verifier::ext_equal]
pub struct Piece {
    pub bytes: Seq<u8>,
    pub relocs: Seq<Sr>,
}

impl Piece {
    /// No code.
    pub open spec fn empty() -> Piece {
        Piece { bytes: Seq::empty(), relocs: Seq::empty() }
    }

    /// The offset that the next instruction occupies.
    pub open spec fn at(self) -> u64 {
        self.bytes.len() as u64
    }

    /// One word more.
    pub open spec fn word(self, w: u32) -> Piece {
        self.put(le32(w))
    }

    /// These bytes more.
    pub open spec fn put(self, b: Seq<u8>) -> Piece {
        Piece { bytes: self.bytes + b, ..self }
    }

    /// These words more, from word `i` on.
    pub open spec fn words(self, w: Seq<u32>, i: int) -> Piece
        decreases w.len() - i,
    {
        if i >= w.len() {
            self
        } else {
            self.word(w[i]).words(w, i + 1)
        }
    }

    /// A relocation against a symbol.
    pub open spec fn rel(self, at: u64, kind: RelKind, name: Seq<char>, addend: i64) -> Piece {
        Piece {
            relocs: self.relocs.push(Sr { at, kind, target: Tg::Symbol(name), addend }),
            ..self
        }
    }

    /// The word at `at` rewritten.
    pub open spec fn set(self, at: u64, w: u32) -> Piece {
        Piece { bytes: with32(self.bytes, at as int, w), ..self }
    }
}

/// A relocation that a hand-written block leaves behind.
pub type ShimReloc = (u64, RelKind, Target, i64);

/// A finished block: the bytes, and one relocation per site.
pub struct Shim {
    pub bytes: Vec<u8>,
    pub relocs: Vec<ShimReloc>,
}

/// Relocations of a block, as values.
pub open spec fn shim_rels(v: Seq<ShimReloc>) -> Seq<Sr> {
    v.map_values(|r: ShimReloc| Sr { at: r.0, kind: r.1, target: r.2@, addend: r.3 })
}

impl View for Shim {
    type V = Piece;

    open spec fn view(&self) -> Piece {
        Piece { bytes: self.bytes@, relocs: shim_rels(self.relocs@) }
    }
}

// ---------------------------------------------------------------------------
// A64
// ---------------------------------------------------------------------------

// Opcode templates, with every variable field zero.
pub const MOVZ_X: u32 = 0xd280_0000;
pub const MOVK_X: u32 = 0xf280_0000;
pub const ORR_X_SHIFTED: u32 = 0xaa00_0000;
pub const AND_X_SHIFTED: u32 = 0x8a00_0000;
pub const ADD_X_IMM: u32 = 0x9100_0000;
pub const ADD_X_SHIFTED: u32 = 0x8b00_0000;
pub const SUB_X_IMM: u32 = 0xd100_0000;
/// `str xt, [xn, #off]`, the offset scaled by eight.
pub const STR_X_UIMM: u32 = 0xf900_0000;
/// `str xt, [xn, #imm9]!`.
pub const STR_X_PRE: u32 = 0xf800_0c00;
/// `ldr xt, [xn], #imm9`.
pub const LDR_X_POST: u32 = 0xf840_0400;
pub const LDR_X_UIMM: u32 = 0xf940_0000;
pub const LDR_W_UIMM: u32 = 0xb940_0000;
pub const LDRH_W_UIMM: u32 = 0x7940_0000;
pub const LDRB_W_UIMM: u32 = 0x3940_0000;
pub const CBZ_W: u32 = 0x3400_0000;
pub const CBZ_X: u32 = 0xb400_0000;
pub const CBNZ_W: u32 = 0x3500_0000;
pub const CBNZ_X: u32 = 0xb500_0000;
pub const B: u32 = 0x1400_0000;
pub const BL: u32 = 0x9400_0000;
pub const BR: u32 = 0xd61f_0000;
pub const ADRP: u32 = 0x9000_0000;
pub const RET_X30: u32 = 0xd65f_03c0;
/// `stp x29, x30, [sp, #-16]!`.
pub const STP_FP_LR_PRE: u32 = 0xa9bf_7bfd;
/// `ldp x29, x30, [sp], #16`.
pub const LDP_FP_LR_POST: u32 = 0xa8c1_7bfd;

/// The stack pointer; the zero register has the same number.
pub const SP: u32 = 31;

/// What a displacement field of nineteen bits leaves of a word.
pub const BUT_19: u32 = 0xff00_001f;

/// What a displacement field of twenty-six bits leaves of a word.
pub const BUT_26: u32 = 0xfc00_0000;

/// An instruction of two registers and an immediate of twelve bits.
pub open spec fn imm12(op: u32, imm: u32, rn: u32, rd: u32) -> u32 {
    (op + (imm % 4096) * 1024 + (rn % 32) * 32 + rd % 32) as u32
}

/// An instruction of two registers and an immediate of nine bits.
pub open spec fn imm9(op: u32, imm: u32, rn: u32, rd: u32) -> u32 {
    (op + (imm % 512) * 4096 + (rn % 32) * 32 + rd % 32) as u32
}

/// An instruction of three registers.
pub open spec fn regs3(op: u32, rm: u32, rn: u32, rd: u32) -> u32 {
    (op + (rm % 32) * 65536 + (rn % 32) * 32 + rd % 32) as u32
}

/// An instruction of one register.
pub open spec fn reg1(op: u32, rd: u32) -> u32 {
    (op + rd % 32) as u32
}

/// A move of one halfword: of a register that keeps the rest or of one that is cleared first.
pub struct Mv {
    pub keep: bool,
    pub hw: nat,
    pub part: u32,
}

/// Halfword `k` of a number.
pub open spec fn half(value: u64, k: int) -> u32 {
    if k == 0 {
        (value & 0xffff) as u32
    } else if k == 1 {
        ((value >> 16) & 0xffff) as u32
    } else if k == 2 {
        ((value >> 32) & 0xffff) as u32
    } else {
        ((value >> 48) & 0xffff) as u32
    }
}

/// The moves that form a number, from halfword `k` on: one per halfword that is not zero, low
/// halfword first, the first of them clearing the rest.
pub open spec fn moves_from(value: u64, k: int, started: bool) -> Seq<Mv>
    decreases 4 - k,
{
    if k >= 4 {
        Seq::empty()
    } else if half(value, k) == 0 {
        moves_from(value, k + 1, started)
    } else {
        seq![Mv { keep: started, hw: k as nat, part: half(value, k) }] + moves_from(
            value,
            k + 1,
            true,
        )
    }
}

/// The moves that form a number. Zero has no halfword that is not zero, and is moved as it is.
pub open spec fn moves(value: u64) -> Seq<Mv> {
    if value == 0 {
        seq![Mv { keep: false, hw: 0, part: 0 }]
    } else {
        moves_from(value, 0, false)
    }
}

/// The instruction of a move.
pub open spec fn move_word(rd: u32, m: Mv) -> u32 {
    ((if m.keep {
        MOVK_X
    } else {
        MOVZ_X
    }) + m.hw * 0x20_0000 + m.part * 32 + rd % 32) as u32
}

/// The instructions that put a number into a register.
pub open spec fn move_words(rd: u32, value: u64) -> Seq<u32> {
    moves(value).map_values(|m: Mv| move_word(rd, m))
}

/// Two to the power of sixteen times `k`.
pub open spec fn weight(k: nat) -> int {
    if k == 0 {
        1
    } else if k == 1 {
        0x1_0000
    } else if k == 2 {
        0x1_0000_0000
    } else {
        0x1_0000_0000_0000
    }
}

/// What a register holds once a move has run: its halfword replaced, and the rest kept or cleared.
pub open spec fn moved(x: int, m: Mv) -> int {
    if m.keep {
        x - (x / weight(m.hw)) % 0x1_0000 * weight(m.hw) + m.part * weight(m.hw)
    } else {
        m.part * weight(m.hw)
    }
}

/// What a register holds once moves have run, from move `i` on.
pub open spec fn after_moves(x: int, ms: Seq<Mv>, i: int) -> int
    decreases ms.len() - i,
{
    if i >= ms.len() {
        x
    } else {
        after_moves(moved(x, ms[i]), ms, i + 1)
    }
}

proof fn lemma_halves(value: u64)
    ensures
        value == half(value, 0) + half(value, 1) * 0x1_0000 + half(value, 2) * 0x1_0000_0000 + half(
            value,
            3,
        ) * 0x1_0000_0000_0000,
        half(value, 0) < 0x1_0000,
        half(value, 1) < 0x1_0000,
        half(value, 2) < 0x1_0000,
        half(value, 3) < 0x1_0000,
{
    assert(value == (value & 0xffff) + ((value >> 16) & 0xffff) * 0x1_0000 + ((value >> 32)
        & 0xffff) * 0x1_0000_0000 + ((value >> 48) & 0xffff) * 0x1_0000_0000_0000 && (value
        & 0xffff) < 0x1_0000 && ((value >> 16) & 0xffff) < 0x1_0000 && ((value >> 32) & 0xffff)
        < 0x1_0000 && ((value >> 48) & 0xffff) < 0x1_0000) by (bit_vector);
}

/// The part of a number below halfword `k`.
pub open spec fn low_part(value: u64, k: int) -> int {
    (if k > 0 {
        half(value, 0) as int
    } else {
        0
    }) + (if k > 1 {
        half(value, 1) * 0x1_0000
    } else {
        0
    }) + (if k > 2 {
        half(value, 2) * 0x1_0000_0000
    } else {
        0
    }) + (if k > 3 {
        half(value, 3) * 0x1_0000_0000_0000
    } else {
        0
    })
}

proof fn lemma_moves_from(value: u64, k: int, started: bool, x: int, ms: Seq<Mv>, i: int)
    requires
        0 <= k <= 4,
        0 <= i <= ms.len(),
        ms.subrange(i, ms.len() as int) == moves_from(value, k, started),
        started ==> x == low_part(value, k),
        !started ==> low_part(value, k) == 0,
        started || k < 4 && value != 0,
    ensures
        after_moves(x, ms, i) == value,
    decreases 4 - k,
{
    lemma_halves(value);
    let rest = ms.subrange(i, ms.len() as int);
    if k == 4 {
        assert(rest.len() == 0);
    } else if half(value, k) == 0 {
        assert(moves_from(value, k, started) == moves_from(value, k + 1, started));
        if !started {
            assert(k < 3 || value == 0);
        }
        lemma_moves_from(value, k + 1, started, x, ms, i);
    } else {
        let m = Mv { keep: started, hw: k as nat, part: half(value, k) };
        let tail = moves_from(value, k + 1, true);
        assert(rest == seq![m] + tail);
        assert(ms[i] == rest[0]);
        assert(ms[i] == m);
        assert(ms.subrange(i + 1, ms.len() as int) =~= rest.subrange(1, rest.len() as int));
        assert((seq![m] + tail).subrange(1, 1 + tail.len() as int) =~= tail);
        let y = moved(x, m);
        assert(y == low_part(value, k + 1)) by {
            if started {
                let w = weight(k as nat);
                let below = low_part(value, k);
                assert(0 <= below < w);
                assert(below / w == 0) by (nonlinear_arith)
                    requires
                        0 <= below < w,
                ;
            }
        }
        lemma_moves_from(value, k + 1, true, y, ms, i + 1);
    }
}

/// The moves that form a number leave that number in the register, whatever it held.
pub proof fn a_number_is_what_its_moves_leave(value: u64, x: int)
    ensures
        after_moves(x, moves(value), 0) == value,
        1 <= moves(value).len() <= 4,
{
    let ms = moves(value);
    lemma_halves(value);
    reveal_with_fuel(moves_from, 5);
    if value == 0 {
        reveal_with_fuel(after_moves, 2);
    } else {
        assert(ms.subrange(0, ms.len() as int) =~= ms);
        lemma_moves_from(value, 0, false, x, ms, 0);
    }
}

/// How far it is from one offset to another, in words.
pub open spec fn words_between(from: u64, to: u64) -> int {
    if to >= from {
        (to - from) / 4
    } else {
        -((from - to) / 4)
    }
}

/// A word whose displacement of nineteen bits is `d`.
pub open spec fn with_19(w: u32, d: u32) -> u32 {
    (w & BUT_19) | ((d & 0x7_ffff) << 5)
}

/// A word whose displacement of twenty-six bits is `d`.
pub open spec fn with_26(w: u32, d: u32) -> u32 {
    (w & BUT_26) | (d & 0x3ff_ffff)
}

/// A displacement is read where it was written, and the rest of the word stays.
pub proof fn a_displacement_is_where_it_was_put(w: u32, d: u32)
    ensures
        (with_19(w, d) >> 5) & 0x7_ffff == d & 0x7_ffff,
        with_19(w, d) & BUT_19 == w & BUT_19,
        with_26(w, d) & 0x3ff_ffff == d & 0x3ff_ffff,
        with_26(w, d) & BUT_26 == w & BUT_26,
{
    assert((((w & 0xff00_001f) | ((d & 0x7_ffff) << 5)) >> 5) & 0x7_ffff == d & 0x7_ffff && ((w
        & 0xff00_001f) | ((d & 0x7_ffff) << 5)) & 0xff00_001f == w & 0xff00_001f && ((w
        & 0xfc00_0000) | (d & 0x3ff_ffff)) & 0x3ff_ffff == d & 0x3ff_ffff && ((w & 0xfc00_0000) | (d
        & 0x3ff_ffff)) & 0xfc00_0000 == w & 0xfc00_0000) by (bit_vector);
}

/// Which displacement of a branch is to be filled in.
#[derive(Clone, Copy, PartialEq, Eq, Debug, Structural)]
pub enum PatchKind {
    /// The 19-bit displacement of a `cbz` or a `cbnz`.
    Cond19,
    /// The 26-bit displacement of a `b`.
    Uncond26,
}

/// A place in the instruction stream whose branch target is not known yet.
#[must_use]
pub struct Patch {
    pub at: u64,
    pub kind: PatchKind,
}

impl Piece {
    /// `movz` and `movk`.
    pub open spec fn mov_imm(self, rd: u32, value: u64) -> Piece {
        self.words(move_words(rd, value), 0)
    }

    /// A forward branch resolved to the instruction that comes next.
    pub open spec fn here(self, at: u64, kind: PatchKind) -> Piece {
        let d = words_between(at, self.at()) as u32;
        let w = word_of(self.bytes, at as int);
        self.set(
            at,
            match kind {
                PatchKind::Cond19 => with_19(w, d),
                PatchKind::Uncond26 => with_26(w, d),
            },
        )
    }

    /// `bl name`.
    pub open spec fn bl_symbol(self, name: Seq<char>) -> Piece {
        self.rel(self.at(), RelKind::Branch26, name, 0).word(BL)
    }

    /// `adrp xd, name` and `add xd, xd, #:lo12:name`.
    pub open spec fn adrp_add_symbol(self, rd: u32, name: Seq<char>) -> Piece {
        let first = self.word(reg1(ADRP, rd));
        first.word(imm12(ADD_X_IMM, 0, rd, rd)).rel(self.at(), RelKind::Page21, name, 0).rel(
            first.at(),
            RelKind::PageOff12,
            name,
            0,
        )
    }

    /// `stp x29, x30, [sp, #-16]!` and `mov x29, sp`.
    pub open spec fn stp_fp_lr(self) -> Piece {
        self.word(STP_FP_LR_PRE).word(imm12(ADD_X_IMM, 0, SP, 29))
    }
}

/// A block of A64 code, with the relocations it needs.
pub struct Asm {
    pub bytes: Vec<u8>,
    pub relocs: Vec<(u64, RelKind, Target)>,
}

/// Relocations without addends, as values.
pub open spec fn arm_rels(v: Seq<(u64, RelKind, Target)>) -> Seq<Sr> {
    v.map_values(
        |r: (u64, RelKind, Target)| Sr { at: r.0, kind: r.1, target: r.2@, addend: 0 },
    )
}

impl View for Asm {
    type V = Piece;

    open spec fn view(&self) -> Piece {
        Piece { bytes: self.bytes@, relocs: arm_rels(self.relocs@) }
    }
}

/// The variable fields of the templates are zero.
proof fn lemma_templates()
    ensures
        CBZ_W & 31 == 0,
        CBNZ_W & 31 == 0,
        LDRB_W_UIMM & 0x3f_ffff == 0,
        LDRH_W_UIMM & 0x3f_ffff == 0,
        AND_X_SHIFTED & 0x1f_ffff == 0,
        ADD_X_SHIFTED & 0x1f_ffff == 0,
        ADRP & 31 == 0,
        ADD_X_IMM & 0x3f_ffff == 0,
        ORR_X_SHIFTED & 0x1f_ffff == 0,
        CBZ_X & 31 == 0,
        CBNZ_X & 31 == 0,
        LDR_W_UIMM & 0x3f_ffff == 0,
        SUB_X_IMM & 0x3f_ffff == 0,
        STR_X_PRE & 0x1f_f3ff == 0,
        LDR_X_POST & 0x1f_f3ff == 0,
        STR_X_UIMM & 0x3f_ffff == 0,
        LDR_X_UIMM & 0x3f_ffff == 0,
{
    assert(0x3400_0000u32 & 31 == 0 && 0x3500_0000u32 & 31 == 0 && 0x3940_0000u32 & 0x3f_ffff == 0 && 0x7940_0000u32 & 0x3f_ffff == 0 && 0x8a00_0000u32 & 0x1f_ffff == 0 && 0x8b00_0000u32 & 0x1f_ffff == 0 && 0x9000_0000u32 & 31 == 0 && 0x9100_0000u32 & 0x3f_ffff == 0 && 0xaa00_0000u32 & 0x1f_ffff == 0 && 0xb400_0000u32 & 31 == 0 && 0xb500_0000u32 & 31 == 0 && 0xb940_0000u32 & 0x3f_ffff == 0 && 0xd100_0000u32 & 0x3f_ffff == 0 && 0xf800_0c00u32 & 0x1f_f3ff == 0 && 0xf840_0400u32 & 0x1f_f3ff == 0 && 0xf900_0000u32 & 0x3f_ffff == 0 && 0xf940_0000u32 & 0x3f_ffff == 0) by (bit_vector);
}

fn enc_imm12(op: u32, imm: u32, rn: u32, rd: u32) -> (r: u32)
    requires
        op & 0x3f_ffff == 0,
    ensures
        r == imm12(op, imm, rn, rd),
{
    assert(op & 0x3f_ffff == 0 ==> (op | ((imm & 0xfff) << 10) | ((rn & 31) << 5) | (rd & 31)) == (
    op + (imm % 4096) * 1024 + (rn % 32) * 32 + rd % 32) as u32) by (bit_vector);
    op | ((imm & 0xfff) << 10) | ((rn & 31) << 5) | (rd & 31)
}

fn enc_imm9(op: u32, imm: u32, rn: u32, rd: u32) -> (r: u32)
    requires
        op & 0x1f_f3ff == 0,
    ensures
        r == imm9(op, imm, rn, rd),
{
    assert(op & 0x1f_f3ff == 0 ==> (op | ((imm & 0x1ff) << 12) | ((rn & 31) << 5) | (rd & 31)) == (
    op + (imm % 512) * 4096 + (rn % 32) * 32 + rd % 32) as u32) by (bit_vector);
    op | ((imm & 0x1ff) << 12) | ((rn & 31) << 5) | (rd & 31)
}

fn enc_regs3(op: u32, rm: u32, rn: u32, rd: u32) -> (r: u32)
    requires
        op & 0x1f_ffff == 0,
    ensures
        r == regs3(op, rm, rn, rd),
{
    assert(op & 0x1f_ffff == 0 ==> (op | ((rm & 31) << 16) | ((rn & 31) << 5) | (rd & 31)) == (op + (
    rm % 32) * 65536 + (rn % 32) * 32 + rd % 32) as u32) by (bit_vector);
    op | ((rm & 31) << 16) | ((rn & 31) << 5) | (rd & 31)
}

fn enc_reg1(op: u32, rd: u32) -> (r: u32)
    requires
        op & 31 == 0,
    ensures
        r == reg1(op, rd),
{
    assert(op & 31 == 0 ==> (op | (rd & 31)) == (op + rd % 32) as u32) by (bit_vector);
    op | (rd & 31)
}

fn half_of(value: u64, k: u32) -> (r: u32)
    ensures
        r == half(value, k as int),
{
    if k == 0 {
        (value & 0xffff) as u32
    } else if k == 1 {
        ((value >> 16) & 0xffff) as u32
    } else if k == 2 {
        ((value >> 32) & 0xffff) as u32
    } else {
        ((value >> 48) & 0xffff) as u32
    }
}

/// Appending to words appends to the block.
proof fn lemma_words_join(p: Piece, a: Seq<u32>, w: u32)
    ensures
        p.words(a.push(w), 0) == p.words(a, 0).word(w),
{
    lemma_words_from(p, a, w, 0);
}

proof fn lemma_words_from(p: Piece, a: Seq<u32>, w: u32, i: int)
    requires
        0 <= i <= a.len(),
    ensures
        p.words(a.push(w), i) == p.words(a, i).word(w),
    decreases a.len() - i,
{
    if i < a.len() {
        assert(a.push(w)[i] == a[i]);
        lemma_words_from(p.word(a[i]), a, w, i + 1);
    } else {
        assert(a.push(w)[i] == w);
        reveal_with_fuel(Piece::words, 2);
    }
}

impl Asm {
    pub fn new() -> (r: Asm)
        ensures
            r@ == Piece::empty(),
    {
        let r = Asm { bytes: Vec::new(), relocs: Vec::new() };
        assert(r@ =~= Piece::empty());
        r
    }

    /// The offset that the next instruction occupies.
    pub fn at(&self) -> (r: u64)
        ensures
            r == self@.at(),
            r == self@.bytes.len(),
    {
        self.bytes.len() as u64
    }

    fn word(&mut self, w: u32)
        ensures
            final(self)@ == old(self)@.word(w),
    {
        put32(&mut self.bytes, w);
    }

    fn rel(&mut self, at: u64, kind: RelKind, name: &str)
        ensures
            final(self)@ == old(self)@.rel(at, kind, name@, 0),
    {
        let ghost before = self.relocs@;
        let r: (u64, RelKind, Target) = (at, kind, Target::Symbol(own(name)));
        self.relocs.push(r);
        assert(arm_rels(self.relocs@) =~= arm_rels(before).push(
            Sr { at, kind, target: Tg::Symbol(name@), addend: 0 },
        ));
    }

    /// `movz` and `movk`, low halfword first, without the halfwords that are zero.
    pub fn mov_imm(&mut self, rd: u32, value: u64)
        ensures
            final(self)@ == old(self)@.mov_imm(rd, value),
    {
        let ghost all = moves_from(value, 0, false);
        let ghost mut done: Seq<u32> = Seq::empty();
        let mut started: bool = false;
        let mut hw: u32 = 0;
        proof {
            lemma_halves(value);
            assert(done =~= all.subrange(0, 0).map_values(|m: Mv| move_word(rd, m)));
        }
        let ghost mut n: int = 0;
        while hw < 4
            invariant
                hw <= 4,
                0 <= n <= all.len(),
                all == moves_from(value, 0, false),
                all.subrange(n, all.len() as int) == moves_from(value, hw as int, started),
                done == all.subrange(0, n).map_values(|m: Mv| move_word(rd, m)),
                self@ == old(self)@.words(done, 0),
                started == (n > 0),
                !started ==> low_part(value, hw as int) == 0,
                forall|k: int| 0 <= k < 4 ==> #[trigger] half(value, k) < 0x1_0000,
            decreases 4 - hw,
        {
            let part: u32 = half_of(value, hw);
            if part != 0 {
                let op: u32 = if started {
                    MOVK_X
                } else {
                    MOVZ_X
                };
                let ghost m = Mv { keep: started, hw: hw as nat, part };
                assert(hw < 4 && part < 0x1_0000 ==> (0xd280_0000u32 | (hw << 21) | (part << 5) | (rd
                    & 31)) == (0xd280_0000u32 + hw * 0x20_0000 + part * 32 + rd % 32) as u32 && (
                0xf280_0000u32 | (hw << 21) | (part << 5) | (rd & 31)) == (0xf280_0000u32 + hw
                    * 0x20_0000 + part * 32 + rd % 32) as u32) by (bit_vector);
                let w: u32 = op | (hw << 21) | (part << 5) | (rd & 31);
                assert(w == move_word(rd, m));
                proof {
                    let rest = all.subrange(n, all.len() as int);
                    assert(rest == seq![m] + moves_from(value, hw as int + 1, true));
                    assert(all[n] == rest[0]);
                    lemma_words_join(old(self)@, done, w);
                    done = done.push(w);
                    assert(done =~= all.subrange(0, n + 1).map_values(|m: Mv| move_word(rd, m)));
                    assert(all.subrange(n + 1, all.len() as int) =~= rest.subrange(
                        1,
                        rest.len() as int,
                    ));
                    assert(rest.subrange(1, rest.len() as int) =~= moves_from(
                        value,
                        hw as int + 1,
                        true,
                    ));
                    n = n + 1;
                }
                self.word(w);
                started = true;
            }
            hw = hw + 1;
        }
        proof {
            assert(all.subrange(n, all.len() as int).len() == 0);
            assert(all.subrange(0, n) =~= all);
            lemma_halves(value);
        }
        if !started {
            assert(value == 0);
            assert(0xd280_0000u32 | (rd & 31) == (0xd280_0000u32 + rd % 32) as u32) by (bit_vector);
            proof {
                let w = move_word(rd, Mv { keep: false, hw: 0, part: 0 });
                assert(move_words(rd, value) =~= seq![w]);
                assert(done =~= Seq::<u32>::empty());
                assert(seq![w] =~= done.push(w));
                lemma_words_join(old(self)@, done, w);
            }
            self.word(MOVZ_X | (rd & 31));
        } else {
            assert(value != 0) by {
                if value == 0 {
                    assert(0u64 & 0xffff == 0 && (0u64 >> 16) & 0xffff == 0 && (0u64 >> 32) & 0xffff
                        == 0 && (0u64 >> 48) & 0xffff == 0) by (bit_vector);
                    reveal_with_fuel(moves_from, 5);
                }
            }
            assert(done =~= move_words(rd, value));
        }
    }

    /// `mov xd, xn`.
    pub fn mov_reg(&mut self, rd: u32, rn: u32)
        ensures
            final(self)@ == old(self)@.word(regs3(ORR_X_SHIFTED, rn, SP, rd)),
    {
        proof {
            lemma_templates();
        }
        self.word(enc_regs3(ORR_X_SHIFTED, rn, SP, rd));
    }

    /// `and xd, xn, xm`.
    pub fn and_reg(&mut self, rd: u32, rn: u32, rm: u32)
        ensures
            final(self)@ == old(self)@.word(regs3(AND_X_SHIFTED, rm, rn, rd)),
    {
        proof {
            lemma_templates();
        }
        self.word(enc_regs3(AND_X_SHIFTED, rm, rn, rd));
    }

    /// `add xd, xn, #imm`: `imm` modulo 2^12.
    pub fn add_imm(&mut self, rd: u32, rn: u32, imm: u32)
        ensures
            final(self)@ == old(self)@.word(imm12(ADD_X_IMM, imm, rn, rd)),
    {
        proof {
            lemma_templates();
        }
        self.word(enc_imm12(ADD_X_IMM, imm, rn, rd));
    }

    /// `add xd, xn, xm`.
    pub fn add_reg(&mut self, rd: u32, rn: u32, rm: u32)
        ensures
            final(self)@ == old(self)@.word(regs3(ADD_X_SHIFTED, rm, rn, rd)),
    {
        proof {
            lemma_templates();
        }
        self.word(enc_regs3(ADD_X_SHIFTED, rm, rn, rd));
    }

    /// `sub xd, xn, #imm`: `imm` modulo 2^12.
    pub fn sub_imm(&mut self, rd: u32, rn: u32, imm: u32)
        ensures
            final(self)@ == old(self)@.word(imm12(SUB_X_IMM, imm, rn, rd)),
    {
        proof {
            lemma_templates();
        }
        self.word(enc_imm12(SUB_X_IMM, imm, rn, rd));
    }

    /// `str xt, [xn, #off]`, scaled by eight.
    pub fn str_off(&mut self, rt: u32, rn: u32, off: u32)
        ensures
            final(self)@ == old(self)@.word(imm12(STR_X_UIMM, off / 8, rn, rt)),
    {
        proof {
            lemma_templates();
        }
        self.word(enc_imm12(STR_X_UIMM, off / 8, rn, rt));
    }

    /// `str xt, [xn, #-16]!`.
    pub fn str_pre16(&mut self, rt: u32, rn: u32)
        ensures
            final(self)@ == old(self)@.word(imm9(STR_X_PRE, 0x1f0, rn, rt)),
    {
        proof {
            lemma_templates();
        }
        self.word(enc_imm9(STR_X_PRE, 0x1f0, rn, rt));
    }

    /// `ldr xt, [xn], #16`.
    pub fn ldr_post16(&mut self, rt: u32, rn: u32)
        ensures
            final(self)@ == old(self)@.word(imm9(LDR_X_POST, 16, rn, rt)),
    {
        proof {
            lemma_templates();
        }
        self.word(enc_imm9(LDR_X_POST, 16, rn, rt));
    }

    /// `bl .+4*words`: the target is inside this same block.
    pub fn bl_words(&mut self, words: u32)
        ensures
            final(self)@ == old(self)@.word(with_26(BL, words)),
    {
        assert(0x9400_0000u32 | (words & 0x03ff_ffff) == (0x9400_0000u32 & 0xfc00_0000) | (words
            & 0x3ff_ffff)) by (bit_vector);
        self.word(BL | (words & 0x03ff_ffff));
    }

    /// `br xn`.
    pub fn br_reg(&mut self, rn: u32)
        ensures
            final(self)@ == old(self)@.word((BR + (rn % 32) * 32) as u32),
    {
        assert(0xd61f_0000u32 | ((rn & 31) << 5) == (0xd61f_0000u32 + (rn % 32) * 32) as u32)
            by (bit_vector);
        self.word(BR | ((rn & 31) << 5));
    }

    /// `ldr xt, [xn, #off]`, scaled by eight.
    pub fn ldr(&mut self, rt: u32, rn: u32, off: u32)
        ensures
            final(self)@ == old(self)@.word(imm12(LDR_X_UIMM, off / 8, rn, rt)),
    {
        proof {
            lemma_templates();
        }
        self.word(enc_imm12(LDR_X_UIMM, off / 8, rn, rt));
    }

    /// `ldr wt, [xn, #off]`, scaled by four.
    pub fn ldr_w(&mut self, rt: u32, rn: u32, off: u32)
        ensures
            final(self)@ == old(self)@.word(imm12(LDR_W_UIMM, off / 4, rn, rt)),
    {
        proof {
            lemma_templates();
        }
        self.word(enc_imm12(LDR_W_UIMM, off / 4, rn, rt));
    }

    /// `ldrh wt, [xn, #off]`, scaled by two.
    pub fn ldrh(&mut self, rt: u32, rn: u32, off: u32)
        ensures
            final(self)@ == old(self)@.word(imm12(LDRH_W_UIMM, off / 2, rn, rt)),
    {
        proof {
            lemma_templates();
        }
        self.word(enc_imm12(LDRH_W_UIMM, off / 2, rn, rt));
    }

    /// `ldrb wt, [xn, #off]`.
    pub fn ldrb(&mut self, rt: u32, rn: u32, off: u32)
        ensures
            final(self)@ == old(self)@.word(imm12(LDRB_W_UIMM, off, rn, rt)),
    {
        proof {
            lemma_templates();
        }
        self.word(enc_imm12(LDRB_W_UIMM, off, rn, rt));
    }

    /// `cbz wt, <later>`.
    pub fn cbz(&mut self, rt: u32) -> (r: Patch)
        ensures
            final(self)@ == old(self)@.word(reg1(CBZ_W, rt)),
            r == (Patch { at: old(self)@.at(), kind: PatchKind::Cond19 }),
    {
        proof {
            lemma_templates();
        }
        self.cond(CBZ_W, rt)
    }

    /// `cbz xt, <later>`.
    pub fn cbz_x(&mut self, rt: u32) -> (r: Patch)
        ensures
            final(self)@ == old(self)@.word(reg1(CBZ_X, rt)),
            r == (Patch { at: old(self)@.at(), kind: PatchKind::Cond19 }),
    {
        proof {
            lemma_templates();
        }
        self.cond(CBZ_X, rt)
    }

    /// `cbnz wt, <later>`.
    pub fn cbnz(&mut self, rt: u32) -> (r: Patch)
        ensures
            final(self)@ == old(self)@.word(reg1(CBNZ_W, rt)),
            r == (Patch { at: old(self)@.at(), kind: PatchKind::Cond19 }),
    {
        proof {
            lemma_templates();
        }
        self.cond(CBNZ_W, rt)
    }

    /// `cbnz xt, <later>`.
    pub fn cbnz_x(&mut self, rt: u32) -> (r: Patch)
        ensures
            final(self)@ == old(self)@.word(reg1(CBNZ_X, rt)),
            r == (Patch { at: old(self)@.at(), kind: PatchKind::Cond19 }),
    {
        proof {
            lemma_templates();
        }
        self.cond(CBNZ_X, rt)
    }

    fn cond(&mut self, op: u32, rt: u32) -> (r: Patch)
        requires
            op & 31 == 0,
        ensures
            final(self)@ == old(self)@.word(reg1(op, rt)),
            r == (Patch { at: old(self)@.at(), kind: PatchKind::Cond19 }),
    {
        let at: u64 = self.at();
        self.word(enc_reg1(op, rt));
        Patch { at, kind: PatchKind::Cond19 }
    }

    /// `b <later>`.
    pub fn b(&mut self) -> (r: Patch)
        ensures
            final(self)@ == old(self)@.word(B),
            r == (Patch { at: old(self)@.at(), kind: PatchKind::Uncond26 }),
    {
        let at: u64 = self.at();
        self.word(B);
        Patch { at, kind: PatchKind::Uncond26 }
    }

    /// Resolves a forward branch to the instruction that comes next.
    pub fn here(&mut self, p: Patch)
        ensures
            final(self)@ == old(self)@.here(p.at, p.kind),
    {
        let to: u64 = self.at();
        let d: u32 = if to >= p.at {
            ((to - p.at) / 4) as u32
        } else {
            (-(((p.at - to) / 4) as i128)) as u32
        };
        let w: u32 = word_at(&self.bytes, p.at);
        let patched: u32 = match p.kind {
            PatchKind::Cond19 => (w & BUT_19) | ((d & 0x7_ffff) << 5),
            PatchKind::Uncond26 => (w & BUT_26) | (d & 0x3ff_ffff),
        };
        set_word(&mut self.bytes, p.at, patched);
    }

    /// `bl name`, with the displacement left to the linker.
    pub fn bl_symbol(&mut self, name: &str)
        ensures
            final(self)@ == old(self)@.bl_symbol(name@),
    {
        let at: u64 = self.at();
        self.rel(at, RelKind::Branch26, name);
        self.word(BL);
    }

    /// The address of a symbol in a register: `adrp xd, name` and `add xd, xd, #:lo12:name`, with
    /// their two relocations adjacent and in this order.
    pub fn adrp_add_symbol(&mut self, rd: u32, name: &str)
        ensures
            final(self)@ == old(self)@.adrp_add_symbol(rd, name@),
    {
        let page: u64 = self.at();
        proof {
            lemma_templates();
        }
        self.word(enc_reg1(ADRP, rd));
        let off: u64 = self.at();
        self.word(enc_imm12(ADD_X_IMM, 0, rd, rd));
        self.rel(page, RelKind::Page21, name);
        self.rel(off, RelKind::PageOff12, name);
    }

    /// `ret`.
    pub fn ret(&mut self)
        ensures
            final(self)@ == old(self)@.word(RET_X30),
    {
        self.word(RET_X30);
    }

    /// `stp x29, x30, [sp, #-16]!` and `mov x29, sp`.
    pub fn stp_fp_lr(&mut self)
        ensures
            final(self)@ == old(self)@.stp_fp_lr(),
    {
        self.word(STP_FP_LR_PRE);
        self.add_imm(29, SP, 0);
    }

    /// `ldp x29, x30, [sp], #16`.
    pub fn ldp_fp_lr(&mut self)
        ensures
            final(self)@ == old(self)@.word(LDP_FP_LR_POST),
    {
        self.word(LDP_FP_LR_POST);
    }

    /// The bytes and the relocations.
    pub fn finish(self) -> (r: (Vec<u8>, Vec<(u64, RelKind, Target)>))
        ensures
            r.0@ == self@.bytes,
            arm_rels(r.1@) == self@.relocs,
    {
        (self.bytes, self.relocs)
    }

    /// The block as a [`Shim`]: every A64 relocation here takes a zero addend.
    pub fn into_shim(self) -> (r: Shim)
        ensures
            r@ == self@,
    {
        let mut relocs: Vec<ShimReloc> = Vec::new();
        let mut i: usize = 0;
        while i < self.relocs.len()
            invariant
                i <= self.relocs.len(),
                relocs.len() == i,
                forall|j: int|
                    0 <= j < i ==> shim_rels(relocs@)[j] == #[trigger] arm_rels(self.relocs@)[j],
            decreases self.relocs.len() - i,
        {
            let ghost before = relocs@;
            let t: Target = crate::region::copy_target(&self.relocs[i].2);
            relocs.push((self.relocs[i].0, self.relocs[i].1, t, 0));
            assert forall|j: int| 0 <= j < i + 1 implies shim_rels(relocs@)[j] == #[trigger] arm_rels(
                self.relocs@,
            )[j] by {
                if j < i {
                    assert(relocs@[j] == before[j]);
                    assert(shim_rels(before)[j] == arm_rels(self.relocs@)[j]);
                }
            }
            i = i + 1;
        }
        assert(shim_rels(relocs@) =~= arm_rels(self.relocs@));
        Shim { bytes: self.bytes, relocs }
    }
}

impl Default for Asm {
    fn default() -> (r: Asm)
        ensures
            r@ == Piece::empty(),
    {
        Asm::new()
    }
}

} // verus!
