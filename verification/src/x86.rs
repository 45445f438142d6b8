//! Hand-written x86-64 code.

use crate::a64::{shim_rels, Piece, Shim, ShimReloc, Sr};
use crate::bytes::{le32, le64, put32, put64, set_word, zeros};
use crate::object::RelKind;
use crate::region::{Target, Tg};
use crate::text::own;
use vstd::prelude::*;

verus! {

pub const RAX: u32 = 0;
pub const RCX: u32 = 1;
pub const RDX: u32 = 2;
pub const RSP: u32 = 4;
pub const RSI: u32 = 6;
pub const RDI: u32 = 7;

/// A `REX` prefix: the 64-bit operand size, and the high bits of the two register fields.
pub open spec fn rex_byte(wide: bool, r: u32, b: u32) -> u8 {
    ((if wide {
        0x48int
    } else {
        0x40int
    }) + (r / 8 % 2) * 4 + b / 8 % 2) as u8
}

/// A `ModRM` byte: the mode, and the low bits of the two register fields.
pub open spec fn modrm(mode: u8, reg: u32, rm: u32) -> u8 {
    (mode * 64 + (reg % 8) * 8 + rm % 8) as u8
}

/// One byte, where the condition holds.
pub open spec fn byte_if(c: bool, b: u8) -> Seq<u8> {
    if c {
        seq![b]
    } else {
        Seq::empty()
    }
}

/// `mov rd, #imm`: five bytes for what fits in thirty-two bits, ten for the rest, and one more for
/// the high registers.
pub open spec fn mov_imm_bytes(rd: u32, value: u64) -> Seq<u8> {
    if value < 0x1_0000_0000 {
        byte_if(rd >= 8, rex_byte(false, 0, rd)) + seq![(0xb8 + rd % 8) as u8] + le32(value as u32)
    } else {
        seq![rex_byte(true, 0, rd), (0xb8 + rd % 8) as u8] + le64(value)
    }
}

/// An instruction on two registers.
pub open spec fn regs_bytes(op: u8, reg: u32, rm: u32) -> Seq<u8> {
    seq![rex_byte(true, reg, rm), op, modrm(3, reg, rm)]
}

/// An instruction on a register and an immediate of thirty-two bits.
pub open spec fn alu_bytes(digit: u32, rd: u32, imm: u32) -> Seq<u8> {
    regs_bytes(0x81, digit, rd) + le32(imm)
}

/// An opcode of one byte or of two.
pub open spec fn op_bytes(two: bool, op: u8) -> Seq<u8> {
    byte_if(two, 0x0f).push(op)
}

/// An instruction on a register and memory at a base and a displacement of thirty-two bits. The
/// base whose number ends in 100 takes a `SIB` byte.
pub open spec fn mem_bytes(op: Seq<u8>, wide: bool, reg: u32, base: u32, off: u32) -> Seq<u8> {
    let r = rex_byte(wide, reg, base);
    byte_if(r != 0x40, r) + op + seq![modrm(2, reg, base)] + byte_if(base % 8 == 4, 0x24) + le32(off)
}

/// `test rt, rt`.
pub open spec fn test_bytes(wide: bool, rt: u32) -> Seq<u8> {
    let r = rex_byte(wide, rt, rt);
    byte_if(r != 0x40, r) + seq![0x85, modrm(3, rt, rt)]
}

/// `jmp rn`.
pub open spec fn jmp_bytes(rn: u32) -> Seq<u8> {
    byte_if(rn >= 8, rex_byte(false, 0, rn)) + seq![0xff, (0xe0 + rn % 8) as u8]
}

/// A displacement, from the end of its field of four bytes.
pub open spec fn displacement(field: u64, to: u64) -> u32 {
    (to - field - 4) as u32
}

impl Piece {
    /// A `test` and a conditional jump whose field is still zero.
    pub open spec fn test_jump(self, wide: bool, rt: u32, cc: u8) -> Piece {
        self.put(test_bytes(wide, rt)).put(seq![0x0f, cc]).put(zeros(4))
    }

    /// Where the field of the jump that [`Piece::test_jump`] appends stands.
    pub open spec fn jump_field(self, wide: bool, rt: u32, cc: u8) -> u64 {
        self.put(test_bytes(wide, rt)).put(seq![0x0f, cc]).at()
    }

    /// A forward jump resolved to the instruction that comes next.
    pub open spec fn land(self, field: u64) -> Piece {
        self.set(field, displacement(field, self.at()))
    }

    /// A field that is relative to the end of its instruction, left to the linker.
    pub open spec fn pcrel(self, kind: RelKind, name: Seq<char>) -> Piece {
        self.rel(self.at(), kind, name, (-4) as i64).put(zeros(4))
    }

    /// `call name`.
    pub open spec fn call_symbol(self, name: Seq<char>) -> Piece {
        self.put(seq![0xe8]).pcrel(RelKind::Rel32, name)
    }

    /// `lea rd, [rip + name]`.
    pub open spec fn lea_symbol(self, rd: u32, name: Seq<char>) -> Piece {
        self.put(seq![rex_byte(true, rd, 0), 0x8d, modrm(0, rd, 5)]).pcrel(RelKind::Pc32, name)
    }
}

/// A place in the instruction stream whose displacement is not known yet: the offset of the field,
/// which ends its instruction.
#[must_use]
pub struct Patch32 {
    pub at: u64,
}

/// A block of x86-64 code, with the relocations it needs.
pub struct X86 {
    pub bytes: Vec<u8>,
    pub relocs: Vec<ShimReloc>,
}

impl View for X86 {
    type V = Piece;

    open spec fn view(&self) -> Piece {
        Piece { bytes: self.bytes@, relocs: shim_rels(self.relocs@) }
    }
}

fn rex(wide: bool, r: u32, b: u32) -> (x: u8)
    ensures
        x == rex_byte(wide, r, b),
{
    assert(((0x48u8 | ((((r >> 3) & 1) as u8) << 2)) | (((b >> 3) & 1) as u8)) == (0x48 + (r / 8 % 2)
        * 4 + b / 8 % 2) as u8 && ((0x40u8 | ((((r >> 3) & 1) as u8) << 2)) | (((b >> 3)
        & 1) as u8)) == (0x40 + (r / 8 % 2) * 4 + b / 8 % 2) as u8) by (bit_vector);
    let w: u8 = if wide {
        0x48
    } else {
        0x40
    };
    (w | ((((r >> 3) & 1) as u8) << 2)) | (((b >> 3) & 1) as u8)
}

fn mode_byte(mode: u8, reg: u32, rm: u32) -> (x: u8)
    requires
        mode < 4,
    ensures
        x == modrm(mode, reg, rm),
{
    assert(mode < 4 ==> (((mode << 6) | (((reg & 7) as u8) << 3)) | ((rm & 7) as u8)) == (mode * 64
        + (reg % 8) * 8 + rm % 8) as u8) by (bit_vector);
    ((mode << 6) | (((reg & 7) as u8) << 3)) | ((rm & 7) as u8)
}

fn low3(base: u8, r: u32) -> (x: u8)
    requires
        base <= 0xf8,
    ensures
        x == (base + r % 8) as u8,
{
    base + (r % 8) as u8
}

impl X86 {
    pub fn new() -> (r: X86)
        ensures
            r@ == Piece::empty(),
    {
        let r = X86 { bytes: Vec::new(), relocs: Vec::new() };
        assert(r@ =~= Piece::empty());
        r
    }

    /// The offset that the next byte goes to.
    pub fn at(&self) -> (r: u64)
        ensures
            r == self@.at(),
            r == self@.bytes.len(),
    {
        self.bytes.len() as u64
    }

    fn put1(&mut self, a: u8)
        ensures
            final(self)@ == old(self)@.put(seq![a]),
    {
        self.bytes.push(a);
        assert(self@ =~= old(self)@.put(seq![a]));
    }

    fn put_if(&mut self, c: bool, a: u8)
        ensures
            final(self)@ == old(self)@.put(byte_if(c, a)),
    {
        if c {
            self.bytes.push(a);
        }
        assert(self@ =~= old(self)@.put(byte_if(c, a)));
    }

    fn imm(&mut self, w: u32)
        ensures
            final(self)@ == old(self)@.put(le32(w)),
    {
        put32(&mut self.bytes, w);
    }

    /// `push rbp`.
    pub fn push_rbp(&mut self)
        ensures
            final(self)@ == old(self)@.put(seq![0x55]),
    {
        self.put1(0x55);
    }

    /// `pop rbp`.
    pub fn pop_rbp(&mut self)
        ensures
            final(self)@ == old(self)@.put(seq![0x5d]),
    {
        self.put1(0x5d);
    }

    /// `ret`.
    pub fn ret(&mut self)
        ensures
            final(self)@ == old(self)@.put(seq![0xc3]),
    {
        self.put1(0xc3);
    }

    /// `mov rd, #imm`.
    pub fn mov_imm(&mut self, rd: u32, value: u64)
        ensures
            final(self)@ == old(self)@.put(mov_imm_bytes(rd, value)),
    {
        if value < 0x1_0000_0000 {
            self.put_if(rd >= 8, rex(false, 0, rd));
            self.put1(low3(0xb8, rd));
            self.imm(value as u32);
        } else {
            self.put1(rex(true, 0, rd));
            self.put1(low3(0xb8, rd));
            put64(&mut self.bytes, value);
        }
        assert(self@ =~= old(self)@.put(mov_imm_bytes(rd, value)));
    }

    fn regs(&mut self, op: u8, reg: u32, rm: u32)
        ensures
            final(self)@ == old(self)@.put(regs_bytes(op, reg, rm)),
    {
        self.put1(rex(true, reg, rm));
        self.put1(op);
        self.put1(mode_byte(3, reg, rm));
        assert(self@ =~= old(self)@.put(regs_bytes(op, reg, rm)));
    }

    /// `mov rd, rs`.
    pub fn mov_reg(&mut self, rd: u32, rs: u32)
        ensures
            final(self)@ == old(self)@.put(regs_bytes(0x89, rs, rd)),
    {
        self.regs(0x89, rs, rd);
    }

    /// `and rd, rs`.
    pub fn and_reg(&mut self, rd: u32, rs: u32)
        ensures
            final(self)@ == old(self)@.put(regs_bytes(0x21, rs, rd)),
    {
        self.regs(0x21, rs, rd);
    }

    /// `add rd, #imm32`.
    pub fn add_imm(&mut self, rd: u32, imm: u32)
        ensures
            final(self)@ == old(self)@.put(alu_bytes(0, rd, imm)),
    {
        self.alu_imm(0, rd, imm);
    }

    /// `sub rd, #imm32`.
    pub fn sub_imm(&mut self, rd: u32, imm: u32)
        ensures
            final(self)@ == old(self)@.put(alu_bytes(5, rd, imm)),
    {
        self.alu_imm(5, rd, imm);
    }

    fn alu_imm(&mut self, digit: u32, rd: u32, imm: u32)
        ensures
            final(self)@ == old(self)@.put(alu_bytes(digit, rd, imm)),
    {
        self.regs(0x81, digit, rd);
        self.imm(imm);
        assert(self@ =~= old(self)@.put(alu_bytes(digit, rd, imm)));
    }

    /// `mov rt, [rn + off]`.
    pub fn ldr(&mut self, rt: u32, rn: u32, off: u32)
        ensures
            final(self)@ == old(self)@.put(mem_bytes(op_bytes(false, 0x8b), true, rt, rn, off)),
    {
        self.mem(false, 0x8b, true, rt, rn, off);
    }

    /// `mov` of four bytes, the rest cleared.
    pub fn ldr_w(&mut self, rt: u32, rn: u32, off: u32)
        ensures
            final(self)@ == old(self)@.put(mem_bytes(op_bytes(false, 0x8b), false, rt, rn, off)),
    {
        self.mem(false, 0x8b, false, rt, rn, off);
    }

    /// `movzx` of two bytes.
    pub fn ldrh(&mut self, rt: u32, rn: u32, off: u32)
        ensures
            final(self)@ == old(self)@.put(mem_bytes(op_bytes(true, 0xb7), false, rt, rn, off)),
    {
        self.mem(true, 0xb7, false, rt, rn, off);
    }

    /// `movzx` of one byte.
    pub fn ldrb(&mut self, rt: u32, rn: u32, off: u32)
        ensures
            final(self)@ == old(self)@.put(mem_bytes(op_bytes(true, 0xb6), false, rt, rn, off)),
    {
        self.mem(true, 0xb6, false, rt, rn, off);
    }

    /// `mov [rn + off], rs`.
    pub fn str_off(&mut self, rs: u32, rn: u32, off: u32)
        ensures
            final(self)@ == old(self)@.put(mem_bytes(op_bytes(false, 0x89), true, rs, rn, off)),
    {
        self.mem(false, 0x89, true, rs, rn, off);
    }

    /// `lea rd, [rn + off]`.
    pub fn lea(&mut self, rd: u32, rn: u32, off: u32)
        ensures
            final(self)@ == old(self)@.put(mem_bytes(op_bytes(false, 0x8d), true, rd, rn, off)),
    {
        self.mem(false, 0x8d, true, rd, rn, off);
    }

    fn mem(&mut self, two: bool, op: u8, wide: bool, reg: u32, base: u32, off: u32)
        ensures
            final(self)@ == old(self)@.put(mem_bytes(op_bytes(two, op), wide, reg, base, off)),
    {
        let r: u8 = rex(wide, reg, base);
        self.put_if(r != 0x40, r);
        self.put_if(two, 0x0f);
        self.put1(op);
        self.put1(mode_byte(2, reg, base));
        self.put_if(base % 8 == 4, 0x24);
        self.imm(off);
        assert(self@ =~= old(self)@.put(mem_bytes(op_bytes(two, op), wide, reg, base, off)));
    }

    /// `test wt, wt` and `jz <later>`.
    pub fn cbz(&mut self, rt: u32) -> (r: Patch32)
        ensures
            final(self)@ == old(self)@.test_jump(false, rt, 0x84),
            r.at == old(self)@.jump_field(false, rt, 0x84),
    {
        self.test(false, rt);
        self.jcc(0x84)
    }

    /// `test rt, rt` and `jz <later>`.
    pub fn cbz_x(&mut self, rt: u32) -> (r: Patch32)
        ensures
            final(self)@ == old(self)@.test_jump(true, rt, 0x84),
            r.at == old(self)@.jump_field(true, rt, 0x84),
    {
        self.test(true, rt);
        self.jcc(0x84)
    }

    /// `test rt, rt` and `jnz <later>`.
    pub fn cbnz_x(&mut self, rt: u32) -> (r: Patch32)
        ensures
            final(self)@ == old(self)@.test_jump(true, rt, 0x85),
            r.at == old(self)@.jump_field(true, rt, 0x85),
    {
        self.test(true, rt);
        self.jcc(0x85)
    }

    fn test(&mut self, wide: bool, rt: u32)
        ensures
            final(self)@ == old(self)@.put(test_bytes(wide, rt)),
    {
        let r: u8 = rex(wide, rt, rt);
        self.put_if(r != 0x40, r);
        self.put1(0x85);
        self.put1(mode_byte(3, rt, rt));
        assert(self@ =~= old(self)@.put(test_bytes(wide, rt)));
    }

    fn jcc(&mut self, cc: u8) -> (r: Patch32)
        ensures
            final(self)@ == old(self)@.put(seq![0x0f, cc]).put(zeros(4)),
            r.at == old(self)@.put(seq![0x0f, cc]).at(),
    {
        self.put1(0x0f);
        self.put1(cc);
        assert(self@ =~= old(self)@.put(seq![0x0f, cc]));
        let at: u64 = self.at();
        self.zero4();
        Patch32 { at }
    }

    fn zero4(&mut self)
        ensures
            final(self)@ == old(self)@.put(zeros(4)),
    {
        crate::bytes::pad(&mut self.bytes, 4);
    }

    /// Resolves a forward jump to the instruction that comes next.
    pub fn here(&mut self, p: Patch32)
        ensures
            final(self)@ == old(self)@.land(p.at),
    {
        let to: u64 = self.at();
        let d: i128 = to as i128 - p.at as i128 - 4;
        set_word(&mut self.bytes, p.at, d as u32);
    }

    /// `call name`, with the displacement left to the linker.
    pub fn call_symbol(&mut self, name: &str)
        ensures
            final(self)@ == old(self)@.call_symbol(name@),
    {
        self.put1(0xe8);
        self.pcrel(RelKind::Rel32, name);
    }

    /// `lea rd, [rip + name]`.
    pub fn lea_symbol(&mut self, rd: u32, name: &str)
        ensures
            final(self)@ == old(self)@.lea_symbol(rd, name@),
    {
        self.put1(rex(true, rd, 0));
        self.put1(0x8d);
        self.put1(mode_byte(0, rd, 5));
        assert(self@ =~= old(self)@.put(seq![rex_byte(true, rd, 0), 0x8d, modrm(0, rd, 5)]));
        self.pcrel(RelKind::Pc32, name);
    }

    fn pcrel(&mut self, kind: RelKind, name: &str)
        ensures
            final(self)@ == old(self)@.pcrel(kind, name@),
    {
        let at: u64 = self.at();
        let ghost before = self.relocs@;
        self.relocs.push((at, kind, Target::Symbol(own(name)), -4));
        assert(shim_rels(self.relocs@) =~= shim_rels(before).push(
            Sr { at, kind, target: Tg::Symbol(name@), addend: (-4) as i64 },
        ));
        self.zero4();
    }

    /// `call .+bytes`: the target is inside this same block.
    pub fn call_ahead(&mut self, bytes: i32)
        ensures
            final(self)@ == old(self)@.put(seq![0xe8]).put(le32(bytes as u32)),
    {
        self.put1(0xe8);
        self.imm(bytes as u32);
    }

    /// `jmp rn`.
    pub fn jmp_reg(&mut self, rn: u32)
        ensures
            final(self)@ == old(self)@.put(jmp_bytes(rn)),
    {
        self.put_if(rn >= 8, rex(false, 0, rn));
        self.put1(0xff);
        self.put1(low3(0xe0, rn));
        assert(self@ =~= old(self)@.put(jmp_bytes(rn)));
    }

    /// The bytes and the relocations.
    pub fn finish(self) -> (r: (Vec<u8>, Vec<ShimReloc>))
        ensures
            r.0@ == self@.bytes,
            shim_rels(r.1@) == self@.relocs,
    {
        (self.bytes, self.relocs)
    }

    /// The block as a [`Shim`].
    pub fn into_shim(self) -> (r: Shim)
        ensures
            r@ == self@,
    {
        Shim { bytes: self.bytes, relocs: self.relocs }
    }
}

impl Default for X86 {
    fn default() -> (r: X86)
        ensures
            r@ == Piece::empty(),
    {
        X86::new()
    }
}

} // verus!
