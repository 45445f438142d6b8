//! `main`: the one function of a program that C calls and that calls emitted code.
//!
//! A program's stack is a zero-filled block with a guard at its top, because it grows upward. The
//! shim installs the guard, calls the root with the block's address as its frame pointer, and
//! reads the root's answer off the bottom of the block. The two machines' shims are one program in
//! two instruction sets.

use crate::a64::{
    imm12, reg1, regs3, Asm, Patch, PatchKind, Piece, Shim, Sr, ADD_X_SHIFTED, AND_X_SHIFTED,
    CBNZ_X, CBZ_W, CBZ_X, LDP_FP_LR_POST, LDRB_W_UIMM, LDRH_W_UIMM, LDR_W_UIMM, LDR_X_UIMM,
    ORR_X_SHIFTED, RET_X30, SP,
};
use crate::abi::Tgt;
use crate::bytes::zeros;
use crate::object::RelKind;
use crate::region::Tg;
use crate::text::texts;
use crate::x86::{
    alu_bytes, mem_bytes, mov_imm_bytes, op_bytes, regs_bytes, Patch32, RAX, RDI, RDX, RSI, X86,
};
use vstd::prelude::*;

verus! {

/// Whether a program for x86-64 can be made at all.
pub const AVAILABLE_X86_64: bool = true;

/// The symbol of the program's stack. No identifier can contain a `$`.
pub const STACK_SYMBOL: &'static str = "buri$stencil$stack";

/// How much stack a program may use.
pub const STACK_USABLE: u64 = 0x400_0000;

/// The guard above the usable stack.
pub const GUARD_BYTES: u64 = 0x10_0000;

/// The whole zero-filled block: the usable stack, and the guard on top of it.
pub const STACK_BYTES: u64 = 0x410_0000;

/// log2 of the alignment of the block: the widest page of any target.
pub const STACK_ALIGN: u32 = 14;

/// The bits of a text's length word that hold its length.
pub const STR_LEN_MASK: u64 = 0x7fff_ffff_ffff_ffff;

/// The protection of memory that may not be touched.
pub const PROT_NONE: u64 = 0;

/// The block is the usable stack and the guard; both are whole numbers of pages, so the guard
/// starts on a page wherever the block does.
pub proof fn the_guard_is_whole_pages_on_top_of_the_stack()
    ensures
        STACK_BYTES == STACK_USABLE + GUARD_BYTES,
        1u64 << STACK_ALIGN == 0x4000,
        STACK_USABLE % 0x4000 == 0,
        GUARD_BYTES % 0x4000 == 0,
        STACK_BYTES % 0x4000 == 0,
{
    assert(1u64 << 14u32 == 0x4000) by (bit_vector);
}

/// Where a `main` that returns a result keeps its answer.
#[derive(Clone, Copy)]
pub struct MainResult {
    /// Byte offset of the tag within the return area, and its width in bytes.
    pub tag: (u32, u32),
    /// The offset of the pointer that is null in the error arm, where the layout has no tag.
    pub niche: Option<u32>,
    /// Byte offsets of the message's three words: base, pointer, length.
    pub message: (u32, u32, u32),
}

/// The load of a tag into the whole of a register.
pub open spec fn tag_load(rt: u32, rn: u32, off: u32, width: u32) -> u32 {
    if width == 1 {
        imm12(LDRB_W_UIMM, off, rn, rt)
    } else if width == 2 {
        imm12(LDRH_W_UIMM, off / 2, rn, rt)
    } else if width == 4 {
        imm12(LDR_W_UIMM, off / 4, rn, rt)
    } else {
        imm12(LDR_X_UIMM, off / 8, rn, rt)
    }
}

/// The load of a tag into the whole of a register.
pub open spec fn tag_load_x86(rt: u32, rn: u32, off: u32, width: u32) -> Seq<u8> {
    if width == 1 {
        mem_bytes(op_bytes(true, 0xb6), false, rt, rn, off)
    } else if width == 2 {
        mem_bytes(op_bytes(true, 0xb7), false, rt, rn, off)
    } else if width == 4 {
        mem_bytes(op_bytes(false, 0x8b), false, rt, rn, off)
    } else {
        mem_bytes(op_bytes(false, 0x8b), true, rt, rn, off)
    }
}

impl Piece {
    /// The guard installed, or the program stopped.
    pub open spec fn arm_guard(self) -> Piece {
        let p = self.adrp_add_symbol(0, STACK_SYMBOL@).mov_imm(9, STACK_USABLE).word(
            regs3(ADD_X_SHIFTED, 9, 0, 0),
        ).mov_imm(1, GUARD_BYTES).mov_imm(2, PROT_NONE).bl_symbol("mprotect"@);
        p.word(reg1(CBZ_W, 0)).bl_symbol("abort"@).here(p.at(), PatchKind::Cond19)
    }

    /// The runtime flushed and this status answered.
    pub open spec fn arm_leave(self, status: u64) -> Piece {
        self.bl_symbol("buri_rt_flush"@).mov_imm(0, status).word(LDP_FP_LR_POST).word(RET_X30)
    }

    /// The test that leads a success past the error arm.
    pub open spec fn arm_test(self, r: MainResult) -> Piece {
        match r.niche {
            Some(null_at) => self.word(imm12(LDR_X_UIMM, null_at / 8, 0, 9)).word(reg1(CBNZ_X, 9)),
            None => self.word(tag_load(9, 0, r.tag.0, r.tag.1)).word(reg1(CBZ_X, 9)),
        }
    }

    /// The message handed to the writer of errors.
    pub open spec fn arm_message(self, m: (u32, u32, u32)) -> Piece {
        self.word(imm12(LDR_X_UIMM, m.0 / 8, 0, 9)).word(imm12(LDR_X_UIMM, m.1 / 8, 0, 1)).word(
            imm12(LDR_X_UIMM, m.2 / 8, 0, 2),
        ).mov_imm(10, STR_LEN_MASK).word(regs3(AND_X_SHIFTED, 10, 2, 2)).word(
            regs3(ORR_X_SHIFTED, 9, SP, 0),
        ).bl_symbol("buri_rt_host_stderr_eprintln"@)
    }

    /// The start of either `main`.
    pub open spec fn arm_start() -> Piece {
        Piece::empty().stp_fp_lr().bl_symbol("buri_rt_argv_init"@).arm_guard()
    }

    /// One test block, behind the runtime's answer whether to run it.
    pub open spec fn arm_case(self, i: u64, symbol: Seq<char>) -> Piece {
        let p = self.mov_imm(0, i).bl_symbol("buri_rt_test_enter"@);
        p.word(reg1(CBZ_W, 0)).adrp_add_symbol(0, STACK_SYMBOL@).bl_symbol(symbol).here(
            p.at(),
            PatchKind::Cond19,
        )
    }

    /// The test blocks in order, from block `i` on.
    pub open spec fn arm_cases(self, tests: Seq<Seq<char>>, i: int) -> Piece
        decreases tests.len() - i,
    {
        if i >= tests.len() {
            self
        } else {
            self.arm_case(i as u64, tests[i]).arm_cases(tests, i + 1)
        }
    }

    /// The guard installed, or the program stopped.
    pub open spec fn x86_guard(self) -> Piece {
        let p = self.lea_symbol(RDI, STACK_SYMBOL@).put(
            alu_bytes(0, RDI, STACK_USABLE as u32),
        ).put(mov_imm_bytes(RSI, GUARD_BYTES)).put(mov_imm_bytes(RDX, PROT_NONE)).call_symbol(
            "mprotect"@,
        );
        p.test_jump(false, RAX, 0x84).call_symbol("abort"@).land(p.jump_field(false, RAX, 0x84))
    }

    /// The runtime flushed and this status answered.
    pub open spec fn x86_leave(self, status: u64) -> Piece {
        self.call_symbol("buri_rt_flush"@).put(mov_imm_bytes(RAX, status)).put(seq![0x5d]).put(
            seq![0xc3],
        )
    }

    /// What the test reads.
    pub open spec fn x86_load(self, r: MainResult) -> Piece {
        match r.niche {
            Some(null_at) => self.put(
                mem_bytes(op_bytes(false, 0x8b), true, RSI, RAX, null_at),
            ),
            None => self.put(tag_load_x86(RSI, RAX, r.tag.0, r.tag.1)),
        }
    }

    /// The message handed to the writer of errors.
    pub open spec fn x86_message(self, m: (u32, u32, u32)) -> Piece {
        self.put(mem_bytes(op_bytes(false, 0x8b), true, RDX, RAX, m.2)).put(
            mem_bytes(op_bytes(false, 0x8b), true, RSI, RAX, m.1),
        ).put(mem_bytes(op_bytes(false, 0x8b), true, RDI, RAX, m.0)).put(
            mov_imm_bytes(RAX, STR_LEN_MASK),
        ).put(regs_bytes(0x21, RAX, RDX)).call_symbol("buri_rt_host_stderr_eprintln"@)
    }

    /// The start of either `main`.
    pub open spec fn x86_start() -> Piece {
        Piece::empty().put(seq![0x55]).call_symbol("buri_rt_argv_init"@).x86_guard()
    }

    /// One test block, behind the runtime's answer whether to run it.
    pub open spec fn x86_case(self, i: u64, symbol: Seq<char>) -> Piece {
        let p = self.put(mov_imm_bytes(RDI, i)).call_symbol("buri_rt_test_enter"@);
        p.test_jump(false, RAX, 0x84).lea_symbol(RDI, STACK_SYMBOL@).call_symbol(symbol).land(
            p.jump_field(false, RAX, 0x84),
        )
    }

    /// The test blocks in order, from block `i` on.
    pub open spec fn x86_cases(self, tests: Seq<Seq<char>>, i: int) -> Piece
        decreases tests.len() - i,
    {
        if i >= tests.len() {
            self
        } else {
            self.x86_case(i as u64, tests[i]).x86_cases(tests, i + 1)
        }
    }
}

/// The condition under which a jump leaves the error arm: a pointer that is not null, or a tag that
/// is zero.
pub open spec fn success_jump(r: MainResult) -> u8 {
    match r.niche {
        Some(_) => 0x85,
        None => 0x84,
    }
}

/// `main` for a program, on A64.
pub open spec fn arm_program(callee: Seq<char>, result: Option<MainResult>) -> Piece {
    let p = Piece::arm_start().adrp_add_symbol(0, STACK_SYMBOL@).bl_symbol(callee);
    match result {
        None => p.arm_leave(0),
        Some(r) => {
            let tested = p.arm_test(r);
            let branch = (tested.at() - 4) as u64;
            tested.arm_message(r.message).arm_leave(1).here(branch, PatchKind::Cond19).arm_leave(0)
        },
    }
}

/// `main` for a program, on x86-64.
pub open spec fn x86_program(callee: Seq<char>, result: Option<MainResult>) -> Piece {
    let p = Piece::x86_start().lea_symbol(RDI, STACK_SYMBOL@).call_symbol(callee);
    match result {
        None => p.x86_leave(0),
        Some(r) => {
            let q = p.x86_load(r);
            q.test_jump(true, RSI, success_jump(r)).x86_message(r.message).x86_leave(1).land(
                q.jump_field(true, RSI, success_jump(r)),
            ).x86_leave(0)
        },
    }
}

/// `main` for a suite, on A64.
pub open spec fn arm_suite(tests: Seq<Seq<char>>) -> Piece {
    Piece::arm_start().arm_cases(tests, 0).arm_leave(0)
}

/// `main` for a suite, on x86-64.
pub open spec fn x86_suite(tests: Seq<Seq<char>>) -> Piece {
    Piece::x86_start().x86_cases(tests, 0).x86_leave(0)
}

/// Turns the top of the stack into memory that may not be touched, so that a runaway recursion
/// faults.
fn install_guard(a: &mut Asm)
    ensures
        final(a)@ == old(a)@.arm_guard(),
{
    a.adrp_add_symbol(0, STACK_SYMBOL);
    a.mov_imm(9, STACK_USABLE);
    a.add_reg(0, 0, 9);
    a.mov_imm(1, GUARD_BYTES);
    a.mov_imm(2, PROT_NONE);
    a.bl_symbol("mprotect");
    let ok: Patch = a.cbz(0);
    a.bl_symbol("abort");
    a.here(ok);
}

fn leave(a: &mut Asm, status: u64)
    ensures
        final(a)@ == old(a)@.arm_leave(status),
{
    a.bl_symbol("buri_rt_flush");
    a.mov_imm(0, status);
    a.ldp_fp_lr();
    a.ret();
}

/// `int main(int argc, char **argv)` for a program whose root is `callee`: the arguments handed to
/// the runtime, the root, and then the exit. A success flushes and exits 0; a failure writes its
/// message to standard error, flushes and exits 1.
pub fn program_entry(target: Tgt, callee: &str, result: Option<MainResult>) -> (r: Shim)
    ensures
        r@ == (if target.arm64() {
            arm_program(callee@, result)
        } else {
            x86_program(callee@, result)
        }),
{
    if target.is_arm64() {
        return program_entry_arm64(callee, result).into_shim();
    }
    program_entry_x86_64(callee, result).into_shim()
}

/// [`program_entry`] for A64.
pub fn program_entry_arm64(callee: &str, result: Option<MainResult>) -> (a: Asm)
    ensures
        a@ == arm_program(callee@, result),
{
    let mut a: Asm = Asm::new();
    a.stp_fp_lr();
    a.bl_symbol("buri_rt_argv_init");
    install_guard(&mut a);
    a.adrp_add_symbol(0, STACK_SYMBOL);
    a.bl_symbol(callee);
    match result {
        None => leave(&mut a, 0),
        Some(r) => {
            let ghost p = a@;
            let ok: Patch = match r.niche {
                Some(null_at) => {
                    a.ldr(9, 0, null_at);
                    a.cbnz_x(9)
                },
                None => {
                    load_tag(&mut a, 9, 0, r.tag.0, r.tag.1);
                    a.cbz_x(9)
                },
            };
            assert(a@ == p.arm_test(r));
            let end: u64 = a.at();
            assert(ok.at == (a@.at() - 4) as u64);
            a.ldr(9, 0, r.message.0);
            a.ldr(1, 0, r.message.1);
            a.ldr(2, 0, r.message.2);
            a.mov_imm(10, STR_LEN_MASK);
            a.and_reg(2, 2, 10);
            a.mov_reg(0, 9);
            a.bl_symbol("buri_rt_host_stderr_eprintln");
            leave(&mut a, 1);
            a.here(ok);
            leave(&mut a, 0);
        },
    }
    a
}

/// Loads a tag, with zeros above it. A width that is not known loads eight bytes.
pub fn load_tag(a: &mut Asm, rt: u32, rn: u32, off: u32, width: u32)
    ensures
        final(a)@ == old(a)@.word(tag_load(rt, rn, off, width)),
{
    match width {
        1 => a.ldrb(rt, rn, off),
        2 => a.ldrh(rt, rn, off),
        4 => a.ldr_w(rt, rn, off),
        _ => a.ldr(rt, rn, off),
    }
}

/// `int main(int argc, char **argv)` for a suite: every test block in order, each behind the
/// runtime's answer whether this process is to run it.
pub fn test_entry(target: Tgt, tests: &[String]) -> (r: Shim)
    ensures
        r@ == (if target.arm64() {
            arm_suite(texts(tests@))
        } else {
            x86_suite(texts(tests@))
        }),
{
    if target.is_arm64() {
        return test_entry_arm64(tests).into_shim();
    }
    test_entry_x86_64(tests).into_shim()
}

fn test_entry_arm64(tests: &[String]) -> (a: Asm)
    ensures
        a@ == arm_suite(texts(tests@)),
{
    let mut a: Asm = Asm::new();
    a.stp_fp_lr();
    a.bl_symbol("buri_rt_argv_init");
    install_guard(&mut a);
    let ghost start = a@;
    let mut i: usize = 0;
    while i < tests.len()
        invariant
            i <= tests@.len(),
            a@.arm_cases(texts(tests@), i as int) == start.arm_cases(texts(tests@), 0),
        decreases tests@.len() - i,
    {
        a.mov_imm(0, i as u64);
        a.bl_symbol("buri_rt_test_enter");
        let next: Patch = a.cbz(0);
        a.adrp_add_symbol(0, STACK_SYMBOL);
        a.bl_symbol(tests[i].as_str());
        a.here(next);
        i = i + 1;
    }
    leave(&mut a, 0);
    a
}

fn install_guard_x86_64(a: &mut X86)
    ensures
        final(a)@ == old(a)@.x86_guard(),
{
    a.lea_symbol(RDI, STACK_SYMBOL);
    a.add_imm(RDI, STACK_USABLE as u32);
    a.mov_imm(RSI, GUARD_BYTES);
    a.mov_imm(RDX, PROT_NONE);
    a.call_symbol("mprotect");
    let ok: Patch32 = a.cbz(RAX);
    a.call_symbol("abort");
    a.here(ok);
}

fn leave_x86_64(a: &mut X86, status: u64)
    ensures
        final(a)@ == old(a)@.x86_leave(status),
{
    a.call_symbol("buri_rt_flush");
    a.mov_imm(RAX, status);
    a.pop_rbp();
    a.ret();
}

/// [`program_entry`] for x86-64.
pub fn program_entry_x86_64(callee: &str, result: Option<MainResult>) -> (a: X86)
    ensures
        a@ == x86_program(callee@, result),
{
    let mut a: X86 = X86::new();
    a.push_rbp();
    a.call_symbol("buri_rt_argv_init");
    install_guard_x86_64(&mut a);
    a.lea_symbol(RDI, STACK_SYMBOL);
    a.call_symbol(callee);
    match result {
        None => leave_x86_64(&mut a, 0),
        Some(r) => {
            let ok: Patch32 = match r.niche {
                Some(null_at) => {
                    a.ldr(RSI, RAX, null_at);
                    a.cbnz_x(RSI)
                },
                None => {
                    load_tag_x86_64(&mut a, RSI, RAX, r.tag.0, r.tag.1);
                    a.cbz_x(RSI)
                },
            };
            a.ldr(RDX, RAX, r.message.2);
            a.ldr(RSI, RAX, r.message.1);
            a.ldr(RDI, RAX, r.message.0);
            a.mov_imm(RAX, STR_LEN_MASK);
            a.and_reg(RDX, RAX);
            a.call_symbol("buri_rt_host_stderr_eprintln");
            leave_x86_64(&mut a, 1);
            a.here(ok);
            leave_x86_64(&mut a, 0);
        },
    }
    a
}

/// [`load_tag`] for x86-64.
pub fn load_tag_x86_64(a: &mut X86, rt: u32, rn: u32, off: u32, width: u32)
    ensures
        final(a)@ == old(a)@.put(tag_load_x86(rt, rn, off, width)),
{
    match width {
        1 => a.ldrb(rt, rn, off),
        2 => a.ldrh(rt, rn, off),
        4 => a.ldr_w(rt, rn, off),
        _ => a.ldr(rt, rn, off),
    }
}

fn test_entry_x86_64(tests: &[String]) -> (a: X86)
    ensures
        a@ == x86_suite(texts(tests@)),
{
    let mut a: X86 = X86::new();
    a.push_rbp();
    a.call_symbol("buri_rt_argv_init");
    install_guard_x86_64(&mut a);
    let ghost start = a@;
    let mut i: usize = 0;
    while i < tests.len()
        invariant
            i <= tests@.len(),
            a@.x86_cases(texts(tests@), i as int) == start.x86_cases(texts(tests@), 0),
        decreases tests@.len() - i,
    {
        a.mov_imm(RDI, i as u64);
        a.call_symbol("buri_rt_test_enter");
        let next: Patch32 = a.cbz(RAX);
        a.lea_symbol(RDI, STACK_SYMBOL);
        a.call_symbol(tests[i].as_str());
        a.here(next);
        i = i + 1;
    }
    leave_x86_64(&mut a, 0);
    a
}

/// What a block refers to, in order. The two relocations of one A64 address count as one.
pub open spec fn refers(rs: Seq<Sr>) -> Seq<Tg>
    decreases rs.len(),
{
    if rs.len() == 0 {
        Seq::empty()
    } else if rs.last().kind == RelKind::PageOff12 {
        refers(rs.drop_last())
    } else {
        refers(rs.drop_last()).push(rs.last().target)
    }
}

broadcast proof fn refers_push(rs: Seq<Sr>, x: Sr)
    ensures
        #[trigger] refers(rs.push(x)) == (if x.kind == RelKind::PageOff12 {
            refers(rs)
        } else {
            refers(rs).push(x.target)
        }),
{
    assert(rs.push(x).drop_last() =~= rs);
}

broadcast proof fn words_keep_relocs(p: Piece, w: Seq<u32>, i: int)
    ensures
        (#[trigger] p.words(w, i)).relocs == p.relocs,
    decreases w.len() - i,
{
    if i < w.len() {
        words_keep_relocs(p.word(w[i]), w, i + 1);
    }
}

/// The two machines' programs refer to the same symbols in the same order.
#[verifier::rlimit(30)]
pub proof fn two_programs_refer_to_the_same_symbols(callee: Seq<char>, result: Option<MainResult>)
    ensures
        refers(arm_program(callee, result).relocs) == refers(x86_program(callee, result).relocs),
{
    broadcast use {refers_push, words_keep_relocs};

}

proof fn lemma_cases(a: Piece, x: Piece, tests: Seq<Seq<char>>, i: int)
    requires
        refers(a.relocs) == refers(x.relocs),
    ensures
        refers(a.arm_cases(tests, i).relocs) == refers(x.x86_cases(tests, i).relocs),
    decreases tests.len() - i,
{
    broadcast use {refers_push, words_keep_relocs};

    if i < tests.len() {
        let b = a.arm_case(i as u64, tests[i]);
        let y = x.x86_case(i as u64, tests[i]);
        assert(refers(b.relocs) == refers(y.relocs));
        lemma_cases(b, y, tests, i + 1);
    }
}

/// The two machines' suites refer to the same symbols in the same order.
pub proof fn two_suites_refer_to_the_same_symbols(tests: Seq<Seq<char>>)
    ensures
        refers(arm_suite(tests).relocs) == refers(x86_suite(tests).relocs),
{
    broadcast use {refers_push, words_keep_relocs};

    let a = Piece::arm_start();
    let x = Piece::x86_start();
    assert(refers(a.relocs) == refers(x.relocs));
    lemma_cases(a, x, tests, 0);
}

/// Every relocation of a block names four zero bytes that end their instruction: the linker writes
/// them, and measures from behind them.
pub open spec fn fields_end_instructions(p: Piece) -> bool {
    forall|i: int|
        0 <= i < p.relocs.len() ==> {
            &&& (#[trigger] p.relocs[i]).addend == -4
            &&& p.relocs[i].at + 4 <= p.bytes.len()
            &&& p.bytes.subrange(p.relocs[i].at as int, p.relocs[i].at + 4) == zeros(4)
        }
}

/// `q` is `p` with code behind it.
pub open spec fn grown(p: Piece, q: Piece) -> bool {
    &&& p.bytes.len() <= q.bytes.len()
    &&& p.relocs.len() <= q.relocs.len()
    &&& forall|i: int| 0 <= i < p.relocs.len() ==> #[trigger] q.relocs[i] == p.relocs[i]
    &&& q.bytes.len() <= u64::MAX ==> forall|i: int|
        p.relocs.len() <= i < q.relocs.len() ==> (#[trigger] q.relocs[i]).at >= p.bytes.len()
}

/// `q` is `p` with code behind it, and its fields end their instructions where those of `p` do.
pub open spec fn step(p: Piece, q: Piece) -> bool {
    &&& grown(p, q)
    &&& fields_end_instructions(p) && q.bytes.len() <= u64::MAX ==> fields_end_instructions(q)
}

broadcast proof fn step_put(p: Piece, q: Piece, b: Seq<u8>)
    requires
        step(p, q),
    ensures
        #[trigger] step(p, q.put(b)),
{
    let r = q.put(b);
    if fields_end_instructions(q) {
        assert forall|i: int| 0 <= i < r.relocs.len() implies {
            &&& (#[trigger] r.relocs[i]).addend == -4
            &&& r.relocs[i].at + 4 <= r.bytes.len()
            &&& r.bytes.subrange(r.relocs[i].at as int, r.relocs[i].at + 4) == zeros(4)
        } by {
            assert(q.relocs[i] == r.relocs[i]);
            assert(r.bytes.subrange(r.relocs[i].at as int, r.relocs[i].at + 4)
                =~= q.bytes.subrange(r.relocs[i].at as int, r.relocs[i].at + 4));
        }
    }
}

broadcast proof fn step_pcrel(p: Piece, q: Piece, kind: RelKind, name: Seq<char>)
    requires
        step(p, q),
    ensures
        #[trigger] step(p, q.pcrel(kind, name)),
{
    let r = q.pcrel(kind, name);
    assert(step(p, q.put(zeros(4)))) by {
        step_put(p, q, zeros(4));
    }
    if fields_end_instructions(p) && r.bytes.len() <= u64::MAX {
        let n = q.relocs.len() as int;
        assert forall|i: int| 0 <= i < r.relocs.len() implies {
            &&& (#[trigger] r.relocs[i]).addend == -4
            &&& r.relocs[i].at + 4 <= r.bytes.len()
            &&& r.bytes.subrange(r.relocs[i].at as int, r.relocs[i].at + 4) == zeros(4)
        } by {
            if i < n {
                assert(q.put(zeros(4)).relocs[i] == r.relocs[i]);
            } else {
                assert(r.bytes.subrange(r.relocs[i].at as int, r.relocs[i].at + 4) =~= zeros(4));
            }
        }
    }
}

proof fn lemma_land(p: Piece, q: Piece, wide: bool, rt: u32, cc: u8)
    requires
        step(p.test_jump(wide, rt, cc), q),
    ensures
        step(p, q.land(p.jump_field(wide, rt, cc))),
{
    let field = p.jump_field(wide, rt, cc);
    let m = p.test_jump(wide, rt, cc);
    let r = q.land(field);
    assert(step(p, m)) by {
        broadcast use step_put;

    }
    assert(r.bytes.len() == q.bytes.len());
    if fields_end_instructions(p) && r.bytes.len() <= u64::MAX {
        assert forall|i: int| 0 <= i < r.relocs.len() implies {
            &&& (#[trigger] r.relocs[i]).addend == -4
            &&& r.relocs[i].at + 4 <= r.bytes.len()
            &&& r.bytes.subrange(r.relocs[i].at as int, r.relocs[i].at + 4) == zeros(4)
        } by {
            assert(q.relocs[i] == r.relocs[i]);
            if i < p.relocs.len() {
                assert(m.relocs[i] == p.relocs[i]);
                assert(q.relocs[i] == m.relocs[i]);
            }
            assert(r.bytes.subrange(r.relocs[i].at as int, r.relocs[i].at + 4)
                =~= q.bytes.subrange(r.relocs[i].at as int, r.relocs[i].at + 4));
        }
    }
}

proof fn lemma_step_trans(a: Piece, b: Piece, c: Piece)
    requires
        step(a, b),
        step(b, c),
    ensures
        step(a, c),
{
    assert forall|i: int| 0 <= i < a.relocs.len() implies #[trigger] c.relocs[i] == a.relocs[i] by {
        assert(b.relocs[i] == a.relocs[i]);
    }
    if c.bytes.len() <= u64::MAX {
        assert forall|i: int| a.relocs.len() <= i < c.relocs.len() implies (
        #[trigger] c.relocs[i]).at >= a.bytes.len() by {
            if i < b.relocs.len() {
                assert(c.relocs[i] == b.relocs[i]);
            }
        }
    }
}

proof fn lemma_x86_guard(p: Piece)
    ensures
        step(p, p.x86_guard()),
{
    broadcast use {step_put, step_pcrel};

    let q = p.lea_symbol(RDI, STACK_SYMBOL@).put(alu_bytes(0, RDI, STACK_USABLE as u32)).put(
        mov_imm_bytes(RSI, GUARD_BYTES),
    ).put(mov_imm_bytes(RDX, PROT_NONE)).call_symbol("mprotect"@);
    assert(step(p, p));
    assert(step(p, q));
    let m = q.test_jump(false, RAX, 0x84);
    assert(step(m, m));
    assert(step(m, m.call_symbol("abort"@)));
    lemma_land(q, m.call_symbol("abort"@), false, RAX, 0x84);
    lemma_step_trans(p, q, p.x86_guard());
}

proof fn lemma_x86_case(p: Piece, i: u64, symbol: Seq<char>)
    ensures
        step(p, p.x86_case(i, symbol)),
{
    broadcast use {step_put, step_pcrel};

    let q = p.put(mov_imm_bytes(RDI, i)).call_symbol("buri_rt_test_enter"@);
    assert(step(p, p));
    assert(step(p, q));
    let m = q.test_jump(false, RAX, 0x84);
    assert(step(m, m));
    let n = m.lea_symbol(RDI, STACK_SYMBOL@).call_symbol(symbol);
    assert(step(m, n));
    lemma_land(q, n, false, RAX, 0x84);
    lemma_step_trans(p, q, p.x86_case(i, symbol));
}

proof fn lemma_x86_cases(p: Piece, tests: Seq<Seq<char>>, i: int)
    ensures
        step(p, p.x86_cases(tests, i)),
    decreases tests.len() - i,
{
    if i < tests.len() {
        let q = p.x86_case(i as u64, tests[i]);
        lemma_x86_case(p, i as u64, tests[i]);
        lemma_x86_cases(q, tests, i + 1);
        lemma_step_trans(p, q, p.x86_cases(tests, i));
    }
}

proof fn lemma_x86_start()
    ensures
        step(Piece::empty(), Piece::x86_start()),
{
    broadcast use {step_put, step_pcrel};

    let p = Piece::empty();
    let q = p.put(seq![0x55]).call_symbol("buri_rt_argv_init"@);
    assert(step(p, p));
    assert(step(p, q));
    lemma_x86_guard(q);
    lemma_step_trans(p, q, q.x86_guard());
}

/// Every x86-64 relocation of a suite's `main` names a zero field that ends its instruction.
pub proof fn a_suite_relocates_the_ends_of_instructions(tests: Seq<Seq<char>>)
    requires
        x86_suite(tests).bytes.len() <= u64::MAX,
    ensures
        fields_end_instructions(x86_suite(tests)),
{
    broadcast use {step_put, step_pcrel};

    let p = Piece::empty();
    let a = Piece::x86_start();
    let b = a.x86_cases(tests, 0);
    lemma_x86_start();
    lemma_x86_cases(a, tests, 0);
    lemma_step_trans(p, a, b);
    assert(step(p, b.x86_leave(0)));
}

/// Every x86-64 relocation of a program's `main` names a zero field that ends its instruction.
pub proof fn a_program_relocates_the_ends_of_instructions(
    callee: Seq<char>,
    result: Option<MainResult>,
)
    requires
        x86_program(callee, result).bytes.len() <= u64::MAX,
    ensures
        fields_end_instructions(x86_program(callee, result)),
{
    broadcast use {step_put, step_pcrel};

    let e = Piece::empty();
    lemma_x86_start();
    let p = Piece::x86_start().lea_symbol(RDI, STACK_SYMBOL@).call_symbol(callee);
    assert(step(e, p));
    match result {
        None => {
            assert(step(e, p.x86_leave(0)));
        },
        Some(r) => {
            let q = p.x86_load(r);
            assert(step(e, q));
            let m = q.test_jump(true, RSI, success_jump(r));
            assert(step(m, m));
            let n = m.x86_message(r.message).x86_leave(1);
            assert(step(m, n));
            lemma_land(q, n, true, RSI, success_jump(r));
            let o = n.land(q.jump_field(true, RSI, success_jump(r)));
            lemma_step_trans(e, q, o);
            assert(step(e, o.x86_leave(0)));
        },
    }
}

/// A block is of whole words, and every relocation of it is of a whole word and adds nothing.
pub open spec fn fields_are_words(p: Piece) -> bool {
    &&& p.bytes.len() % 4 == 0
    &&& p.bytes.len() <= u64::MAX ==> forall|i: int|
        0 <= i < p.relocs.len() ==> {
            &&& (#[trigger] p.relocs[i]).addend == 0
            &&& p.relocs[i].at % 4 == 0
            &&& p.relocs[i].at + 4 <= p.bytes.len()
        }
}

broadcast proof fn word_in_words(p: Piece, w: u32)
    requires
        fields_are_words(p),
    ensures
        #[trigger] fields_are_words(p.word(w)),
{
    let q = p.word(w);
    if q.bytes.len() <= u64::MAX {
        assert forall|i: int| 0 <= i < q.relocs.len() implies {
            &&& (#[trigger] q.relocs[i]).addend == 0
            &&& q.relocs[i].at % 4 == 0
            &&& q.relocs[i].at + 4 <= q.bytes.len()
        } by {
            assert(q.relocs[i] == p.relocs[i]);
        }
    }
}

broadcast proof fn words_in_words(p: Piece, w: Seq<u32>, i: int)
    requires
        fields_are_words(p),
    ensures
        #[trigger] fields_are_words(p.words(w, i)),
    decreases w.len() - i,
{
    if i < w.len() {
        word_in_words(p, w[i]);
        words_in_words(p.word(w[i]), w, i + 1);
    }
}

broadcast proof fn here_in_words(p: Piece, at: u64, kind: PatchKind)
    requires
        fields_are_words(p),
    ensures
        #[trigger] fields_are_words(p.here(at, kind)),
{
    let q = p.here(at, kind);
    assert(q.bytes.len() == p.bytes.len());
    assert(q.relocs == p.relocs);
}

broadcast proof fn call_in_words(p: Piece, name: Seq<char>)
    requires
        fields_are_words(p),
    ensures
        #[trigger] fields_are_words(p.bl_symbol(name)),
{
    let q = p.bl_symbol(name);
    if q.bytes.len() <= u64::MAX {
        assert forall|i: int| 0 <= i < q.relocs.len() implies {
            &&& (#[trigger] q.relocs[i]).addend == 0
            &&& q.relocs[i].at % 4 == 0
            &&& q.relocs[i].at + 4 <= q.bytes.len()
        } by {
            if i < p.relocs.len() {
                assert(q.relocs[i] == p.relocs[i]);
            }
        }
    }
}

broadcast proof fn address_in_words(p: Piece, rd: u32, name: Seq<char>)
    requires
        fields_are_words(p),
    ensures
        #[trigger] fields_are_words(p.adrp_add_symbol(rd, name)),
{
    let q = p.adrp_add_symbol(rd, name);
    if q.bytes.len() <= u64::MAX {
        assert forall|i: int| 0 <= i < q.relocs.len() implies {
            &&& (#[trigger] q.relocs[i]).addend == 0
            &&& q.relocs[i].at % 4 == 0
            &&& q.relocs[i].at + 4 <= q.bytes.len()
        } by {
            if i < p.relocs.len() {
                assert(q.relocs[i] == p.relocs[i]);
            }
        }
    }
}

proof fn lemma_cases_in_words(p: Piece, tests: Seq<Seq<char>>, i: int)
    requires
        fields_are_words(p),
    ensures
        fields_are_words(p.arm_cases(tests, i)),
    decreases tests.len() - i,
{
    broadcast use {word_in_words, words_in_words, here_in_words, call_in_words, address_in_words};

    if i < tests.len() {
        let q = p.mov_imm(0, i as u64).bl_symbol("buri_rt_test_enter"@);
        assert(fields_are_words(q));
        assert(fields_are_words(p.arm_case(i as u64, tests[i])));
        lemma_cases_in_words(p.arm_case(i as u64, tests[i]), tests, i + 1);
    }
}

/// Every A64 relocation of a suite's `main` is of a whole word and adds nothing.
pub proof fn a_suite_relocates_whole_words(tests: Seq<Seq<char>>)
    ensures
        fields_are_words(arm_suite(tests)),
{
    broadcast use {word_in_words, words_in_words, here_in_words, call_in_words, address_in_words};

    assert(fields_are_words(Piece::empty()));
    assert(fields_are_words(Piece::arm_start()));
    lemma_cases_in_words(Piece::arm_start(), tests, 0);
}

/// Every A64 relocation of a program's `main` is of a whole word and adds nothing.
pub proof fn a_program_relocates_whole_words(callee: Seq<char>, result: Option<MainResult>)
    ensures
        fields_are_words(arm_program(callee, result)),
{
    broadcast use {word_in_words, words_in_words, here_in_words, call_in_words, address_in_words};

    assert(fields_are_words(Piece::empty()));
    assert(fields_are_words(Piece::arm_start()));
}

/// What the blocks of the tests refer to, from test `i` on.
pub open spec fn case_names(tests: Seq<Seq<char>>, i: int) -> Seq<Tg>
    decreases tests.len() - i,
{
    if i >= tests.len() {
        Seq::empty()
    } else {
        seq![
            Tg::Symbol("buri_rt_test_enter"@),
            Tg::Symbol(STACK_SYMBOL@),
            Tg::Symbol(tests[i]),
        ] + case_names(tests, i + 1)
    }
}

proof fn lemma_case_names(p: Piece, tests: Seq<Seq<char>>, i: int)
    ensures
        refers(p.x86_cases(tests, i).relocs) == refers(p.relocs) + case_names(tests, i),
    decreases tests.len() - i,
{
    broadcast use {refers_push, words_keep_relocs};

    if i < tests.len() {
        let q = p.x86_case(i as u64, tests[i]);
        lemma_case_names(q, tests, i + 1);
        let three = seq![
            Tg::Symbol("buri_rt_test_enter"@),
            Tg::Symbol(STACK_SYMBOL@),
            Tg::Symbol(tests[i]),
        ];
        assert(refers(q.relocs) =~= refers(p.relocs) + three);
        assert(refers(p.relocs) + three + case_names(tests, i + 1) =~= refers(p.relocs) + (three
            + case_names(tests, i + 1)));
    } else {
        assert(refers(p.relocs) + case_names(tests, i) =~= refers(p.relocs));
    }
}

/// A suite's `main` calls the runtime's start, puts the guard on top of the stack or stops, then for
/// each test in its order asks whether to run it and enters it on the stack, and calls the runtime's
/// end: on either machine it refers to these and to nothing else.
pub proof fn a_suite_refers_to_its_tests_in_order(tests: Seq<Seq<char>>)
    ensures
        refers(x86_suite(tests).relocs) == seq![
            Tg::Symbol("buri_rt_argv_init"@),
            Tg::Symbol(STACK_SYMBOL@),
            Tg::Symbol("mprotect"@),
            Tg::Symbol("abort"@),
        ] + case_names(tests, 0) + seq![Tg::Symbol("buri_rt_flush"@)],
        refers(arm_suite(tests).relocs) == refers(x86_suite(tests).relocs),
{
    broadcast use {refers_push, words_keep_relocs};

    let x = Piece::x86_start();
    assert(refers(x.relocs) =~= seq![
        Tg::Symbol("buri_rt_argv_init"@),
        Tg::Symbol(STACK_SYMBOL@),
        Tg::Symbol("mprotect"@),
        Tg::Symbol("abort"@),
    ]);
    lemma_case_names(x, tests, 0);
    let c = x.x86_cases(tests, 0);
    assert(refers(c.x86_leave(0).relocs) =~= refers(c.relocs) + seq![Tg::Symbol("buri_rt_flush"@)]);
    two_suites_refer_to_the_same_symbols(tests);
}

} // verus!
