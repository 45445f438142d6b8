//! The functions that a unit generates for itself.
//!
//! A closure's code, the drop and the copy of a type's values and of a list's elements, and what the
//! runtime calls to run one step of a closure. A thunk is entered by emitted code and needs no
//! bridge. The others are entered from C: a few instructions by hand make a frame and call the body
//! behind them.

use crate::a64::{imm12, imm9, reg1, with_26, Asm, Patch, PatchKind, Piece, ADD_X_IMM, BL, BR, CBZ_X,
    LDR_X_POST, LDR_X_UIMM, RET_X30, SP, STR_X_PRE, STR_X_UIMM, SUB_X_IMM};
use crate::abi::Tgt;
use crate::bytes::le32;
use crate::frames::SCRATCH_BYTES;
use crate::ir::{Func, Ownership, Program, Type};
use crate::select::{
    slot_of, slot_of_width, Emit, Env, Fn2, Fr, FrameSig, Helper, Item, Op, Sel, Side, H, V,
};
use crate::text::{decimal, decimal_of, join2, join3, own};
use crate::types::{at_or, ent, Shape};
use crate::walk::{ENV_COPY_WORD, ENV_FIELDS, ENV_WORD};
use crate::x86::{
    alu_bytes, jmp_bytes, mem_bytes, op_bytes, regs_bytes, Patch32, RAX, RCX, RDI, RDX, RSI, RSP, X86,
};
use vstd::prelude::*;

verus! {

/// The widest frame that a glue stub can make: what one `sub sp` immediate names.
pub const MAX_GLUE_FRAME: u64 = 4080;

/// The bits of a block's capacity word that hold its capacity.
pub const CAP_MASK: u64 = 0x7fff_ffff_ffff_ffff;

// The slots that a glue frame opens with: the pointer it was handed, a loop index, an element count
// and a spare word, and behind them the value.
pub const G_PTR: u64 = 0;
pub const G_INDEX: u64 = 8;
pub const G_COUNT: u64 = 16;
pub const G_SPARE: u64 = 24;
pub const G_VALUE: u64 = 32;

// The slots that an entry thunk's frame opens with: its four C arguments, a zero to index them by, a
// pointer into the state record, the closure, and the element.
pub const E_STATE: u64 = 0;
pub const E_INDEX: u64 = 8;
pub const E_ARG: u64 = 16;
pub const E_OUT: u64 = 24;
pub const E_ZERO: u64 = 32;
pub const E_CTXP: u64 = 40;
pub const E_CLOS: u64 = 48;
pub const E_ELEM: u64 = 64;

/// Where the state record keeps the frame that an entry thunk works in.
pub const E_FRAME: u32 = 16;

/// Where the state record's context arguments start.
pub const E_CTX: u32 = 24;

/// The symbol of helper `i`. No identifier can contain a `$`.
pub open spec fn helper_symbol(i: nat) -> Seq<char> {
    "buri$stencil$h"@ + decimal(i)
}

/// Two helpers have two symbols.
pub proof fn two_helpers_have_two_symbols(i: nat, j: nat)
    requires
        i != j,
    ensures
        helper_symbol(i) != helper_symbol(j),
{
    let p = "buri$stencil$h"@;
    if helper_symbol(i) == helper_symbol(j) {
        assert(decimal(i) =~= helper_symbol(i).skip(p.len() as int));
        assert(decimal(j) =~= helper_symbol(j).skip(p.len() as int));
        crate::text::two_numbers_have_two_numerals(i, j, 10);
    }
}

/// The symbol of helper `i`.
pub fn symbol(i: usize) -> (r: String)
    ensures
        r@ == helper_symbol(i as nat),
{
    let n: String = decimal_of(i as u64);
    join2("buri$stencil$h", n.as_str())
}

/// `n` rounded up to a multiple of eight.
pub open spec fn round8(n: nat) -> nat {
    ((n + 7) / 8 * 8) as nat
}

/// `n` rounded up to a multiple of sixteen.
pub open spec fn round16(n: nat) -> nat {
    ((n + 15) / 16 * 16) as nat
}

/// Whether step parameter `i` of `n` is a context: the last is the element, and the index travels
/// by itself.
pub open spec fn is_context(n: nat, index: Option<usize>, i: int) -> bool {
    i + 1 < n && index != Some(i as usize)
}

/// Where the state record ends, once the contexts among the first `n` parameters are in it.
pub open spec fn state_end(widths: Seq<u32>, index: Option<usize>, n: int) -> nat
    decreases n,
{
    if n <= 0 {
        E_CTX as nat
    } else {
        state_end(widths, index, n - 1) + (if is_context(widths.len(), index, n - 1) {
            round8(widths[n - 1] as nat)
        } else {
            0
        })
    }
}

/// Where the contexts among the first `n` parameters stand in the state record.
pub open spec fn state_places(widths: Seq<u32>, index: Option<usize>, n: int) -> Seq<u32>
    decreases n,
{
    if n <= 0 {
        Seq::empty()
    } else if is_context(widths.len(), index, n - 1) {
        state_places(widths, index, n - 1).push(state_end(widths, index, n - 1) as u32)
    } else {
        state_places(widths, index, n - 1)
    }
}

proof fn lemma_state_grows(widths: Seq<u32>, index: Option<usize>, i: int, n: int)
    requires
        i <= n,
    ensures
        state_end(widths, index, i) <= state_end(widths, index, n),
    decreases n - i,
{
    if i < n {
        lemma_state_grows(widths, index, i, n - 1);
    }
}

/// Where each context argument stands in the state record, and how big the record is.
pub fn state_shape(widths: &[u32], index: Option<usize>) -> (r: (Vec<u32>, u32))
    requires
        round16(state_end(widths@, index, widths@.len() as int)) <= u32::MAX,
    ensures
        r.0@ == state_places(widths@, index, widths@.len() as int),
        r.1 == round16(state_end(widths@, index, widths@.len() as int)),
{
    let n: usize = widths.len();
    let mut out: Vec<u32> = Vec::new();
    let mut at: u64 = E_CTX as u64;
    let mut i: usize = 0;
    assert(out@ =~= Seq::empty());
    while i < n
        invariant
            i <= n,
            n == widths@.len(),
            round16(state_end(widths@, index, n as int)) <= u32::MAX,
            at == state_end(widths@, index, i as int),
            out@ == state_places(widths@, index, i as int),
        decreases n - i,
    {
        proof {
            lemma_state_grows(widths@, index, i as int + 1, n as int);
        }
        let skip: bool = match index {
            Some(k) => k == i,
            None => false,
        };
        if i < n - 1 && !skip {
            out.push(at as u32);
            at = at + (widths[i] as u64 + 7) / 8 * 8;
        }
        i = i + 1;
    }
    (out, ((at + 15) / 16 * 16) as u32)
}

/// A context stands on a multiple of eight behind the record's three words, and the next one stands
/// behind it.
pub proof fn contexts_are_apart(widths: Seq<u32>, index: Option<usize>, i: int, j: int)
    requires
        0 <= i < j <= widths.len(),
        is_context(widths.len(), index, i),
    ensures
        E_CTX <= state_end(widths, index, i),
        state_end(widths, index, i) % 8 == 0,
        state_end(widths, index, i) + widths[i] <= state_end(widths, index, j),
        round16(state_end(widths, index, widths.len() as int)) % 16 == 0,
    decreases i,
{
    lemma_state_grows(widths, index, i + 1, j);
    lemma_state_grows(widths, index, 0, i);
    lemma_state_aligned(widths, index, i);
}

proof fn lemma_state_aligned(widths: Seq<u32>, index: Option<usize>, n: int)
    ensures
        state_end(widths, index, n) % 8 == 0,
    decreases n,
{
    if n > 0 {
        lemma_state_aligned(widths, index, n - 1);
    }
}

// ---------------------------------------------------------------------------
// The instructions by hand
// ---------------------------------------------------------------------------

/// Calls the function in a block's word at `at` on what the block holds, where there is one.
pub open spec fn env_stub(target: Tgt, at: u32) -> Seq<u8> {
    if target.arm64() {
        let p = Piece::empty().word(imm12(LDR_X_UIMM, at / 8, 0, 1));
        p.word(reg1(CBZ_X, 1)).word(imm12(ADD_X_IMM, ENV_FIELDS as u32, 0, 0)).word(
            (BR + 32) as u32,
        ).here(p.at(), PatchKind::Cond19).word(RET_X30).bytes
    } else {
        let p = Piece::empty().put(mem_bytes(op_bytes(false, 0x8b), true, RSI, RDI, at));
        p.test_jump(true, RSI, 0x84).put(alu_bytes(0, RDI, ENV_FIELDS as u32)).put(
            jmp_bytes(RSI),
        ).land(p.jump_field(true, RSI, 0x84)).put(seq![0xc3]).bytes
    }
}

/// Makes a frame on the machine's stack, puts the argument into its first slot and calls what
/// follows.
pub open spec fn glue_bytes(target: Tgt, frame: u32) -> Seq<u8> {
    if target.arm64() {
        Piece::empty().word(imm9(STR_X_PRE, 0x1f0, SP, 30)).word(
            imm12(SUB_X_IMM, frame, SP, SP),
        ).word(imm12(STR_X_UIMM, 0, SP, 0)).word(imm12(ADD_X_IMM, 0, SP, 0)).word(
            with_26(BL, 4),
        ).word(imm12(ADD_X_IMM, frame, SP, SP)).word(imm9(LDR_X_POST, 16, SP, 30)).word(
            RET_X30,
        ).bytes
    } else {
        Piece::empty().put(seq![0x55]).put(alu_bytes(5, RSP, frame)).put(
            mem_bytes(op_bytes(false, 0x89), true, RDI, RSP, 0),
        ).put(regs_bytes(0x89, RSP, RDI)).put(seq![0xe8]).put(le32(9)).put(
            alu_bytes(0, RSP, frame),
        ).put(seq![0x5d]).put(seq![0xc3]).bytes
    }
}

/// Puts the four C arguments into the frame that the state record names and calls what follows.
pub open spec fn entry_bytes(target: Tgt) -> Seq<u8> {
    if target.arm64() {
        Piece::empty().word(imm9(STR_X_PRE, 0x1f0, SP, 30)).word(
            imm12(LDR_X_UIMM, E_FRAME / 8, 0, 4),
        ).word(imm12(STR_X_UIMM, 0, 4, 0)).word(imm12(STR_X_UIMM, 1, 4, 1)).word(
            imm12(STR_X_UIMM, 2, 4, 2),
        ).word(imm12(STR_X_UIMM, 3, 4, 3)).word(imm12(ADD_X_IMM, 0, 4, 0)).word(
            with_26(BL, 3),
        ).word(imm9(LDR_X_POST, 16, SP, 30)).word(RET_X30).bytes
    } else {
        Piece::empty().put(seq![0x55]).put(
            mem_bytes(op_bytes(false, 0x8b), true, RAX, RDI, E_FRAME),
        ).put(mem_bytes(op_bytes(false, 0x89), true, RDI, RAX, 0)).put(
            mem_bytes(op_bytes(false, 0x89), true, RSI, RAX, 8),
        ).put(mem_bytes(op_bytes(false, 0x89), true, RDX, RAX, 16)).put(
            mem_bytes(op_bytes(false, 0x89), true, RCX, RAX, 24),
        ).put(regs_bytes(0x89, RAX, RDI)).put(seq![0xe8]).put(le32(2)).put(seq![0x5d]).put(
            seq![0xc3],
        ).bytes
    }
}

fn env_stub_code(target: Tgt, at: u32) -> (r: Vec<u8>)
    ensures
        r@ == env_stub(target, at),
{
    if target.is_arm64() {
        let mut a: Asm = Asm::new();
        a.ldr(1, 0, at);
        let done: Patch = a.cbz_x(1);
        a.add_imm(0, 0, ENV_FIELDS as u32);
        a.br_reg(1);
        a.here(done);
        a.ret();
        a.finish().0
    } else {
        let mut a: X86 = X86::new();
        a.ldr(RSI, RDI, at);
        let done: Patch32 = a.cbz_x(RSI);
        a.add_imm(RDI, ENV_FIELDS as u32);
        a.jmp_reg(RSI);
        a.here(done);
        a.ret();
        a.finish().0
    }
}

fn glue_code(target: Tgt, frame: u32) -> (r: Vec<u8>)
    ensures
        r@ == glue_bytes(target, frame),
{
    if target.is_arm64() {
        let mut a: Asm = Asm::new();
        a.str_pre16(30, SP);
        a.sub_imm(SP, SP, frame);
        a.str_off(0, SP, 0);
        a.add_imm(0, SP, 0);
        a.bl_words(4);
        a.add_imm(SP, SP, frame);
        a.ldr_post16(30, SP);
        a.ret();
        a.finish().0
    } else {
        let mut a: X86 = X86::new();
        a.push_rbp();
        a.sub_imm(RSP, frame);
        a.str_off(RDI, RSP, 0);
        a.mov_reg(RDI, RSP);
        a.call_ahead(9);
        a.add_imm(RSP, frame);
        a.pop_rbp();
        a.ret();
        a.finish().0
    }
}

fn entry_code(target: Tgt) -> (r: Vec<u8>)
    ensures
        r@ == entry_bytes(target),
{
    if target.is_arm64() {
        let mut a: Asm = Asm::new();
        a.str_pre16(30, SP);
        a.ldr(4, 0, E_FRAME);
        a.str_off(0, 4, 0);
        a.str_off(1, 4, 8);
        a.str_off(2, 4, 16);
        a.str_off(3, 4, 24);
        a.add_imm(0, 4, 0);
        a.bl_words(3);
        a.ldr_post16(30, SP);
        a.ret();
        a.finish().0
    } else {
        let mut a: X86 = X86::new();
        a.push_rbp();
        a.ldr(RAX, RDI, E_FRAME);
        a.str_off(RDI, RAX, 0);
        a.str_off(RSI, RAX, 8);
        a.str_off(RDX, RAX, 16);
        a.str_off(RCX, RAX, 24);
        a.mov_reg(RDI, RAX);
        a.call_ahead(2);
        a.pop_rbp();
        a.ret();
        a.finish().0
    }
}

/// A call inside a stub lands exactly on the body behind it, which is where the stub ends. On A64 it
/// is given the words from itself to there: four in a glue stub and three in an entry stub. On x86-64
/// it is given the bytes from its own end: nine and two.
pub proof fn a_stub_calls_what_follows(target: Tgt, frame: u32)
    ensures
        ({
            let b = glue_bytes(target, frame);
            if target.arm64() {
                let at = b.len() - 4 * 4;
                at >= 0 && b.subrange(at, at + 4) == le32(with_26(BL, 4))
            } else {
                let at = b.len() - 9 - 5;
                at >= 0 && b[at] == 0xe8 && b.subrange(at + 1, at + 5) == le32(9)
            }
        }),
        ({
            let b = entry_bytes(target);
            if target.arm64() {
                let at = b.len() - 3 * 4;
                at >= 0 && b.subrange(at, at + 4) == le32(with_26(BL, 3))
            } else {
                let at = b.len() - 2 - 5;
                at >= 0 && b[at] == 0xe8 && b.subrange(at + 1, at + 5) == le32(2)
            }
        }),
{
    let b = glue_bytes(target, frame);
    let c = entry_bytes(target);
    if target.arm64() {
        assert(b.subrange(b.len() - 16, b.len() - 12) =~= le32(with_26(BL, 4)));
        assert(c.subrange(c.len() - 12, c.len() - 8) =~= le32(with_26(BL, 3)));
    } else {
        assert(b.subrange(b.len() - 13, b.len() - 9) =~= le32(9));
        assert(c.subrange(c.len() - 6, c.len() - 2) =~= le32(2));
    }
}

// ---------------------------------------------------------------------------
// The bodies
// ---------------------------------------------------------------------------

/// The frame of a walk over a value of `size` bytes.
pub open spec fn glue_size(size: nat) -> nat {
    round16(G_VALUE as nat + round8(size) + SCRATCH_BYTES as nat)
}

/// The wider of two widths.
pub open spec fn wider(a: u32, b: u32) -> u32 {
    if a < b {
        b
    } else {
        a
    }
}

/// The bytes that the first `n` values of some types take in a frame.
pub open spec fn frame_bytes(e: Env, ts: Seq<Type>, n: int) -> nat
    decreases n,
{
    if n <= 0 {
        0
    } else {
        frame_bytes(e, ts, n - 1) + e.slot_bytes(ts[n - 1]) as nat
    }
}

/// The bytes that the first `n` values of some source types take in a frame.
pub open spec fn source_bytes(e: Env, ts: Seq<usize>, n: int) -> nat
    decreases n,
{
    if n <= 0 {
        0
    } else {
        source_bytes(e, ts, n - 1) + slot_of(e.layout(ts[n - 1]).size) as nat
    }
}

/// A thunk's frame: the results, the environment word, and the arguments.
pub struct ThunkFrame {
    /// How many leading parameters of the callee are the environment.
    pub skip: nat,
    pub env_at: nat,
    pub scratch: nat,
    pub frame: nat,
}

/// The frame of a thunk over `f` for a closure type of `args` parameters.
pub open spec fn thunk_frame(e: Env, f: Func, args: usize) -> ThunkFrame {
    let skip = if f.params.len() >= args {
        (f.params.len() - args) as nat
    } else {
        0
    };
    let env_at = frame_bytes(e, f.rets@, f.rets.len() as int);
    let tail = f.params@.subrange(skip as int, f.params.len() as int);
    let scratch = env_at + 8 + frame_bytes(e, tail, tail.len() as int);
    ThunkFrame { skip, env_at, scratch, frame: round16(scratch + SCRATCH_BYTES as nat) }
}

/// Where argument `j` of a thunk is.
pub open spec fn thunk_arg(e: Env, f: Func, t: ThunkFrame, j: int) -> nat {
    let tail = f.params@.subrange(t.skip as int, f.params.len() as int);
    t.env_at + 8 + frame_bytes(e, tail, j - t.skip)
}

/// The source type of a value that owns a counted block.
pub open spec fn owned_type(e: Env, t: Type) -> Option<usize> {
    match t {
        Type::Agg(id) => if e.owns(id) {
            Some(id)
        } else {
            None
        },
        _ => None,
    }
}

/// The frame of an entry thunk for these parameters: where its scratch starts, and where it ends.
pub open spec fn entry_scratch(e: Env, params: Seq<usize>) -> nat {
    E_ELEM as nat + slot_of(e.layout(params.last()).size) as nat
}

impl Sel {
    /// The refusal of a frame that is too wide.
    pub open spec fn refuse_frame(self, frame: nat) -> Sel {
        self.unsupported(
            "a value needing "@ + decimal(frame)
                + " bytes of drop glue frame, past what one `sub sp` immediate names"@,
        ).ret()
    }

    /// A loop's test.
    pub open spec fn glue_loop_test(self, e: Env, tv: V, fv: V, fall: H) -> Sel {
        self.test_b(e.arm("brcmp/lt/u64/ff"@, fall), G_INDEX, G_COUNT, tv, fv)
    }

    /// The walk over one value: the drop, or the retain.
    pub open spec fn walk_glue(self, e: Env, ty: usize, retain: bool) -> Sel {
        let size = wider(e.layout(ty).size, 8);
        let frame = glue_size(size as nat);
        if frame > MAX_GLUE_FRAME {
            self.refuse_frame(frame)
        } else {
            self.add(Item::Raw(glue_bytes(e.target, frame as u32))).imm_to(G_INDEX, 0).elem_load(
                e,
                G_VALUE,
                G_PTR,
                G_INDEX,
                8,
                size as u64,
            ).walk(e, ty, G_VALUE, retain).ret()
        }
    }

    /// The copy of one value, which goes back where it came from.
    pub open spec fn copy_glue(self, e: Env, ty: usize) -> Sel {
        let size = wider(e.layout(ty).size, 8);
        let frame = glue_size(size as nat);
        if frame > MAX_GLUE_FRAME {
            self.refuse_frame(frame)
        } else {
            self.add(Item::Raw(glue_bytes(e.target, frame as u32))).imm_to(G_INDEX, 0).elem_load(
                e,
                G_VALUE,
                G_PTR,
                G_INDEX,
                8,
                size as u64,
            ).add(Item::CopyWalk { ty, at: G_VALUE }).imm_to(G_INDEX, 0).elem_store(
                e,
                G_VALUE,
                G_PTR,
                G_INDEX,
                8,
                size as u64,
            ).ret()
        }
    }

    /// How many elements a list block holds: its capacity, without the shared mark, by the stride.
    pub open spec fn count_elems(self, e: Env, stride: u64) -> Sel {
        self.dak("bin/sub/u64/fi/f"@, G_SPARE, G_PTR, 8).imm_to(G_INDEX, 0).elem_load(
            e,
            G_COUNT,
            G_SPARE,
            G_INDEX,
            8,
            8,
        ).dak("bin/and/u64/fi/f"@, G_COUNT, G_COUNT, CAP_MASK).dak(
            "bin/div/u64/fi/f"@,
            G_COUNT,
            G_COUNT,
            stride,
        )
    }

    /// The walk over every element of a list block, or the copy of each.
    pub open spec fn elems_glue(self, e: Env, ty: usize, copy: bool) -> Sel {
        let size = wider(e.layout(ty).size, 1);
        let stride = wider(e.layout(ty).stride, 1) as u64;
        let frame = glue_size(size as nat);
        if frame > MAX_GLUE_FRAME {
            self.refuse_frame(frame)
        } else {
            let head = self.add(Item::Raw(glue_bytes(e.target, frame as u32))).count_elems(
                e,
                stride,
            );
            let body = head.next();
            let done = head.fresh().next();
            let each = head.fresh().fresh().glue_loop_test(e, V::Fall, V::Blk(done), H::T).place(
                body,
            ).elem_load(e, G_VALUE, G_PTR, G_INDEX, stride, size as u64);
            let walked = if copy {
                each.add(Item::CopyWalk { ty, at: G_VALUE }).elem_store(
                    e,
                    G_VALUE,
                    G_PTR,
                    G_INDEX,
                    stride,
                    size as u64,
                )
            } else {
                each.walk(e, ty, G_VALUE, false)
            };
            walked.dak("bin/add/u64/fi/f"@, G_INDEX, G_INDEX, 1).glue_loop_test(
                e,
                V::Blk(body),
                V::Fall,
                H::F,
            ).place(done).ret()
        }
    }

    /// The environment of a thunk's closure, out of its block and into the callee's first parameter;
    /// a callee that owns it gets a count of its own.
    pub open spec fn thunk_env(self, e: Env, f: Func, callee: FrameSig, t: ThunkFrame, boxed: bool) -> Sel {
        let w = e.width(f.params[0]);
        let to = (t.frame + at_or(callee.params@, 0, 0u32)) as u64;
        let loaded = if w > 0 && boxed {
            self.imm_to(t.scratch as u64, 1).elem_load(
                e,
                to,
                t.env_at as u64,
                t.scratch as u64,
                ENV_FIELDS,
                w as u64,
            )
        } else {
            self
        };
        if boxed && f.owned.len() > 0 && f.owned[0] == Ownership::Own {
            match owned_type(e, f.params[0]) {
                Some(ty) => loaded.walk(e, ty, to, true),
                None => loaded,
            }
        } else {
            loaded
        }
    }

    /// The arguments of a thunk, from argument `j` on.
    pub open spec fn thunk_args(self, e: Env, f: Func, callee: FrameSig, t: ThunkFrame, j: int) -> Sel
        decreases f.params.len() - j,
    {
        if j >= f.params.len() {
            self
        } else {
            let next = if j < callee.params.len() {
                self.mv(
                    (t.frame + callee.params[j]) as u64,
                    thunk_arg(e, f, t, j) as u64,
                    e.slot_bytes(f.params[j]),
                )
            } else {
                self
            };
            next.thunk_args(e, f, callee, t, j + 1)
        }
    }

    /// The results of a thunk, from result `i` on.
    pub open spec fn thunk_rets(self, e: Env, f: Func, callee: FrameSig, t: ThunkFrame, i: int) -> Sel
        decreases f.rets.len() - i,
    {
        if i >= f.rets.len() {
            self
        } else {
            let next = if i < callee.ret.len() {
                self.mv(
                    frame_bytes(e, f.rets@, i) as u64,
                    (t.frame + callee.ret[i]) as u64,
                    e.slot_bytes(f.rets[i]),
                )
            } else {
                self
            };
            next.thunk_rets(e, f, callee, t, i + 1)
        }
    }

    /// The release of the arguments that the callee only borrows, from argument `j` on.
    pub open spec fn thunk_release(
        self,
        e: Env,
        f: Func,
        callee: FrameSig,
        t: ThunkFrame,
        j: int,
    ) -> Sel
        decreases f.params.len() - j,
    {
        if j >= f.params.len() {
            self
        } else {
            let lent = j < callee.params.len() && j < f.owned.len() && f.owned[j]
                == Ownership::Borrow;
            let next = match owned_type(e, f.params[j]) {
                Some(ty) => if lent {
                    self.walk(e, ty, thunk_arg(e, f, t, j) as u64, false)
                } else {
                    self
                },
                None => self,
            };
            next.thunk_release(e, f, callee, t, j + 1)
        }
    }

    /// The code of a closure over a function.
    pub open spec fn thunk(self, e: Env, func: usize, args: usize, boxed: bool) -> Sel {
        if func >= e.prog.funcs.len() {
            self.unsupported(
                "a closure over function "@ + decimal(func as nat) + ", which is not in the program"@,
            ).ret()
        } else {
            let f = e.prog.funcs[func as int];
            let t = thunk_frame(e, f, args);
            let callee = e.frame_of(func);
            if t.frame > u32::MAX {
                self.unsupported(
                    "a closure over function "@ + decimal(func as nat)
                        + ", whose frame is past what an offset names"@,
                ).ret()
            } else {
                let entered = if t.skip > 0 {
                    self.thunk_env(e, f, callee, t, boxed)
                } else {
                    self
                };
                entered.thunk_args(e, f, callee, t, t.skip as int).call_fn(
                    t.frame as u64,
                    func,
                ).thunk_rets(e, f, callee, t, 0).thunk_release(e, f, callee, t, t.skip as int).ret()
            }
        }
    }

    /// The context arguments of a step, out of the state record, from parameter `i` on.
    pub open spec fn entry_contexts(
        self,
        e: Env,
        params: Seq<usize>,
        widths: Seq<u32>,
        index: Option<usize>,
        base: nat,
        i: int,
    ) -> Sel
        decreases params.len() - i,
    {
        if i >= params.len() {
            self
        } else {
            let next = if is_context(params.len(), index, i) && widths[i] > 0 {
                self.dak(
                    "bin/add/u64/fi/f"@,
                    E_CTXP,
                    E_STATE,
                    state_end(widths, index, i) as u64,
                ).elem_load(
                    e,
                    (base + source_bytes(e, params, i)) as u64,
                    E_CTXP,
                    E_ZERO,
                    8,
                    widths[i] as u64,
                )
            } else {
                self
            };
            next.entry_contexts(e, params, widths, index, base, i + 1)
        }
    }

    /// The element of a step, with a count of its own.
    pub open spec fn entry_element(self, e: Env, elem: usize, to: u64) -> Sel {
        let size = e.layout(elem).size;
        if size == 0 {
            self
        } else {
            let loaded = self.elem_load(e, E_ELEM, E_ARG, E_ZERO, 8, size as u64);
            let kept = if e.owns(elem) {
                loaded.walk(e, elem, E_ELEM, true)
            } else {
                loaded
            };
            kept.mv(to, E_ELEM, slot_of(size))
        }
    }

    /// One step of a call that the runtime drives.
    pub open spec fn entry_thunk(self, e: Env, fty: usize, index: Option<usize>) -> Sel {
        match e.prog.tables.at(fty as int).shape {
            Shape::Fn { params, ret } => if params@.len() == 0 {
                self.unsupported("a runtime-driven step taking no argument"@).ret()
            } else {
                let n = params@.len() as int;
                let frame = round16(entry_scratch(e, params@) + SCRATCH_BYTES as nat);
                let ret_slot = slot_of(e.layout(ret).size) as nat;
                let base = frame + ret_slot + 8;
                let widths = Seq::new(params@.len(), |i: int| e.layout(params@[i]).size);
                let end = base + source_bytes(e, params@, n);
                if end > u32::MAX || state_end(widths, index, n) > u32::MAX {
                    self.unsupported(
                        "a runtime-driven step whose frame is past what an offset names"@,
                    ).ret()
                } else {
                    let start = self.add(Item::Raw(entry_bytes(e.target))).imm_to(
                        E_ZERO,
                        0,
                    ).elem_load(e, E_CLOS, E_STATE, E_ZERO, 8, 16);
                    let counted = match index {
                        Some(i) => if i < n {
                            start.mv(
                                (base + source_bytes(e, params@, i as int)) as u64,
                                E_INDEX,
                                8,
                            )
                        } else {
                            start
                        },
                        None => start,
                    };
                    let ready = counted.entry_contexts(
                        e,
                        params@,
                        widths,
                        index,
                        base,
                        0,
                    ).entry_element(
                        e,
                        params@[n - 1],
                        (base + source_bytes(e, params@, n - 1)) as u64,
                    ).mv((frame + ret_slot) as u64, (E_CLOS + ENV_WORD) as u64, 8).call_ptr(
                        E_CLOS,
                        frame as u64,
                    );
                    let answered = if e.layout(ret).size > 0 {
                        ready.elem_store(
                            e,
                            frame as u64,
                            E_OUT,
                            E_ZERO,
                            8,
                            e.layout(ret).size as u64,
                        )
                    } else {
                        ready
                    };
                    answered.ret()
                }
            },
            _ => self.unsupported("a runtime-driven step taking no argument"@).ret(),
        }
    }
}

fn at_least(a: u32, b: u32) -> (r: u32)
    ensures
        r == wider(a, b),
{
    if a < b {
        b
    } else {
        a
    }
}

/// The frame of a walk over a value of `size` bytes.
fn glue_frame_size(size: u32) -> (r: u64)
    ensures
        r == glue_size(size as nat),
        r <= 0x2_0000_0000,
{
    let slot: u64 = (size as u64 + 7) / 8 * 8;
    (G_VALUE + slot + SCRATCH_BYTES as u64 + 15) / 16 * 16
}

proof fn lemma_frame_grows(e: Env, ts: Seq<Type>, i: int, n: int)
    requires
        i <= n,
    ensures
        frame_bytes(e, ts, i) <= frame_bytes(e, ts, n),
    decreases n - i,
{
    if i < n {
        lemma_frame_grows(e, ts, i, n - 1);
    }
}

proof fn lemma_source_grows(e: Env, ts: Seq<usize>, i: int, n: int)
    requires
        i <= n,
    ensures
        source_bytes(e, ts, i) <= source_bytes(e, ts, n),
    decreases n - i,
{
    if i < n {
        lemma_source_grows(e, ts, i, n - 1);
    }
}

impl<'a> Emit<'a> {
    fn refuse_frame(&mut self, frame: u64)
        ensures
            final(self)@ == old(self)@.refuse_frame(frame as nat),
            final(self).env() == old(self).env(),
    {
        let n: String = decimal_of(frame);
        let why: String = join3(
            "a value needing ",
            n.as_str(),
            " bytes of drop glue frame, past what one `sub sp` immediate names",
        );
        self.unsupported(why);
        self.ret();
    }

    fn glue_loop_test(&mut self, tv: V, fv: V, fall: H)
        ensures
            final(self)@ == old(self)@.glue_loop_test(old(self).env(), tv, fv, fall),
            final(self).env() == old(self).env(),
    {
        let key: String = self.arm_key("brcmp/lt/u64/ff", fall);
        self.test_b(key.as_str(), G_INDEX, G_COUNT, tv, fv);
    }

    /// The walk over one value of a type: the drop, or the retain.
    pub fn walk_glue(&mut self, ty: usize, retain: bool)
        ensures
            final(self)@ == old(self)@.walk_glue(old(self).env(), ty, retain),
            final(self).env() == old(self).env(),
    {
        let size: u32 = at_least(self.layout(ty).size, 8);
        let frame: u64 = glue_frame_size(size);
        if frame > MAX_GLUE_FRAME {
            self.refuse_frame(frame);
            return;
        }
        let code: Vec<u8> = glue_code(self.target, frame as u32);
        self.add(Op::Raw(code));
        self.imm_to(G_INDEX, 0);
        self.elem_load(G_VALUE, G_PTR, G_INDEX, 8, size as u64);
        self.walk(ty, G_VALUE, retain);
        self.ret();
    }

    /// The copy of one value of a type.
    pub fn copy_glue(&mut self, ty: usize)
        ensures
            final(self)@ == old(self)@.copy_glue(old(self).env(), ty),
            final(self).env() == old(self).env(),
    {
        let size: u32 = at_least(self.layout(ty).size, 8);
        let frame: u64 = glue_frame_size(size);
        if frame > MAX_GLUE_FRAME {
            self.refuse_frame(frame);
            return;
        }
        let code: Vec<u8> = glue_code(self.target, frame as u32);
        self.add(Op::Raw(code));
        self.imm_to(G_INDEX, 0);
        self.elem_load(G_VALUE, G_PTR, G_INDEX, 8, size as u64);
        self.add(Op::CopyWalk { ty, at: G_VALUE });
        self.imm_to(G_INDEX, 0);
        self.elem_store(G_VALUE, G_PTR, G_INDEX, 8, size as u64);
        self.ret();
    }

    /// The walk over every element of a list block, or the copy of each.
    pub fn elems_glue(&mut self, ty: usize, copy: bool)
        ensures
            final(self)@ == old(self)@.elems_glue(old(self).env(), ty, copy),
            final(self).env() == old(self).env(),
    {
        let size: u32 = at_least(self.layout(ty).size, 1);
        let stride: u64 = at_least(self.layout(ty).stride, 1) as u64;
        let frame: u64 = glue_frame_size(size);
        if frame > MAX_GLUE_FRAME {
            self.refuse_frame(frame);
            return;
        }
        let code: Vec<u8> = glue_code(self.target, frame as u32);
        self.add(Op::Raw(code));
        self.dak("bin/sub/u64/fi/f", G_SPARE, G_PTR, 8);
        self.imm_to(G_INDEX, 0);
        self.elem_load(G_COUNT, G_SPARE, G_INDEX, 8, 8);
        self.dak("bin/and/u64/fi/f", G_COUNT, G_COUNT, CAP_MASK);
        self.dak("bin/div/u64/fi/f", G_COUNT, G_COUNT, stride);
        let body: usize = self.label();
        let done: usize = self.label();
        self.glue_loop_test(V::Fall, V::Blk(done), H::T);
        self.place(body);
        self.elem_load(G_VALUE, G_PTR, G_INDEX, stride, size as u64);
        if copy {
            self.add(Op::CopyWalk { ty, at: G_VALUE });
            self.elem_store(G_VALUE, G_PTR, G_INDEX, stride, size as u64);
        } else {
            self.walk(ty, G_VALUE, false);
        }
        self.dak("bin/add/u64/fi/f", G_INDEX, G_INDEX, 1);
        self.glue_loop_test(V::Blk(body), V::Fall, H::F);
        self.place(done);
        self.ret();
    }

    /// Calls the function in the word at `at` of a closure's environment block.
    pub fn env_glue(&mut self, at: u32)
        ensures
            final(self)@ == old(self)@.add(Item::Raw(env_stub(old(self).env().target, at))),
            final(self).env() == old(self).env(),
    {
        let code: Vec<u8> = env_stub_code(self.target, at);
        self.add(Op::Raw(code));
    }

    fn owned_type(&self, t: Type) -> (r: Option<usize>)
        ensures
            r == owned_type(self.env(), t),
    {
        match t {
            Type::Agg(id) => if self.rc_counted(id) {
                Some(id)
            } else {
                None
            },
            _ => None,
        }
    }

    /// The bytes that the first `n` values of some types take in a frame, from type `from` on.
    fn frame_bytes(&self, ts: &Vec<Type>, from: usize, n: usize) -> (r: u128)
        requires
            from <= n <= ts.len(),
        ensures
            r == frame_bytes(
                self.env(),
                ts@.subrange(from as int, ts.len() as int),
                n - from,
            ),
    {
        let ghost tail = ts@.subrange(from as int, ts.len() as int);
        let mut at: u128 = 0;
        let mut i: usize = from;
        while i < n
            invariant
                from <= i <= n <= ts.len(),
                tail == ts@.subrange(from as int, ts.len() as int),
                at == frame_bytes(self.env(), tail, i - from),
                at <= (i - from) * 0x1_0000_0000,
            decreases n - i,
        {
            assert(tail[i - from] == ts[i as int]);
            at = at + self.slot_bytes_of(ts[i]) as u128;
            i = i + 1;
        }
        at
    }

    fn thunk_env(
        &mut self,
        f: &Func,
        callee: &FrameSig,
        Ghost(t): Ghost<crate::glue::ThunkFrame>,
        env_at: u64,
        scratch: u64,
        frame: u64,
        boxed: bool,
    )
        requires
            f.params.len() > 0,
            env_at == t.env_at,
            scratch == t.scratch,
            frame == t.frame,
            frame <= u32::MAX,
        ensures
            final(self)@ == old(self)@.thunk_env(old(self).env(), *f, *callee, t, boxed),
            final(self).env() == old(self).env(),
    {
        let w: u32 = self.width_of(f.params[0]);
        let to: u64 = frame + ent(&callee.params, 0, 0) as u64;
        if w > 0 && boxed {
            self.imm_to(scratch, 1);
            self.elem_load(to, env_at, scratch, ENV_FIELDS, w as u64);
        }
        if boxed && f.owned.len() > 0 && f.owned[0] == Ownership::Own {
            match self.owned_type(f.params[0]) {
                Some(ty) => self.walk(ty, to, true),
                None => {},
            }
        }
    }

    /// The code of a closure over a function: the environment out of its block, the arguments
    /// across, the call, and the results back. An argument that the callee only borrows is released
    /// behind the call; the environment is retained for a callee that owns it.
    #[verifier::rlimit(40)]
    pub fn thunk(&mut self, func: usize, args: usize, boxed: bool)
        ensures
            final(self)@ == old(self)@.thunk(old(self).env(), func, args, boxed),
            final(self).env() == old(self).env(),
    {
        let prog: &'a Program = self.prog;
        if func >= prog.funcs.len() {
            let n: String = decimal_of(func as u64);
            let why: String = join3(
                "a closure over function ",
                n.as_str(),
                ", which is not in the program",
            );
            self.unsupported(why);
            self.ret();
            return;
        }
        let f: &'a Func = &prog.funcs[func];
        let ghost e = self.env();
        let ghost t = thunk_frame(e, *f, args);
        let skip: usize = if f.params.len() >= args {
            f.params.len() - args
        } else {
            0
        };
        let env_at: u128 = self.frame_bytes(&f.rets, 0, f.rets.len());
        assert(f.rets@.subrange(0, f.rets.len() as int) =~= f.rets@);
        let rest: u128 = self.frame_bytes(&f.params, skip, f.params.len());
        proof {
            lemma_bytes_bound(e, f.rets@, f.rets.len() as int);
            lemma_bytes_bound(
                e,
                f.params@.subrange(skip as int, f.params.len() as int),
                f.params.len() - skip,
            );
        }
        let scratch: u128 = env_at + 8 + rest;
        let frame: u128 = (scratch + SCRATCH_BYTES as u128 + 15) / 16 * 16;
        if frame > 0xffff_ffff {
            let n: String = decimal_of(func as u64);
            let why: String = join3(
                "a closure over function ",
                n.as_str(),
                ", whose frame is past what an offset names",
            );
            self.unsupported(why);
            self.ret();
            return;
        }
        let callee: FrameSig = self.frame_sig_of(func);
        let ghost sig = e.frame_of(func);
        let base: u64 = frame as u64;
        if skip > 0 {
            self.thunk_env(
                f,
                &callee,
                Ghost(t),
                env_at as u64,
                scratch as u64,
                base,
                boxed,
            );
            proof {
                lemma_thunk_env(old(self)@, e, *f, callee, sig, t, boxed);
            }
        }
        let ghost entered = self@;
        let mut from: u64 = env_at as u64 + 8;
        let ghost tail = f.params@.subrange(skip as int, f.params.len() as int);
        let mut j: usize = skip;
        while j < f.params.len()
            invariant
                skip <= j <= f.params.len(),
                self.env() == e,
                t == thunk_frame(e, *f, args),
                t.skip == skip,
                t.env_at == env_at,
                t.scratch == scratch,
                t.frame == base,
                base <= 0xffff_ffff,
                scratch <= base,
                tail == f.params@.subrange(skip as int, f.params.len() as int),
                from == thunk_arg(e, *f, t, j as int),
                scratch == env_at + 8 + frame_bytes(e, tail, f.params.len() - skip),
                callee.params@ == sig.params@,
                self@.thunk_args(e, *f, sig, t, j as int) == entered.thunk_args(
                    e,
                    *f,
                    sig,
                    t,
                    skip as int,
                ),
            decreases f.params.len() - j,
        {
            assert(tail[j - skip] == f.params[j as int]);
            proof {
                lemma_frame_grows(e, tail, j - skip + 1, f.params.len() - skip);
            }
            let n: u64 = self.slot_bytes_of(f.params[j]);
            if j < callee.params.len() {
                self.mv(base + callee.params[j] as u64, from, n);
            }
            from = from + n;
            j = j + 1;
        }
        self.call_fn(base, func);
        let ghost called = self@;
        let mut to: u64 = 0;
        let mut i: usize = 0;
        while i < f.rets.len()
            invariant
                i <= f.rets.len(),
                self.env() == e,
                t.frame == base,
                base <= 0xffff_ffff,
                env_at <= base,
                env_at == frame_bytes(e, f.rets@, f.rets.len() as int),
                to == frame_bytes(e, f.rets@, i as int),
                callee.ret@ == sig.ret@,
                self@.thunk_rets(e, *f, sig, t, i as int) == called.thunk_rets(e, *f, sig, t, 0),
            decreases f.rets.len() - i,
        {
            proof {
                lemma_frame_grows(e, f.rets@, i as int + 1, f.rets.len() as int);
            }
            let n: u64 = self.slot_bytes_of(f.rets[i]);
            if i < callee.ret.len() {
                self.mv(to, base + callee.ret[i] as u64, n);
            }
            to = to + n;
            i = i + 1;
        }
        let ghost answered = self@;
        let mut at: u64 = env_at as u64 + 8;
        let mut k: usize = skip;
        while k < f.params.len()
            invariant
                skip <= k <= f.params.len(),
                self.env() == e,
                t == thunk_frame(e, *f, args),
                t.skip == skip,
                t.env_at == env_at,
                base <= 0xffff_ffff,
                scratch <= base,
                tail == f.params@.subrange(skip as int, f.params.len() as int),
                at == thunk_arg(e, *f, t, k as int),
                scratch == env_at + 8 + frame_bytes(e, tail, f.params.len() - skip),
                callee.params@ == sig.params@,
                self@.thunk_release(e, *f, sig, t, k as int) == answered.thunk_release(
                    e,
                    *f,
                    sig,
                    t,
                    skip as int,
                ),
            decreases f.params.len() - k,
        {
            assert(tail[k - skip] == f.params[k as int]);
            proof {
                lemma_frame_grows(e, tail, k - skip + 1, f.params.len() - skip);
            }
            if k < callee.params.len() && k < f.owned.len() && f.owned[k] == Ownership::Borrow {
                match self.owned_type(f.params[k]) {
                    Some(ty) => self.walk(ty, at, false),
                    None => {},
                }
            }
            at = at + self.slot_bytes_of(f.params[k]);
            k = k + 1;
        }
        self.ret();
    }
}

proof fn lemma_bytes_bound(e: Env, ts: Seq<Type>, n: int)
    requires
        0 <= n <= ts.len(),
    ensures
        frame_bytes(e, ts, n) <= n * 0x1_0000_0000,
    decreases n,
{
    if n > 0 {
        lemma_bytes_bound(e, ts, n - 1);
    }
}

/// What a thunk does with an environment depends on the callee's parameter offsets alone.
proof fn lemma_thunk_env(
    s: Sel,
    e: Env,
    f: Func,
    a: FrameSig,
    b: FrameSig,
    t: ThunkFrame,
    boxed: bool,
)
    requires
        a.params@ == b.params@,
    ensures
        s.thunk_env(e, f, a, t, boxed) == s.thunk_env(e, f, b, t, boxed),
{
}

proof fn lemma_source_bound(e: Env, ts: Seq<usize>, n: int)
    requires
        0 <= n <= ts.len(),
    ensures
        source_bytes(e, ts, n) <= n * 0x1_0000_0000,
    decreases n,
{
    if n > 0 {
        lemma_source_bound(e, ts, n - 1);
    }
}

proof fn lemma_state_bound(widths: Seq<u32>, index: Option<usize>, n: int)
    requires
        0 <= n <= widths.len(),
    ensures
        state_end(widths, index, n) <= 24 + n * 0x1_0000_0007,
    decreases n,
{
    if n > 0 {
        lemma_state_bound(widths, index, n - 1);
    }
}

fn context(n: usize, index: Option<usize>, i: usize) -> (r: bool)
    requires
        i < n,
    ensures
        r == is_context(n as nat, index, i as int),
{
    let skip: bool = match index {
        Some(k) => k == i,
        None => false,
    };
    i < n - 1 && !skip
}

impl<'a> Emit<'a> {
    fn source_bytes(&self, ts: &Vec<usize>) -> (r: u128)
        ensures
            r == source_bytes(self.env(), ts@, ts.len() as int),
    {
        let mut at: u128 = 0;
        let mut i: usize = 0;
        while i < ts.len()
            invariant
                i <= ts.len(),
                at == source_bytes(self.env(), ts@, i as int),
                at <= i * 0x1_0000_0000,
            decreases ts.len() - i,
        {
            at = at + slot_of_width(self.layout(ts[i]).size) as u128;
            i = i + 1;
        }
        at
    }

    fn widths(&self, ts: &Vec<usize>) -> (r: Vec<u32>)
        ensures
            r@ == Seq::new(ts@.len(), |i: int| self.env().layout(ts@[i]).size),
    {
        let mut out: Vec<u32> = Vec::new();
        let mut i: usize = 0;
        while i < ts.len()
            invariant
                i <= ts.len(),
                out.len() == i,
                forall|k: int| 0 <= k < i ==> #[trigger] out[k] == self.env().layout(ts@[k]).size,
            decreases ts.len() - i,
        {
            out.push(self.layout(ts[i]).size);
            i = i + 1;
        }
        assert(out@ =~= Seq::new(ts@.len(), |i: int| self.env().layout(ts@[i]).size));
        out
    }

    fn state_end(&self, widths: &Vec<u32>, index: Option<usize>) -> (r: u128)
        ensures
            r == state_end(widths@, index, widths.len() as int),
    {
        let mut at: u128 = E_CTX as u128;
        let mut i: usize = 0;
        while i < widths.len()
            invariant
                i <= widths.len(),
                at == state_end(widths@, index, i as int),
                at <= 24 + i * 0x1_0000_0007,
            decreases widths.len() - i,
        {
            if context(widths.len(), index, i) {
                at = at + (widths[i] as u128 + 7) / 8 * 8;
            }
            i = i + 1;
        }
        at
    }

    /// The context arguments of a step, out of the state record.
    fn entry_contexts(
        &mut self,
        params: &Vec<usize>,
        widths: &Vec<u32>,
        index: Option<usize>,
        base: u64,
    )
        requires
            widths.len() == params.len(),
            base + source_bytes(old(self).env(), params@, params.len() as int) <= u32::MAX,
            state_end(widths@, index, widths.len() as int) <= u32::MAX,
            widths@ == Seq::new(params@.len(), |i: int| old(self).env().layout(params@[i]).size),
        ensures
            final(self)@ == old(self)@.entry_contexts(
                old(self).env(),
                params@,
                widths@,
                index,
                base as nat,
                0,
            ),
            final(self).env() == old(self).env(),
    {
        let ghost e = self.env();
        let n: usize = params.len();
        let mut to: u64 = base;
        let mut off: u64 = E_CTX as u64;
        let mut i: usize = 0;
        while i < n
            invariant
                i <= n,
                n == params.len(),
                widths.len() == n,
                e == old(self).env(),
                self.env() == e,
                to == base + source_bytes(e, params@, i as int),
                off == state_end(widths@, index, i as int),
                base + source_bytes(e, params@, n as int) <= u32::MAX,
                state_end(widths@, index, n as int) <= u32::MAX,
                widths@ == Seq::new(params@.len(), |i: int| e.layout(params@[i]).size),
                self@.entry_contexts(e, params@, widths@, index, base as nat, i as int) == old(
                    self,
                )@.entry_contexts(e, params@, widths@, index, base as nat, 0),
            decreases n - i,
        {
            proof {
                lemma_source_grows(e, params@, i as int + 1, n as int);
                lemma_state_grows(widths@, index, i as int + 1, n as int);
            }
            let w: u32 = widths[i];
            let here: bool = context(n, index, i);
            if here && w > 0 {
                self.dak("bin/add/u64/fi/f", E_CTXP, E_STATE, off);
                self.elem_load(to, E_CTXP, E_ZERO, 8, w as u64);
            }
            if here {
                off = off + (w as u64 + 7) / 8 * 8;
            }
            to = to + slot_of_width(w);
            i = i + 1;
        }
    }

    fn entry_element(&mut self, elem: usize, to: u64)
        ensures
            final(self)@ == old(self)@.entry_element(old(self).env(), elem, to),
            final(self).env() == old(self).env(),
    {
        let size: u32 = self.layout(elem).size;
        if size > 0 {
            self.elem_load(E_ELEM, E_ARG, E_ZERO, 8, size as u64);
            if self.rc_counted(elem) {
                self.walk(elem, E_ELEM, true);
            }
            self.mv(to, E_ELEM, slot_of_width(size));
        }
    }

    /// One step of a call that the runtime drives: the closure out of the state record, its
    /// arguments into its frame, the call, and the answer through the pointer the runtime handed
    /// over.
    pub fn entry_thunk(&mut self, fty: usize, index: Option<usize>)
        ensures
            final(self)@ == old(self)@.entry_thunk(old(self).env(), fty, index),
            final(self).env() == old(self).env(),
    {
        let prog: &'a Program = self.prog;
        let ghost e = self.env();
        match &prog.tables.info(fty).shape {
            Shape::Fn { params, ret } => {
                let n: usize = params.len();
                if n == 0 {
                    self.unsupported(own("a runtime-driven step taking no argument"));
                    self.ret();
                    return;
                }
                let elem: usize = params[n - 1];
                let elem_slot: u64 = slot_of_width(self.layout(elem).size);
                let scratch: u64 = E_ELEM + elem_slot;
                let frame: u64 = (scratch + SCRATCH_BYTES as u64 + 15) / 16 * 16;
                let ret_size: u32 = self.layout(*ret).size;
                let ret_slot: u64 = slot_of_width(ret_size);
                let base: u64 = frame + ret_slot + 8;
                let widths: Vec<u32> = self.widths(params);
                let bytes: u128 = self.source_bytes(params);
                let end: u128 = self.state_end(&widths, index);
                proof {
                    lemma_source_bound(e, params@, n as int);
                }
                if base as u128 + bytes > 0xffff_ffff || end > 0xffff_ffff {
                    self.unsupported(
                        own("a runtime-driven step whose frame is past what an offset names"),
                    );
                    self.ret();
                    return;
                }
                let code: Vec<u8> = entry_code(self.target);
                self.add(Op::Raw(code));
                self.imm_to(E_ZERO, 0);
                self.elem_load(E_CLOS, E_STATE, E_ZERO, 8, 16);
                let mut last: u64 = base;
                let mut i: usize = 0;
                let mut at: Option<u64> = None;
                while i < n
                    invariant
                        i <= n,
                        n == params.len(),
                        n > 0,
                        self.env() == e,
                        base + source_bytes(e, params@, n as int) <= u32::MAX,
                        last == base + source_bytes(
                            e,
                            params@,
                            if i == 0 {
                                0
                            } else {
                                i - 1
                            },
                        ),
                        at == (match index {
                            Some(k) => if k < i {
                                Some((base + source_bytes(e, params@, k as int)) as u64)
                            } else {
                                None
                            },
                            None => None,
                        }),
                    decreases n - i,
                {
                    proof {
                        lemma_source_grows(e, params@, i as int, n as int);
                    }
                    if i > 0 {
                        last = last + slot_of_width(self.layout(params[i - 1]).size);
                    }
                    match index {
                        Some(k) => {
                            if k == i {
                                at = Some(last);
                            }
                        },
                        None => {},
                    }
                    i = i + 1;
                }
                match at {
                    Some(to) => self.mv(to, E_INDEX, 8),
                    None => {},
                }
                self.entry_contexts(params, &widths, index, base);
                self.entry_element(elem, last);
                self.mv(frame + ret_slot, E_CLOS + ENV_WORD, 8);
                self.call_ptr(E_CLOS, frame);
                if ret_size > 0 {
                    self.elem_store(frame, E_OUT, E_ZERO, 8, ret_size as u64);
                }
                self.ret();
            },
            _ => {
                self.unsupported(own("a runtime-driven step taking no argument"));
                self.ret();
            },
        }
    }
}

// ---------------------------------------------------------------------------
// All of them
// ---------------------------------------------------------------------------

impl Sel {
    /// A generated function.
    pub open spec fn generate(self, e: Env, h: Helper) -> Sel {
        match h {
            Helper::Thunk { func, args, boxed } => self.thunk(e, func, args, boxed),
            Helper::Walk { ty, retain } => self.walk_glue(e, ty, retain),
            Helper::Elems { ty } => self.elems_glue(e, ty, false),
            Helper::Copy { ty } => self.copy_glue(e, ty),
            Helper::CopyElems { ty } => self.elems_glue(e, ty, true),
            Helper::EnvGlue => self.add(Item::Raw(env_stub(e.target, 0))),
            Helper::EnvCopy => self.add(Item::Raw(env_stub(e.target, ENV_COPY_WORD as u32))),
            Helper::Entry { fty, index } => self.entry_thunk(e, fty, index),
        }
    }
}

/// Where the scratch of a generated function starts, and how big its frame is.
pub open spec fn helper_frame(e: Env, h: Helper) -> (nat, nat) {
    match h {
        Helper::Thunk { func, args, boxed } => if func < e.prog.funcs.len() {
            let t = thunk_frame(e, e.prog.funcs[func as int], args);
            (t.scratch, t.frame)
        } else {
            (0, 0)
        },
        Helper::Walk { ty, retain } => value_frame(wider(e.layout(ty).size, 8)),
        Helper::Elems { ty } => value_frame(wider(e.layout(ty).size, 1)),
        Helper::Copy { ty } => value_frame(wider(e.layout(ty).size, 8)),
        Helper::CopyElems { ty } => value_frame(wider(e.layout(ty).size, 1)),
        Helper::EnvGlue => (0, 0),
        Helper::EnvCopy => (0, 0),
        Helper::Entry { fty, index } => match e.prog.tables.at(fty as int).shape {
            Shape::Fn { params, ret } => if params@.len() == 0 {
                (0, 0)
            } else {
                let scratch = entry_scratch(e, params@);
                (scratch, round16(scratch + SCRATCH_BYTES as nat))
            },
            _ => (0, 0),
        },
    }
}

/// The frame of a function over a value of `size` bytes.
pub open spec fn value_frame(size: u32) -> (nat, nat) {
    (G_VALUE as nat + round8(size as nat), glue_size(size as nat))
}

/// What a generated function is selected in: no values, no registers, and a scratch area behind the
/// slots it names.
pub open spec fn helper_env(e: Env, h: Helper) -> Env {
    let f = helper_frame(e, h);
    Env {
        side: Side {
            slot: Seq::empty(),
            reg: Seq::empty(),
            wt: Seq::empty(),
            constants: Seq::empty(),
            folded: Seq::empty(),
            closure_of: Seq::empty(),
        },
        frame: Fr {
            ret: Seq::empty(),
            ret_size: 0,
            params: Seq::empty(),
            param_end: f.0 as u32,
            size: f.1 as u32,
        },
        scratch: f.0 as u32,
        ..e
    }
}

/// The state of a body without values.
pub fn blank_state(frame: FrameSig, scratch: u32) -> (r: Fn2)
    ensures
        r.frame == frame,
        r.scratch == scratch,
        r.blk@.len() == 0,
        r.tables() == (Side {
            slot: Seq::empty(),
            reg: Seq::empty(),
            wt: Seq::empty(),
            constants: Seq::empty(),
            folded: Seq::empty(),
            closure_of: Seq::empty(),
        }),
{
    let r = Fn2 {
        slot: Vec::new(),
        blk: Vec::new(),
        frame,
        scratch,
        reg: Vec::new(),
        wt: Vec::new(),
        constants: Vec::new(),
        folded: Vec::new(),
        closure_of: Vec::new(),
    };
    assert(r.slot@ =~= Seq::empty());
    assert(r.reg@ =~= Seq::empty());
    assert(r.wt@ =~= Seq::empty());
    assert(r.constants@ =~= Seq::empty());
    assert(r.folded@ =~= Seq::empty());
    assert(r.closure_of@ =~= Seq::empty());
    r
}

impl<'a> Emit<'a> {
    /// A generated function.
    pub fn generate(&mut self, h: Helper)
        ensures
            final(self)@ == old(self)@.generate(old(self).env(), h),
            final(self).env() == old(self).env(),
    {
        match h {
            Helper::Thunk { func, args, boxed } => self.thunk(func, args, boxed),
            Helper::Walk { ty, retain } => self.walk_glue(ty, retain),
            Helper::Elems { ty } => self.elems_glue(ty, false),
            Helper::Copy { ty } => self.copy_glue(ty),
            Helper::CopyElems { ty } => self.elems_glue(ty, true),
            Helper::EnvGlue => self.env_glue(0),
            Helper::EnvCopy => self.env_glue(ENV_COPY_WORD as u32),
            Helper::Entry { fty, index } => self.entry_thunk(fty, index),
        }
    }

    fn value_frame(&self, size: u32) -> (r: (u128, u128))
        ensures
            (r.0 as nat, r.1 as nat) == value_frame(size),
    {
        let frame: u64 = glue_frame_size(size);
        ((G_VALUE + (size as u64 + 7) / 8 * 8) as u128, frame as u128)
    }

    fn helper_frame(&self, h: Helper) -> (r: (u128, u128))
        ensures
            (r.0 as nat, r.1 as nat) == helper_frame(self.env(), h),
    {
        let prog: &'a Program = self.prog;
        match h {
            Helper::Thunk { func, args, boxed } => {
                if func >= prog.funcs.len() {
                    return (0, 0);
                }
                let f: &Func = &prog.funcs[func];
                let skip: usize = if f.params.len() >= args {
                    f.params.len() - args
                } else {
                    0
                };
                let env_at: u128 = self.frame_bytes(&f.rets, 0, f.rets.len());
                assert(f.rets@.subrange(0, f.rets.len() as int) =~= f.rets@);
                let rest: u128 = self.frame_bytes(&f.params, skip, f.params.len());
                proof {
                    lemma_bytes_bound(self.env(), f.rets@, f.rets.len() as int);
                    lemma_bytes_bound(
                        self.env(),
                        f.params@.subrange(skip as int, f.params.len() as int),
                        f.params.len() - skip,
                    );
                }
                let scratch: u128 = env_at + 8 + rest;
                (scratch, (scratch + SCRATCH_BYTES as u128 + 15) / 16 * 16)
            },
            Helper::Walk { ty, retain } => self.value_frame(at_least(self.layout(ty).size, 8)),
            Helper::Elems { ty } => self.value_frame(at_least(self.layout(ty).size, 1)),
            Helper::Copy { ty } => self.value_frame(at_least(self.layout(ty).size, 8)),
            Helper::CopyElems { ty } => self.value_frame(at_least(self.layout(ty).size, 1)),
            Helper::EnvGlue => (0, 0),
            Helper::EnvCopy => (0, 0),
            Helper::Entry { fty, index } => match &prog.tables.info(fty).shape {
                Shape::Fn { params, ret } => {
                    if params.len() == 0 {
                        return (0, 0);
                    }
                    let slot: u64 = slot_of_width(self.layout(params[params.len() - 1]).size);
                    let scratch: u128 = E_ELEM as u128 + slot as u128;
                    (scratch, (scratch + SCRATCH_BYTES as u128 + 15) / 16 * 16)
                },
                _ => (0, 0),
            },
        }
    }

    /// Makes ready for a generated function.
    pub fn enter_helper(&mut self, h: Helper)
        ensures
            final(self).env() == helper_env(old(self).env(), h),
            final(self)@ == (Sel { labels: 0, ..old(self)@ }),
    {
        let (scratch, size): (u128, u128) = self.helper_frame(h);
        let frame = FrameSig {
            ret: Vec::new(),
            ret_size: 0,
            params: Vec::new(),
            param_end: scratch as u32,
            size: size as u32,
        };
        assert(frame.ret@ =~= Seq::empty());
        assert(frame.params@ =~= Seq::empty());
        self.st = blank_state(frame, scratch as u32);
    }
}

} // verus!
