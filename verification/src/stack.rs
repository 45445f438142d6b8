//! The machine stack of the entry points on x86-64.
//!
//! A C function is entered with the return address pushed, and wants the stack on a multiple of
//! sixteen wherever it calls. An entry point is written down here as a list of instructions, its
//! bytes are those of the list, and the list is walked along every path.

use crate::a64::Piece;
use crate::entry::{
    success_jump, tag_load_x86, x86_program, x86_suite, MainResult, GUARD_BYTES, PROT_NONE,
    STACK_SYMBOL, STACK_USABLE, STR_LEN_MASK,
};
use crate::x86::{
    alu_bytes, mem_bytes, mov_imm_bytes, op_bytes, regs_bytes, RAX, RDI, RDX, RSI, RSP,
};
use vstd::prelude::*;

verus! {

/// One instruction of an entry point.
pub enum Ins {
    /// `push rbp`.
    Push,
    /// `pop rbp`.
    Pop,
    Ret,
    Call(Seq<char>),
    /// The address of a symbol into a register.
    Lea(u32, Seq<char>),
    /// A number into a register.
    Imm(u32, u64),
    /// A number added to a register.
    Plus(u32, u32),
    /// A word of memory behind a register into another.
    Load(u32, u32, u32),
    /// A tag behind a register into another: offset and width.
    Tag(u32, u32, u32, u32),
    /// A register and another, bit by bit, into the second.
    And(u32, u32),
    /// A test of a register, and a jump on it.
    Jump(bool, u32, u8),
    /// Where the jump of the given number leads to.
    Land(nat),
}

/// The code of an instruction, behind the code so far; `fields` are those of the jumps so far.
pub open spec fn one_more(p: Piece, i: Ins, fields: Seq<u64>) -> Piece {
    match i {
        Ins::Push => p.put(seq![0x55]),
        Ins::Pop => p.put(seq![0x5d]),
        Ins::Ret => p.put(seq![0xc3]),
        Ins::Call(name) => p.call_symbol(name),
        Ins::Lea(rd, name) => p.lea_symbol(rd, name),
        Ins::Imm(rd, v) => p.put(mov_imm_bytes(rd, v)),
        Ins::Plus(rd, v) => p.put(alu_bytes(0, rd, v)),
        Ins::Load(rt, rn, off) => p.put(mem_bytes(op_bytes(false, 0x8b), true, rt, rn, off)),
        Ins::Tag(rt, rn, off, width) => p.put(tag_load_x86(rt, rn, off, width)),
        Ins::And(rs, rd) => p.put(regs_bytes(0x21, rs, rd)),
        Ins::Jump(wide, rt, cc) => p.test_jump(wide, rt, cc),
        Ins::Land(k) => p.land(fields[k as int]),
    }
}

/// The fields of the jumps, with that of one more instruction.
pub open spec fn more_fields(p: Piece, i: Ins, fields: Seq<u64>) -> Seq<u64> {
    match i {
        Ins::Jump(wide, rt, cc) => fields.push(p.jump_field(wide, rt, cc)),
        _ => fields,
    }
}

/// The code of a list of instructions, from instruction `i` on.
pub open spec fn code_of(p: Piece, is: Seq<Ins>, fields: Seq<u64>, i: int) -> Piece
    decreases is.len() - i,
{
    if i >= is.len() {
        p
    } else {
        code_of(one_more(p, is[i], fields), is, more_fields(p, is[i], fields), i + 1)
    }
}

/// The register that an instruction writes.
pub open spec fn writes(i: Ins) -> Option<u32> {
    match i {
        Ins::Lea(rd, _) => Some(rd),
        Ins::Imm(rd, _) => Some(rd),
        Ins::Plus(rd, _) => Some(rd),
        Ins::Load(rt, _, _) => Some(rt),
        Ins::Tag(rt, _, _, _) => Some(rt),
        Ins::And(_, rd) => Some(rd),
        _ => None,
    }
}

/// Whether the stack is right along every path from instruction `i` on. `h` is how much is on the
/// stack, where control gets there from before; `saved` is how much was at each jump. A call finds
/// the stack on a multiple of sixteen, a return finds the return address alone, and where a jump
/// leads there is as much as where it was made. No instruction but the push and the pop moves it.
pub open spec fn balanced(is: Seq<Ins>, h: Option<int>, saved: Seq<int>, i: int) -> bool
    decreases is.len() - i,
{
    if i >= is.len() {
        h is None
    } else {
        writes(is[i]) != Some(RSP) && match is[i] {
            Ins::Push => h is Some && balanced(is, Some(h->0 + 8), saved, i + 1),
            Ins::Pop => h is Some && balanced(is, Some(h->0 - 8), saved, i + 1),
            Ins::Ret => h == Some(8int) && balanced(is, None, saved, i + 1),
            Ins::Call(_) => h is Some && h->0 % 16 == 0 && balanced(is, h, saved, i + 1),
            Ins::Jump(_, _, _) => h is Some && balanced(is, h, saved.push(h->0), i + 1),
            Ins::Land(k) => k < saved.len() && (h is None || h == Some(saved[k as int]))
                && balanced(is, Some(saved[k as int]), saved, i + 1),
            _ => h is Some && balanced(is, h, saved, i + 1),
        }
    }
}

/// The start of either `main`.
pub open spec fn start() -> Seq<Ins> {
    seq![
        Ins::Push,
        Ins::Call("buri_rt_argv_init"@),
        Ins::Lea(RDI, STACK_SYMBOL@),
        Ins::Plus(RDI, STACK_USABLE as u32),
        Ins::Imm(RSI, GUARD_BYTES),
        Ins::Imm(RDX, PROT_NONE),
        Ins::Call("mprotect"@),
        Ins::Jump(false, RAX, 0x84),
        Ins::Call("abort"@),
        Ins::Land(0),
    ]
}

/// The end of either `main`.
pub open spec fn leave(status: u64) -> Seq<Ins> {
    seq![Ins::Call("buri_rt_flush"@), Ins::Imm(RAX, status), Ins::Pop, Ins::Ret]
}

/// What the test of an answer reads.
pub open spec fn load(r: MainResult) -> Ins {
    match r.niche {
        Some(null_at) => Ins::Load(RSI, RAX, null_at),
        None => Ins::Tag(RSI, RAX, r.tag.0, r.tag.1),
    }
}

/// The instructions of `main` for a program.
pub open spec fn program(callee: Seq<char>, result: Option<MainResult>) -> Seq<Ins> {
    let run = start() + seq![Ins::Lea(RDI, STACK_SYMBOL@), Ins::Call(callee)];
    match result {
        None => run + leave(0),
        Some(r) => run + seq![
            load(r),
            Ins::Jump(true, RSI, success_jump(r)),
            Ins::Load(RDX, RAX, r.message.2),
            Ins::Load(RSI, RAX, r.message.1),
            Ins::Load(RDI, RAX, r.message.0),
            Ins::Imm(RAX, STR_LEN_MASK),
            Ins::And(RAX, RDX),
            Ins::Call("buri_rt_host_stderr_eprintln"@),
        ] + leave(1) + seq![Ins::Land(1)] + leave(0),
    }
}

/// The instructions of one test: the `k`th jump of the code is its own.
pub open spec fn test(i: u64, symbol: Seq<char>, k: nat) -> Seq<Ins> {
    seq![
        Ins::Imm(RDI, i),
        Ins::Call("buri_rt_test_enter"@),
        Ins::Jump(false, RAX, 0x84),
        Ins::Lea(RDI, STACK_SYMBOL@),
        Ins::Call(symbol),
        Ins::Land(k),
    ]
}

/// The instructions of the tests from test `i` on.
pub open spec fn cases(tests: Seq<Seq<char>>, i: int) -> Seq<Ins>
    decreases tests.len() - i,
{
    if i >= tests.len() {
        Seq::empty()
    } else {
        test(i as u64, tests[i], (i + 1) as nat) + cases(tests, i + 1)
    }
}

/// The instructions of `main` for a suite.
pub open spec fn suite(tests: Seq<Seq<char>>) -> Seq<Ins> {
    start() + cases(tests, 0) + leave(0)
}

/// The code of a second part of a list depends on that part alone.
proof fn lemma_code_tail(p: Piece, a: Seq<Ins>, b: Seq<Ins>, fields: Seq<u64>, i: int)
    requires
        0 <= i,
    ensures
        code_of(p, a + b, fields, a.len() + i) == code_of(p, b, fields, i),
    decreases b.len() - i,
{
    if i < b.len() {
        assert((a + b)[a.len() + i] == b[i]);
        lemma_code_tail(one_more(p, b[i], fields), a, b, more_fields(p, b[i], fields), i + 1);
    }
}

/// Whether the stack is right in a second part of a list depends on that part alone.
proof fn lemma_balanced_tail(a: Seq<Ins>, b: Seq<Ins>, h: Option<int>, saved: Seq<int>, i: int)
    requires
        0 <= i,
    ensures
        balanced(a + b, h, saved, a.len() + i) == balanced(b, h, saved, i),
    decreases b.len() - i,
{
    if i < b.len() {
        assert((a + b)[a.len() + i] == b[i]);
        let n = match b[i] {
            Ins::Push => Some(h->0 + 8),
            Ins::Pop => Some(h->0 - 8),
            Ins::Ret => None,
            Ins::Land(k) => Some(saved[k as int]),
            _ => h,
        };
        let s = match b[i] {
            Ins::Jump(_, _, _) => saved.push(h->0),
            _ => saved,
        };
        lemma_balanced_tail(a, b, n, s, i + 1);
    }
}

/// The machine stack is on a multiple of sixteen at every call that `main` for a program makes, and
/// as it was found at every return, along every path.
pub proof fn a_program_keeps_the_machine_stack_aligned(
    callee: Seq<char>,
    result: Option<MainResult>,
)
    ensures
        x86_program(callee, result) == code_of(
            Piece::empty(),
            program(callee, result),
            Seq::empty(),
            0,
        ),
        balanced(program(callee, result), Some(8int), Seq::empty(), 0),
{
    reveal_with_fuel(code_of, 32);
    reveal_with_fuel(balanced, 32);
}

/// What the tests from test `i` on and the end behind them are made of, and their stack.
proof fn lemma_cases(
    p: Piece,
    tests: Seq<Seq<char>>,
    fields: Seq<u64>,
    saved: Seq<int>,
    i: int,
)
    requires
        0 <= i <= tests.len(),
        fields.len() == i + 1,
        saved.len() == i + 1,
    ensures
        code_of(p, cases(tests, i) + leave(0), fields, 0) == p.x86_cases(tests, i).x86_leave(0),
        balanced(cases(tests, i) + leave(0), Some(16int), saved, 0),
    decreases tests.len() - i,
{
    if i >= tests.len() {
        assert(cases(tests, i) + leave(0) =~= leave(0));
        reveal_with_fuel(code_of, 5);
        reveal_with_fuel(balanced, 5);
    } else {
        let head = test(i as u64, tests[i], (i + 1) as nat);
        let rest = cases(tests, i + 1) + leave(0);
        let q = p.x86_case(i as u64, tests[i]);
        let at = p.put(mov_imm_bytes(RDI, i as u64)).call_symbol("buri_rt_test_enter"@);
        let more = fields.push(at.jump_field(false, RAX, 0x84));
        assert(cases(tests, i) + leave(0) =~= head + rest);
        assert(code_of(p, head + rest, fields, 0) == code_of(q, head + rest, more, 6)) by {
            reveal_with_fuel(code_of, 7);
        }
        lemma_code_tail(q, head, rest, more, 0);
        lemma_balanced_tail(head, rest, Some(16int), saved.push(16), 0);
        lemma_cases(q, tests, more, saved.push(16), i + 1);
        assert(balanced(head + rest, Some(16int), saved, 0)) by {
            reveal_with_fuel(balanced, 7);
        }
    }
}

/// The machine stack is on a multiple of sixteen at every call that `main` for a suite makes, and as
/// it was found at every return, along every path, however many tests there are.
pub proof fn a_suite_keeps_the_machine_stack_aligned(tests: Seq<Seq<char>>)
    ensures
        x86_suite(tests) == code_of(Piece::empty(), suite(tests), Seq::empty(), 0),
        balanced(suite(tests), Some(8int), Seq::empty(), 0),
{
    let rest = cases(tests, 0) + leave(0);
    let p = Piece::x86_start();
    let at = Piece::empty().put(seq![0x55]).call_symbol("buri_rt_argv_init"@).lea_symbol(
        RDI,
        STACK_SYMBOL@,
    ).put(alu_bytes(0, RDI, STACK_USABLE as u32)).put(mov_imm_bytes(RSI, GUARD_BYTES)).put(
        mov_imm_bytes(RDX, PROT_NONE),
    ).call_symbol("mprotect"@);
    let none = Seq::<u64>::empty();
    let fields = none.push(at.jump_field(false, RAX, 0x84));
    let saved = Seq::<int>::empty().push(16);
    assert(suite(tests) =~= start() + rest);
    assert(code_of(Piece::empty(), start() + rest, none, 0) == code_of(
        p,
        start() + rest,
        fields,
        10,
    )) by {
        reveal_with_fuel(code_of, 11);
    }
    lemma_code_tail(p, start(), rest, fields, 0);
    lemma_balanced_tail(start(), rest, Some(16int), saved, 0);
    lemma_cases(p, tests, fields, saved, 0);
    assert(balanced(start() + rest, Some(8int), Seq::empty(), 0)) by {
        reveal_with_fuel(balanced, 11);
    }
}

} // verus!
