use stencil::abi::{
    rt_callee, rt_float_slot, rt_slot, Loc, StencilTarget, CPS_REGISTER_COUNT, MAX_FLOAT_ARGS,
    MAX_INT_ARGS,
};
use stencil::bytes::{get16, get32, get64, put16, put32, put64};
use stencil::carried::promote;
use stencil::edges::{sequence, Cell, Move};
use stencil::frames::{frame_sigs, SCRATCH_BYTES, SCRATCH_WORDS};
use stencil::fuse::constants;
use stencil::glue::{state_shape, symbol};
use stencil::ir::{Block, Body, Code, Const, Func, Inst, Program, Target, Term, Type};
use stencil::keys::{implemented, inline_runtime_key, numeric_key};
use stencil::library::Library;
use stencil::numeric::bound_pattern;
use stencil::order::layout;
use stencil::prim::{prim_of_name, BinOp, Prim};
use stencil::registers::regalloc;
use stencil::select::Switches;
use stencil::slots::{slots, DefTable};
use stencil::sorted::tidy;
use stencil::text::{decimal_of, hex_of, hex_word_of, split_dot, strip_prefix, strip_suffix};
use stencil::types::{JsonArms, Layout, Repr, Shape, Tables, TypeInfo};

fn tables() -> Tables {
    Tables {
        types: vec![],
        blank: TypeInfo {
            name: String::from("?"),
            shape: Shape::Other,
            prim: None,
            layout: Layout { size: 0, stride: 0, fields: vec![], repr: Repr::Zero },
            fields: vec![],
            variants: vec![],
            json: JsonArms { truth: None, number: None, text: None },
        },
        exact: vec![],
        runtime: vec![String::from("host.now")],
        bits: vec![],
        traits: vec![],
    }
}

fn to(block: usize, args: Vec<usize>) -> Target {
    Target { block, args }
}

fn add(dest: usize, lhs: usize, rhs: usize) -> Inst {
    Inst::Binary { dest, op: BinOp::Add, prim: Prim::I64, lhs, rhs }
}

fn less(dest: usize, lhs: usize, rhs: usize) -> Inst {
    Inst::Binary { dest, op: BinOp::Lt, prim: Prim::I64, lhs, rhs }
}

fn block(params: Vec<usize>, insts: Vec<Inst>, term: Term) -> Block {
    Block { params, insts, term }
}

/// A count from zero up to a bound: the entry, the loop, and what is behind it.
fn count() -> Code {
    let step = Inst::Const { dest: 2, value: Const::Int { bits: 1, negative: false } };
    Code {
        blocks: vec![
            block(
                vec![0],
                vec![Inst::Const { dest: 5, value: Const::Int { bits: 0, negative: false } }],
                Term::Jump(to(1, vec![5])),
            ),
            block(
                vec![1],
                vec![step, add(3, 1, 2), less(4, 3, 0)],
                Term::Branch { cond: 4, then: to(1, vec![3]), else_: to(2, vec![]) },
            ),
            block(vec![], vec![], Term::Return(vec![3])),
        ],
        types: vec![Type::I64, Type::I64, Type::I64, Type::I64, Type::I1, Type::I64],
    }
}

fn program(code: Code, params: Vec<Type>, rets: Vec<Type>) -> Program {
    Program {
        funcs: vec![Func {
            symbol: String::from("f"),
            params,
            rets,
            owned: vec![],
            body: Body::Code(code),
        }],
        tables: tables(),
    }
}

#[test]
fn a_frame_is_results_parameters_locals_and_scratch() {
    let prog = program(count(), vec![Type::I64], vec![Type::I64]);
    let f = &frame_sigs(&prog)[0];
    assert_eq!((f.ret.clone(), f.ret_size), (vec![0], 8));
    assert_eq!((f.params.clone(), f.param_end), (vec![8], 16));
    assert_eq!(f.size as usize, (16 + 5 * 8 + 768 + 15) / 16 * 16);
    assert_eq!(SCRATCH_BYTES as usize, SCRATCH_WORDS * 8);
}

#[test]
fn values_of_one_class_share_a_slot_and_others_do_not() {
    let code = count();
    let prog = program(count(), vec![Type::I64], vec![Type::I64]);
    let f = &frame_sigs(&prog)[0];
    let (at, end) = slots(&prog.tables, &code, f);
    assert_eq!(at.len(), 6);
    // The parameter is where the caller put it.
    assert_eq!(at[0], 8);
    // The bound lives across the loop, so no variable of the loop is in its slot.
    for v in [1, 2, 3, 4] {
        assert_ne!(at[v], at[0], "{v}");
    }
    for s in &at[1..] {
        assert!(*s < 8 || (*s >= f.param_end && s + 8 <= end));
    }
    assert!(end <= f.size - SCRATCH_BYTES);
}

#[test]
fn every_block_is_laid_out_once_and_the_entry_first() {
    let jump = |b| Term::Jump(to(b, vec![]));
    let code = Code {
        blocks: vec![
            block(vec![], vec![], jump(2)),
            block(vec![], vec![], Term::Return(vec![])),
            block(vec![], vec![], Term::Branch { cond: 0, then: to(3, vec![]), else_: to(1, vec![]) }),
            block(vec![], vec![], jump(2)),
            block(vec![], vec![], Term::Unreachable),
        ],
        types: vec![Type::I1],
    };
    let order = layout(&code);
    assert_eq!(order[0], 0);
    assert_eq!(order[4], 4);
    let mut all = order.clone();
    all.sort();
    assert_eq!(all, vec![0, 1, 2, 3, 4]);
}

#[test]
fn a_loop_keeps_its_variable_in_a_register() {
    let code = count();
    let n = code.types.len();
    let (mut reg, wt, taken) = promote(&code, vec![None; n], vec![true; n]);
    assert_eq!(reg[1], Some(Loc::Reg(0)));
    assert!(taken.0 >= 1);
    assert_eq!(wt.len(), n);
    let uses = DefTable::of(&code).uses;
    regalloc(&code, &uses, &mut reg, taken);
    // No temporary is in the register of the loop's variable.
    for v in [2, 4] {
        assert_ne!(reg[v], Some(Loc::Reg(0)), "{v}");
    }
    for l in reg.iter().flatten() {
        assert!(matches!(l, Loc::Reg(k) if (*k as usize) < CPS_REGISTER_COUNT as usize));
    }
}

#[test]
fn a_call_in_a_loop_keeps_its_variables_out_of_registers() {
    let mut code = count();
    code.blocks[1].insts.insert(0, Inst::Call { dests: vec![], func: 0, args: vec![] });
    let n = code.types.len();
    let (reg, wt, taken) = promote(&code, vec![None; n], vec![true; n]);
    assert_eq!(reg, vec![None; n]);
    assert_eq!(wt, vec![true; n]);
    assert_eq!(taken, (0, 0));
}

#[test]
fn temporaries_that_live_together_have_two_registers() {
    // (a + b) < (a + a): both sums are alive at the comparison.
    let code = Code {
        blocks: vec![block(
            vec![0, 1],
            vec![add(2, 0, 1), add(3, 0, 0), less(4, 2, 3)],
            Term::Branch { cond: 4, then: to(1, vec![]), else_: to(1, vec![]) },
        ), block(vec![], vec![], Term::Return(vec![]))],
        types: vec![Type::I64, Type::I64, Type::I64, Type::I64, Type::I1],
    };
    let uses = DefTable::of(&code).uses;
    let mut reg = vec![None; 5];
    regalloc(&code, &uses, &mut reg, (0, 0));
    assert_eq!(reg, vec![None, None, Some(Loc::Reg(0)), Some(Loc::Reg(1)), Some(Loc::Reg(0))]);
    // A register that is taken is not handed out.
    let mut reg = vec![None; 5];
    regalloc(&code, &uses, &mut reg, (1, 0));
    assert_eq!(reg[2], Some(Loc::Reg(1)));
}

#[test]
fn a_literal_is_known_but_folded_only_where_a_stencil_takes_it() {
    let (known, folded) = constants(&Library::default(), &count());
    assert_eq!(known[2], Some(1));
    assert_eq!(known[5], Some(0));
    assert_eq!(known[3], None);
    assert_eq!(folded, vec![false; 6]);
}

#[test]
fn an_edge_assigns_all_at_once() {
    let swap = vec![
        Move { to: Cell::Slot(8), from: Cell::Slot(16), n: 8, float: false },
        Move { to: Cell::Slot(16), from: Cell::Slot(8), n: 8, float: false },
    ];
    let (moves, whole) = sequence(swap, 800);
    assert!(whole);
    let mut mem = std::collections::HashMap::new();
    mem.insert(8u64, 'a');
    mem.insert(16u64, 'b');
    for m in moves {
        if let (Cell::Slot(d), Cell::Slot(s)) = (m.to, m.from) {
            let v = mem[&s];
            mem.insert(d, v);
        }
    }
    assert_eq!((mem[&8], mem[&16]), ('b', 'a'));
}

#[test]
fn an_edge_assigns_every_byte_of_wide_slots() {
    // Two swaps of slots wider than a scratch word, and a copy out of one of them.
    let m = |to: u64, from: u64| Move { to: Cell::Slot(to), from: Cell::Slot(from), n: 24, float: false };
    let all = vec![m(0, 24), m(24, 0), m(48, 72), m(72, 48), m(96, 0)];
    let (moves, whole) = sequence(all.clone(), 800);
    assert!(whole);
    let before: Vec<u8> = (0..1000u32).map(|i| (i % 251) as u8).collect();
    let mut mem = before.clone();
    for c in moves {
        if let (Cell::Slot(d), Cell::Slot(s)) = (c.to, c.from) {
            mem.copy_within(s as usize..(s + c.n) as usize, d as usize);
        }
    }
    for c in all {
        if let (Cell::Slot(d), Cell::Slot(s)) = (c.to, c.from) {
            assert_eq!(mem[d as usize..d as usize + 24], before[s as usize..s as usize + 24]);
        }
    }
    assert_eq!(mem[120..800], before[120..800]);
}

#[test]
fn a_state_record_has_its_contexts_behind_three_words() {
    // Two contexts, the counter and the element.
    let (at, end) = state_shape(&[8, 4, 8, 24], Some(2));
    assert_eq!(at, vec![24, 32]);
    assert_eq!(end, 48);
    assert_eq!(state_shape(&[8], None), (vec![], 32));
}

#[test]
fn two_helpers_have_two_names() {
    assert_eq!(symbol(0), "buri$stencil$h0");
    assert_eq!(symbol(12), "buri$stencil$h12");
}

#[test]
fn what_is_inlined_is_implemented() {
    let t = tables();
    for key in ["host.now", "no.such", "list.map", "wrapping.add"] {
        if inline_runtime_key(&t, key) {
            assert!(implemented(&t, key), "{key}");
        }
    }
    assert!(implemented(&t, "host.now"));
    assert!(!implemented(&t, "no.such"));
    assert!(!numeric_key("no.such"));
}

#[test]
fn every_name_of_a_primitive_finds_it() {
    for p in [Prim::Bool, Prim::I8, Prim::U128, Prim::F32, Prim::Str, Prim::Char] {
        assert_eq!(prim_of_name(p.name()), Some(p));
    }
    assert_eq!(prim_of_name("Int"), None);
}

#[test]
fn a_bound_is_its_bit_pattern() {
    assert_eq!(bound_pattern(Prim::I8, true), Some(0x80));
    assert_eq!(bound_pattern(Prim::I8, false), Some(0x7f));
    assert_eq!(bound_pattern(Prim::U16, false), Some(0xffff));
    assert_eq!(bound_pattern(Prim::I64, true), Some(1 << 63));
    assert_eq!(bound_pattern(Prim::Str, true), None);
}

#[test]
fn a_sixteen_byte_type_has_no_pattern() {
    for p in [Prim::I128, Prim::U128] {
        assert_eq!((bound_pattern(p, true), bound_pattern(p, false)), (None, None));
    }
}

#[test]
fn a_parameter_is_defined_before_every_instruction() {
    // The entry's parameter may take the slot of the block's, unless an instruction reads that.
    let code = |insts| Code {
        blocks: vec![
            block(vec![0], insts, Term::Jump(to(1, vec![0]))),
            block(vec![1], vec![], Term::Return(vec![1])),
        ],
        types: vec![Type::I64; 3],
    };
    let at = |c: Code| {
        let prog = program(c.clone(), vec![Type::I64], vec![Type::I64]);
        slots(&prog.tables, &c, &frame_sigs(&prog)[0]).0
    };
    let free = at(code(vec![]));
    assert_eq!(free[0], free[1]);
    let read = at(code(vec![add(2, 1, 1)]));
    assert_ne!(read[0], read[1]);
}

#[test]
fn numbers_are_written_and_read_back() {
    let mut b = vec![7];
    put16(&mut b, 0xbeef);
    put32(&mut b, 0x0102_0304);
    put64(&mut b, 0x0102_0304_0506_0708);
    assert_eq!(b[..7], [7, 0xef, 0xbe, 4, 3, 2, 1]);
    assert_eq!(get16(&b, 1), 0xbeef);
    assert_eq!(get32(&b, 3), 0x0102_0304);
    assert_eq!(get64(&b, 7), 0x0102_0304_0506_0708);
}

#[test]
fn numbers_are_rendered() {
    assert_eq!(decimal_of(0), "0");
    assert_eq!(decimal_of(u64::MAX), "18446744073709551615");
    assert_eq!(hex_of(0xbeef), "0xbeef");
    assert_eq!(hex_word_of(0xd2), "0x000000d2");
}

#[test]
fn texts_are_cut() {
    assert_eq!(strip_prefix("list.map", "list."), Some(String::from("map")));
    assert_eq!(strip_prefix("map", "list."), None);
    assert_eq!(strip_suffix("a.b", ".b"), Some(String::from("a")));
    assert_eq!(split_dot("a.b.c"), Some((String::from("a"), String::from("b.c"))));
    assert_eq!(split_dot("abc"), None);
}

#[test]
fn messages_are_sorted_by_their_bytes() {
    let v: Vec<String> = ["b", "a", "\u{e4}", "b", "ab", "Z"].iter().map(|s| String::from(*s)).collect();
    let mut want = v.clone();
    want.sort();
    want.dedup();
    assert_eq!(tidy(&v), want);
}

#[test]
fn the_targets_are_told_apart() {
    assert_eq!(StencilTarget::MacosArm64.slug(), "macos-arm64");
    assert_eq!(StencilTarget::LinuxX86_64.triple(), "x86_64-unknown-linux-gnu");
    assert!(StencilTarget::LinuxArm64.is_elf() && StencilTarget::LinuxArm64.is_arm64());
    assert!(!StencilTarget::MacosArm64.is_elf());
    assert_eq!(rt_callee(2, 1, "w"), "JIT_RT_2_1_w");
    assert_eq!((rt_slot(3), rt_float_slot(0)), (String::from("JIT_S3"), String::from("JIT_G0")));
    assert!(MAX_INT_ARGS >= 8 && MAX_FLOAT_ARGS >= 1);
    assert_eq!(Loc::Reg(2).tag(), "r2");
}

#[test]
fn a_switch_is_a_whole_name_of_the_list() {
    let s = Switches::of("listloop,incbr", "1");
    assert!(s.no_loops && s.no_fused && s.no_counts);
    assert!(!s.no_stride && !s.copy_env);
    let s = Switches::of("xlistloop,estride2,envskip", "0");
    assert!(!s.no_loops && !s.no_stride && s.copy_env && !s.no_counts);
}
