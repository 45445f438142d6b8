use stencil::a64::Shim;
use stencil::abi::StencilTarget;
use stencil::assemble::{Assembly, Fix};
use stencil::elfobj;
use stencil::calls::expand_call;
use stencil::emission::{
    door_frame, frames_for, missing_intrinsics, ways, Emission, Root, UnitObject, Units, Way,
};
use stencil::frames::frame_sigs;
use stencil::ir::{Block, Body, Code, Const, Func, Inst, Program, Target, Term, Type};
use stencil::jit::{symbol_of, Jit, EXTERNALS};
use stencil::library::{ConstRef, Hole, HoleKind, Index, Library, Stencil};
use stencil::prim::{BinOp, Prim};
use stencil::object::RelKind;
use stencil::region::{Region, RelocKind, Target as RelocTarget};
use stencil::select::{Callee, Helper, Op, Ret, Src, Switches, H, V};
use stencil::unit::{Unit, Whole};
use stencil::types::{JsonArms, Layout, Repr, Shape, Tables, TypeInfo};

const PLAIN: Switches =
    Switches { no_loops: false, no_stride: false, no_fused: false, copy_env: false, no_counts: false };

const NO_DOORS: Vec<(String, Shim)> = vec![];

fn blank() -> TypeInfo {
    TypeInfo {
        name: String::from("?"),
        shape: Shape::Other,
        prim: None,
        layout: Layout { size: 0, stride: 0, fields: vec![], repr: Repr::Zero },
        fields: vec![],
        variants: vec![],
        json: JsonArms { truth: None, number: None, text: None },
    }
}

fn tables() -> Tables {
    Tables {
        types: vec![],
        blank: blank(),
        exact: vec![],
        runtime: vec![String::from("host.now")],
        bits: vec![],
        traits: vec![],
    }
}

fn hole(name: &str, kind: HoleKind) -> Hole {
    Hole {
        name: String::from(name),
        kind,
        sites: vec![],
        pairs: vec![],
        branches: vec![],
        conds: vec![],
        lo12: vec![],
    }
}

fn stencil(name: &str, words: &[u32], holes: Vec<Hole>, tail: Option<usize>) -> Stencil {
    Stencil {
        name: String::from(name),
        code: words.iter().flat_map(|w| w.to_le_bytes()).collect(),
        holes,
        consts: vec![],
        consts_align: 0,
        const_refs: vec![],
        tail,
    }
}

const RET: u32 = 0xd65f_03c0;
const NOP: u32 = 0xd503_201f;
const B: u32 = 0x1400_0000;
const BL: u32 = 0x9400_0000;

fn library(stencils: Vec<Stencil>) -> Library {
    let mut index = Index::new();
    for (i, s) in stencils.iter().enumerate() {
        index.insert(s.name.clone(), i as u32);
    }
    Library { stencils, index, config: String::from("test") }
}

fn small() -> Library {
    let to = Hole { branches: vec![0], ..hole("JIT_T", HoleKind::Branch) };
    library(vec![
        stencil("ret", &[RET], vec![], None),
        stencil("jump", &[B], vec![to], Some(0)),
        stencil("unsupported", &[NOP], vec![], None),
    ])
}

fn block(insts: Vec<Inst>, term: Term) -> Block {
    Block { params: vec![], insts, term }
}

fn func(symbol: &str, blocks: Vec<Block>, types: Vec<Type>) -> Func {
    Func {
        symbol: String::from(symbol),
        params: vec![],
        rets: vec![],
        owned: vec![],
        body: Body::Code(Code { blocks, types }),
    }
}

fn program(funcs: Vec<Func>) -> Program {
    Program { funcs, tables: tables() }
}

fn to(block: usize) -> Term {
    Term::Jump(Target { block, args: vec![] })
}

fn word(b: &[u8], at: usize) -> u32 {
    u32::from_le_bytes(b[at..at + 4].try_into().unwrap())
}

#[test]
fn an_empty_main_is_an_object_with_an_entry_point() {
    let prog = program(vec![func("app$main", vec![block(vec![], Term::Return(vec![]))], vec![])]);
    let frames = frame_sigs(&prog);
    let lib = small();
    let root = Root::Main(0);
    let e = Emission {
        lib: &lib,
        prog: &prog,
        frames: &frames,
        root: &root,
        doors: &NO_DOORS,
        target: StencilTarget::LinuxArm64,
        sw: PLAIN,
    };
    let out = e.emit_units(&vec![(String::from("app"), vec![0])], &Units::All).ok().unwrap();
    assert_eq!(out.len(), 1);
    assert_eq!(out[0].name, "app.o");
    let obj = elfobj::read(out[0].bytes.as_ref().unwrap()).unwrap();
    assert_eq!(word(&obj.text, 0), RET);
    let names: Vec<&str> = obj.syms.iter().map(|s| s.name.as_str()).collect();
    assert_eq!(names[..4], ["", "buri$stencil$pool", "app$main", "main"]);
    let main = &obj.syms[3];
    assert_eq!((main.sect, main.value), (1, 16));
    assert!(names.contains(&"buri$stencil$stack"));
    let bss = obj.other_sections.last().unwrap();
    assert_eq!((bss.name.as_str(), bss.align, bss.data.len()), (".bss", 16384, 0));
}

#[test]
fn a_unit_without_the_root_has_no_entry_point() {
    let prog = program(vec![
        func("app$main", vec![block(vec![], Term::Return(vec![]))], vec![]),
        func("lib$f", vec![block(vec![], Term::Return(vec![]))], vec![]),
    ]);
    let frames = frame_sigs(&prog);
    let lib = small();
    let root = Root::Tests(vec![0]);
    let e = Emission {
        lib: &lib,
        prog: &prog,
        frames: &frames,
        root: &root,
        doors: &NO_DOORS,
        target: StencilTarget::MacosArm64,
        sw: PLAIN,
    };
    let units = vec![(String::from("app"), vec![0]), (String::from("lib"), vec![1])];
    let out = e.emit_units(&units, &Units::Only(vec![1])).ok().unwrap();
    assert_eq!(out.len(), 1);
    let u: &UnitObject = &out[0];
    assert!(u.bytes.is_none());
    assert_eq!(u.parts.sections.len(), 2);
    assert_eq!(u.parts.sections[0].name, "__text");
    assert_eq!(u.parts.sections[1].name, "__const");
    let names: Vec<(&str, bool)> =
        u.parts.symbols.iter().map(|s| (s.name.as_str(), s.global)).collect();
    assert_eq!(names, vec![("lib$f", true), ("buri$stencil$pool", false)]);
    let all = e.emit_units(&units, &Units::All).ok().unwrap();
    assert_eq!(all[0].parts.sections.len(), 3);
    assert_eq!(all[0].parts.sections[2].name, "__bss");
}

#[test]
fn a_branch_to_a_block_is_filled_in_and_a_fall_through_costs_nothing() {
    // The entry falls through to the second block, which jumps to itself.
    let prog = program(vec![func("f", vec![block(vec![], to(1)), block(vec![], to(1))], vec![])]);
    let frames = frame_sigs(&prog);
    let lib = small();
    let mut j = Jit::new(&lib, &frames, PLAIN, StencilTarget::LinuxArm64);
    j.compile_unit(&prog, &vec![0]).unwrap();
    assert!(j.reasons().is_empty());
    let out = j.region.finish();
    assert_eq!(out.code, B.to_le_bytes().to_vec());
    assert!(out.code_relocs.is_empty());
}

#[test]
fn a_call_is_left_to_the_linker_even_inside_a_unit() {
    let callee = Hole { branches: vec![0], ..hole("JIT_CALLEE", HoleKind::Branch) };
    let cont = Hole { branches: vec![4], ..hole("JIT_CONT0", HoleKind::Branch) };
    let mut lib = small();
    // Whatever stencil the call copies, it is a `bl` and a jump behind it.
    for key in ["call", "callv", "call/0"] {
        let s = stencil(key, &[BL, B], vec![callee.clone(), cont.clone()], Some(1));
        lib.index.insert(s.name.clone(), lib.stencils.len() as u32);
        lib.stencils.push(s);
    }
    let call = Inst::Call { dests: vec![], func: 1, args: vec![] };
    let prog = program(vec![
        func("f", vec![block(vec![call], Term::Return(vec![]))], vec![]),
        func("g", vec![block(vec![], Term::Return(vec![]))], vec![]),
    ]);
    let frames = frame_sigs(&prog);
    let mut j = Jit::new(&lib, &frames, PLAIN, StencilTarget::LinuxArm64);
    j.compile_unit(&prog, &vec![0, 1]).unwrap();
    assert_eq!(j.entry_of(0), 0);
    assert_eq!(j.entry_of(1), 8);
    assert_eq!(j.entry_of(7), 0);
    assert_eq!(j.entries_raw(), &vec![0, 8]);
    assert_eq!(j.frame_of(0), frames[0].size);
    assert_eq!(j.frame_of(2), 0);
    let out = j.region.finish();
    assert_eq!(out.code_relocs.len(), 1);
    assert_eq!(out.code_relocs[0].at, 0);
    assert_eq!(format!("{:?}", out.code_relocs[0].target), "Symbol(\"g\")");
    assert_eq!(word(&out.code, 0), BL);
}

#[test]
fn a_refusal_is_reported_with_its_shape_and_marks_what_reaches_it() {
    let odd = Inst::CallIntrinsic { dests: vec![], key: String::from("no.such"), args: vec![] };
    let call = |func| Inst::Call { dests: vec![], func, args: vec![] };
    let prog = program(vec![
        func("bad", vec![block(vec![odd], Term::Return(vec![]))], vec![]),
        func("calls", vec![block(vec![call(0)], Term::Return(vec![]))], vec![]),
        func("fine", vec![block(vec![], Term::Return(vec![]))], vec![]),
        func("far", vec![block(vec![call(1)], Term::Return(vec![]))], vec![]),
    ]);
    let frames = frame_sigs(&prog);
    let lib = small();
    let members = vec![0, 2];
    let mut j = Jit::new(&lib, &frames, PLAIN, StencilTarget::LinuxArm64);
    j.compile_unit(&prog, &members).unwrap();
    assert_eq!(j.reasons().len(), 1);
    assert_eq!(j.dirty_raw(), &vec![true, false, false, false]);
    assert_eq!(j.reachable_dirty(&prog), vec![true, true, false, true]);
    let s = j.stats(&prog, &members);
    assert_eq!((s.funcs, s.funcs_clean, s.blocks, s.insts, s.unsupported), (2, 1, 2, 1, 1));
    assert_eq!(s.max_frame, frames.iter().map(|f| f.size).max().unwrap());
    let why = j.reasons()[0].clone();
    let root = Root::Main(2);
    let e = Emission {
        lib: &lib,
        prog: &prog,
        frames: &frames,
        root: &root,
        doors: &NO_DOORS,
        target: StencilTarget::LinuxArm64,
        sw: PLAIN,
    };
    let units = vec![(String::from("a"), vec![0]), (String::from("b"), vec![0])];
    let errors = e.emit_units(&units, &Units::All).err().unwrap();
    assert_eq!(errors, vec![format!("the stencil backend cannot compile {why} yet")]);
}

#[test]
fn a_sixteen_byte_type_is_refused_where_a_slot_is_asked_for() {
    let refused = |key: &str, lib: &Library| {
        let mut f = func("f", vec![], vec![]);
        f.params = vec![Type::I128, Type::I128];
        f.rets = vec![Type::I128];
        f.body = Body::Runtime(String::from(key));
        let prog = program(vec![f]);
        let frames = frame_sigs(&prog);
        let mut j = Jit::new(lib, &frames, PLAIN, StencilTarget::LinuxArm64);
        j.select_unit(&prog, &vec![0]);
        j.reasons().clone()
    };
    let mut lib = small();
    assert_eq!(refused("num.I128.maxValue", &lib), vec!["Body::Runtime num.I128.maxValue"]);
    assert_eq!(refused("num.U128.minValue", &lib), vec!["Body::Runtime num.U128.minValue"]);
    for (key, why) in [
        ("num.I128.wrapToI64", "a conversion at `I128` or `I64`"),
        ("num.I64.wrapToU128", "a conversion at `I64` or `U128`"),
        ("num.I128.wrapToU128", "a conversion at `I128` or `U128`"),
    ] {
        assert_eq!(refused(key, &lib), vec![why]);
    }
    let chk = stencil("chk/add/i128", &[NOP], vec![], None);
    lib.index.insert(chk.name.clone(), lib.stencils.len() as u32);
    lib.stencils.push(chk);
    assert_eq!(
        refused("num.I128.saturatingAdd", &lib),
        vec!["Body::Runtime num.I128.saturatingAdd"]
    );
}

#[test]
fn frames_are_given_where_offsets_reach_and_members_exist() {
    let mut prog = program(vec![func("f", vec![block(vec![], Term::Return(vec![]))], vec![])]);
    let units = |m: Vec<usize>| vec![(String::from("a"), m)];
    assert_eq!(frames_for(&prog, &units(vec![0])), Some(frame_sigs(&prog)));
    assert_eq!(frames_for(&prog, &units(vec![0, 1])), None);
    assert!(frames_for(&prog, &units(vec![])).is_some());
    // A value of two thirds of what an offset reaches fits once, and not twice.
    prog.tables.types = vec![TypeInfo {
        layout: Layout { size: 0xb000_0000, stride: 8, fields: vec![], repr: Repr::Zero },
        ..blank()
    }];
    prog.funcs[0].params = vec![Type::Agg(0)];
    assert!(frames_for(&prog, &units(vec![0])).is_some());
    prog.funcs[0].rets = vec![Type::Agg(0)];
    assert_eq!(frames_for(&prog, &units(vec![0])), None);
}

#[test]
fn a_missing_stencil_is_an_error_and_not_a_panic() {
    let prog = program(vec![func("f", vec![block(vec![], Term::Unreachable)], vec![])]);
    let frames = frame_sigs(&prog);
    let lib = small();
    let mut j = Jit::new(&lib, &frames, PLAIN, StencilTarget::LinuxArm64);
    assert_eq!(
        j.compile_unit(&prog, &vec![0]).unwrap_err(),
        "stencil: no stencil unreachable in test"
    );
}

#[test]
fn an_addition_binds_its_operands_to_frame_offsets() {
    // add d, a, b with a literal pair for each offset.
    let pair = |name: &str, at: u32| Hole { pairs: vec![(at, at + 4)], ..hole(name, HoleKind::Imm32) };
    let cont = Hole { branches: vec![24], ..hole("JIT_CONT", HoleKind::Branch) };
    let movs = |rd: u32| [0xd280_0000 | rd, 0xf2a0_0000 | rd];
    let mut words = vec![];
    for rd in [9, 10, 11] {
        words.extend_from_slice(&movs(rd));
    }
    words.push(B);
    let mut lib = small();
    let add = stencil(
        "bin/add/i64/ff/f",
        &words,
        vec![pair("JIT_A", 0), pair("JIT_B", 8), pair("JIT_D", 16), cont],
        Some(3),
    );
    lib.index.insert(add.name.clone(), lib.stencils.len() as u32);
    lib.stencils.push(add);
    let sum = Inst::Binary { dest: 2, op: BinOp::Add, prim: Prim::I64, lhs: 0, rhs: 1 };
    let mut f = func("f", vec![block(vec![sum], Term::Return(vec![]))], vec![Type::I64; 3]);
    f.params = vec![Type::I64, Type::I64];
    if let Body::Code(code) = &mut f.body {
        code.blocks[0].params = vec![0, 1];
    }
    let prog = program(vec![f]);
    let frames = frame_sigs(&prog);
    let mut j = Jit::new(&lib, &frames, PLAIN, StencilTarget::LinuxArm64);
    j.compile_unit(&prog, &vec![0]).unwrap();
    let s = j.stats(&prog, &vec![0]);
    assert_eq!((s.stencils, s.bytes, s.elided, s.folded), (2, 28, 1, 0));
    let out = j.region.finish();
    let imm = |at: usize| (word(&out.code, at) >> 5) & 0xffff;
    assert_eq!((imm(0), imm(8), imm(16)), (0, 8, 16));
    assert_eq!(word(&out.code, 24), RET);

    // A folded twin whose fields the offsets fit is copied in its place, and counted.
    let field = |name: &str, at: u32| Hole { lo12: vec![(at, 8)], ..hole(name, HoleKind::Imm32) };
    let end = Hole { branches: vec![12], ..hole("JIT_CONT", HoleKind::Branch) };
    let twin = stencil(
        "bin/add/i64/ff/f+fold",
        &[0xf940_0009, 0xf940_000a, 0xf900_0009, B],
        vec![field("JIT_A", 0), field("JIT_B", 4), field("JIT_D", 8), end],
        Some(3),
    );
    lib.index.insert(twin.name.clone(), lib.stencils.len() as u32);
    lib.stencils.push(twin);
    let mut j = Jit::new(&lib, &frames, PLAIN, StencilTarget::LinuxArm64);
    j.compile_unit(&prog, &vec![0]).unwrap();
    let s = j.stats(&prog, &vec![0]);
    assert_eq!((s.stencils, s.bytes, s.elided, s.folded), (2, 16, 1, 1));
    let out = j.region.finish();
    let scaled = |at: usize| (word(&out.code, at) >> 10) & 0xfff;
    assert_eq!((scaled(0), scaled(4), scaled(8)), (0, 1, 2));
    assert_eq!(word(&out.code, 12), RET);
}

#[test]
fn a_literal_string_goes_to_the_pool() {
    let mut lib = small();
    let k = Hole { pairs: vec![(0, 4)], ..hole("JIT_N", HoleKind::Imm64) };
    let s = stencil("probe", &[0x9000_0009, 0xf940_0129], vec![k], None);
    lib.index.insert(s.name.clone(), lib.stencils.len() as u32);
    lib.stencils.push(s);
    let mut a = Assembly { region: Region::new(), fixups: vec![], lits: vec![] };
    let h = a.region.pool_bytes(b"text");
    a.lits.push(h);
    // A datum of 32 bits is formed in place; a wider one and an address are pooled.
    a.emit(&lib, "probe", &vec![(H::N, V::I(0x1_2345))]).unwrap();
    assert_eq!(word(&a.region.bytes, 0), 0xd280_0000 | (0x2345 << 5) | 9);
    assert_eq!(word(&a.region.bytes, 4), 0xf2a0_0000 | (1 << 5) | 9);
    a.emit(&lib, "probe", &vec![(H::N, V::I(u64::MAX))]).unwrap();
    a.emit(&lib, "probe", &vec![(H::N, V::Ptr(0))]).unwrap();
    let out = a.region.finish();
    assert_eq!(out.code_relocs.len(), 4);
    assert_eq!(out.pool_relocs.len(), 1);
    assert_eq!(out.pool_relocs[0].addend, 0);
    assert_eq!(out.pool[8..16], u64::MAX.to_le_bytes());
}

#[test]
fn a_hole_without_a_value_is_an_import_unless_it_is_the_emitters_own() {
    let mut lib = small();
    let call = Hole { branches: vec![0], ..hole("memcpy", HoleKind::Branch) };
    let own = hole("JIT_A", HoleKind::Imm32);
    lib.stencils.push(stencil("imports", &[BL], vec![call], None));
    lib.index.insert(String::from("imports"), 3);
    lib.stencils.push(stencil("unbound", &[NOP], vec![own], None));
    lib.index.insert(String::from("unbound"), 4);
    let mut a = Assembly { region: Region::new(), fixups: vec![], lits: vec![] };
    a.emit(&lib, "imports", &vec![]).unwrap();
    assert_eq!(format!("{:?}", a.region.relocs[0].target), "Symbol(\"memcpy\")");
    assert_eq!(
        a.emit(&lib, "unbound", &vec![]).unwrap_err(),
        "stencil: stencil unbound has an unbound hole JIT_A"
    );
    assert!(EXTERNALS.contains(&"memcpy"));
}

#[test]
fn a_folded_twin_is_copied_where_its_fields_take_the_operands() {
    let field = |name: &str| Hole { lo12: vec![(0, 8)], ..hole(name, HoleKind::Imm64) };
    let pair = Hole { pairs: vec![(0, 4)], ..hole("JIT_A", HoleKind::Imm64) };
    let lib = library(vec![
        stencil("ld", &[0x9000_0008, 0x9100_0108], vec![pair], None),
        stencil("ld+fold", &[0xf940_0008], vec![field("JIT_A")], None),
    ]);
    let mut a = Assembly { region: Region::new(), fixups: vec![], lits: vec![] };
    a.emit(&lib, "ld", &vec![(H::A, V::I(4095 * 8))]).unwrap();
    assert_eq!(a.region.bytes.len(), 4);
    assert_eq!((word(&a.region.bytes, 0) >> 10) & 0xfff, 4095);
    a.emit(&lib, "ld", &vec![(H::A, V::I(4))]).unwrap();
    a.emit(&lib, "ld", &vec![(H::A, V::I(4096 * 8))]).unwrap();
    assert_eq!(a.region.bytes.len(), 4 + 8 + 8);
}

#[test]
fn a_far_conditional_branch_goes_through_a_veneer() {
    let mut a = Assembly { region: Region::new(), fixups: vec![], lits: vec![] };
    a.region.put(&0x5400_0000u32.to_le_bytes());
    a.region.put(&vec![0; 0x20_0000]);
    a.fixups.push(Fix::BlockCond { at: 0, blk: 0 });
    a.fixups.push(Fix::Func { at: 4, f: 3 });
    // The target is past the reach of the conditional branch, and so is the end of the code.
    assert!(a.resolve_blocks(0, &vec![0x20_0000]).is_err());
    let mut near = Assembly { region: Region::new(), fixups: vec![], lits: vec![] };
    near.region.put(&vec![0; 0x10_0000]);
    near.region.put(&0x5400_0000u32.to_le_bytes());
    near.region.put(&[0; 8]);
    near.fixups.push(Fix::BlockCond { at: 0x10_0000, blk: 0 });
    near.fixups.push(Fix::Func { at: 0, f: 3 });
    // One instruction behind the branch: it is in reach.
    near.resolve_blocks(0, &vec![0x10_0004]).unwrap();
    assert_eq!(near.fixups, vec![Fix::Func { at: 0, f: 3 }]);
    assert_eq!((word(&near.region.bytes, 0x10_0000) >> 5) & 0x7_ffff, 1);
    let mut far = Assembly { region: Region::new(), fixups: vec![], lits: vec![] };
    far.region.put(&vec![0; 0x10_0004]);
    far.region.put(&0x5400_0000u32.to_le_bytes());
    far.fixups.push(Fix::BlockCond { at: 0x10_0004, blk: 0 });
    far.resolve_blocks(0, &vec![0]).unwrap();
    let veneer = 0x10_0008;
    assert_eq!((word(&far.region.bytes, 0x10_0004) >> 5) & 0x7_ffff, 1);
    let back = word(&far.region.bytes, veneer);
    assert_eq!(back & 0xfc00_0000, B);
    assert_eq!(((back << 6) as i32) >> 4, -(veneer as i32));
}

#[test]
fn a_function_is_called_by_its_symbol() {
    let prog = program(vec![func("a$b", vec![], vec![])]);
    assert_eq!(symbol_of(&prog, 0), "a$b");
    assert_eq!(symbol_of(&prog, 9), "buri$missing$9");
}

#[test]
fn missing_keys_come_sorted_and_once() {
    let keys: Vec<String> =
        ["z.q", "host.now", "a.b", "z.q"].iter().map(|s| String::from(*s)).collect();
    let gap = vec![String::from("net.get"), String::from("a.b")];
    assert_eq!(missing_intrinsics(&tables(), &keys, &gap), vec!["a.b", "net.get", "z.q"]);
}

#[test]
fn a_literal_of_nothing_is_a_zero_in_its_slot() {
    let d = Hole { lo12: vec![(0, 8)], ..hole("JIT_D", HoleKind::Imm32) };
    let cont = Hole { branches: vec![4], ..hole("JIT_CONT", HoleKind::Branch) };
    let mut lib = small();
    lib.stencils.push(stencil("imm/z", &[0xf900_001f, B], vec![d, cont], Some(1)));
    lib.index.insert(String::from("imm/z"), 3);
    let c = Inst::Const { dest: 0, value: Const::Int { bits: 0, negative: false } };
    let prog = program(vec![func("f", vec![block(vec![c], Term::Return(vec![]))], vec![Type::I64])]);
    let frames = frame_sigs(&prog);
    let mut j = Jit::new(&lib, &frames, PLAIN, StencilTarget::LinuxArm64);
    j.compile_unit(&prog, &vec![0]).unwrap();
    assert_eq!(j.region.code_addr(), 8);
    assert_eq!(j.region.word_at(0), 0xf900_001f);
    assert_eq!(j.region.word_at(4), RET);
    assert!(j.helper_symbols().is_empty());
}

fn add(lib: &mut Library, s: Stencil) {
    lib.index.insert(s.name.clone(), lib.stencils.len() as u32);
    lib.stencils.push(s);
}

// A `bl` behind two literals of frame offsets, and a jump.
fn call_of_two() -> Stencil {
    let offset = |name: &str, at: u32| Hole { lo12: vec![(at, 8)], ..hole(name, HoleKind::Imm32) };
    let callee = Hole { branches: vec![8], ..hole("JIT_RT_2_0_i", HoleKind::Branch) };
    let cont = Hole { branches: vec![16], ..hole("JIT_CONT0", HoleKind::Branch) };
    stencil(
        "crts/2/0/i",
        &[0xf940_0000, 0xf940_0001, BL, 0xf900_0000, B],
        vec![offset("JIT_S0", 0), offset("JIT_S1", 4), callee, offset("JIT_D", 12), cont],
        Some(4),
    )
}

fn hash_program() -> Program {
    let hash = Inst::CallIntrinsic { dests: vec![1], key: String::from("char.hash"), args: vec![0] };
    let mut f = func("f", vec![block(vec![hash], Term::Return(vec![]))], vec![Type::I64; 2]);
    f.params = vec![Type::I64];
    if let Body::Code(code) = &mut f.body {
        code.blocks[0].params = vec![0];
    }
    program(vec![f])
}

#[test]
fn a_call_of_a_c_function_is_a_stencil_and_a_relocation() {
    let prog = hash_program();
    let frames = frame_sigs(&prog);
    let mut lib = small();
    let seed = Hole { pairs: vec![(0, 4)], ..hole("JIT_N", HoleKind::Imm32) };
    let to = Hole { lo12: vec![(8, 8)], ..hole("JIT_D", HoleKind::Imm32) };
    let cont = Hole { branches: vec![12], ..hole("JIT_CONT", HoleKind::Branch) };
    add(
        &mut lib,
        stencil("imm/32", &[0xd280_0009, 0xf2a0_0009, 0xf900_0009, B], vec![seed, to, cont], Some(2)),
    );
    add(&mut lib, call_of_two());
    let root = Root::Tests(vec![]);
    let e = Emission {
        lib: &lib,
        prog: &prog,
        frames: &frames,
        root: &root,
        doors: &NO_DOORS,
        target: StencilTarget::LinuxArm64,
        sw: PLAIN,
    };
    let u = e.compile_unit("a", &vec![0]).ok().unwrap();
    let code = &u.parts.sections[0].data;
    // The seed, the call without its jump, and the end.
    assert_eq!(code.len(), 12 + 16 + 4);
    let scaled = |at: usize| (word(code, at) >> 10) & 0xfff;
    assert_eq!(scaled(8), scaled(12));
    assert_eq!((scaled(16), scaled(24)), (0, 1));
    assert_eq!((word(code, 20), word(code, 28)), (BL, RET));
    let call = u.parts.relocs.iter().find(|r| r.kind == RelKind::Branch26).unwrap();
    assert_eq!(call.offset, 20);
    assert_eq!(u.parts.symbols[call.symbol].name, "buri_rt_hash_char");
    assert!(u.parts.symbols[call.symbol].defined.is_none());
    // Selected, expanded and compiled one after another it is the same object.
    let selected = e.select(&vec![0]).expand_calls();
    assert!(!selected.bodies[0].ops.iter().any(|o| o.calls_runtime()));
    let again = e.compile_selected("a", &vec![0], selected).ok().unwrap();
    assert_eq!(again.bytes, u.bytes);
    // Without the expansion it is not assembled.
    let raw = e.select(&vec![0]);
    assert!(raw.bodies[0].ops.iter().any(|o| o.calls_runtime()));
    assert_eq!(
        e.compile_selected("a", &vec![0], raw).err().unwrap(),
        vec!["stencil: a runtime call that was not expanded"]
    );
}

#[test]
fn an_argument_that_is_no_word_is_staged_in_the_argument_area() {
    let ints = vec![Src::Word(8), Src::Imm(0), Src::Imm(7), Src::Imm(u64::MAX), Src::Sym(3), Src::Addr(40)];
    let callee = Callee::Name(String::from("f"));
    let ops = expand_call(1000, &callee, &ints, &vec![Src::Word(16)], 24, Ret::Void).unwrap();
    let area = |i: u64| 1000 + (16 + i) * 8;
    let stencil = |key: &str, binds: Vec<(H, V)>| Op::Stencil { key: String::from(key), binds };
    let named = |n: &str| H::Named(String::from(n));
    let cont = || (H::Cont, V::Fall);
    assert_eq!(
        ops,
        vec![
            stencil("imm/z", vec![(H::D, V::I(area(1))), cont()]),
            stencil("imm/32", vec![(H::D, V::I(area(2))), (H::N, V::I(7)), cont()]),
            stencil("imm/64", vec![(H::D, V::I(area(3))), (H::M, V::I(u64::MAX)), cont()]),
            stencil("imm/64", vec![(H::D, V::I(area(4))), (H::M, V::Sym(3)), cont()]),
            stencil("lea", vec![(H::D, V::I(area(5))), (H::A, V::I(40)), cont()]),
            stencil(
                "crts/6/1/v",
                vec![
                    (named("JIT_S0"), V::I(8)),
                    (named("JIT_S1"), V::I(area(1))),
                    (named("JIT_S2"), V::I(area(2))),
                    (named("JIT_S3"), V::I(area(3))),
                    (named("JIT_S4"), V::I(area(4))),
                    (named("JIT_S5"), V::I(area(5))),
                    (named("JIT_G0"), V::I(16)),
                    (named("JIT_RT_6_1_v"), V::Ext(String::from("f"))),
                    (H::Cont0, V::Fall),
                ],
            ),
        ]
    );
    let helper = expand_call(0, &Callee::Helper(2), &vec![], &vec![], 24, Ret::Int).unwrap();
    assert_eq!(
        helper,
        vec![stencil(
            "crts/0/0/i",
            vec![(H::D, V::I(24)), (named("JIT_RT_0_0_i"), V::Sym(2)), (H::Cont0, V::Fall)],
        )]
    );
    assert!(expand_call(0, &callee, &vec![Src::Word(0); 11], &vec![], 0, Ret::Void).is_none());
    assert!(expand_call(0, &callee, &vec![], &vec![Src::Word(0); 3], 0, Ret::Void).is_none());
}

#[test]
fn what_calls_the_runtime_is_replaced_by_whoever_knows_it() {
    // The runtime's entry of a key, put in place of the operation that asks for it.
    let now = Inst::CallIntrinsic { dests: vec![0], key: String::from("host.now"), args: vec![] };
    let prog =
        program(vec![func("f", vec![block(vec![now], Term::Return(vec![]))], vec![Type::I64])]);
    let frames = frame_sigs(&prog);
    let mut lib = small();
    let d = Hole { lo12: vec![(4, 8)], ..hole("JIT_D", HoleKind::Imm32) };
    let callee = Hole { branches: vec![0], ..hole("JIT_RT_0_0_i", HoleKind::Branch) };
    let cont = Hole { branches: vec![8], ..hole("JIT_CONT0", HoleKind::Branch) };
    add(&mut lib, stencil("crts/0/0/i", &[BL, 0xf900_0000, B], vec![callee, d, cont], Some(2)));
    let root = Root::Main(0);
    let e = Emission {
        lib: &lib,
        prog: &prog,
        frames: &frames,
        root: &root,
        doors: &NO_DOORS,
        target: StencilTarget::LinuxArm64,
        sw: PLAIN,
    };
    let units = vec![(String::from("a"), vec![0])];
    assert_eq!(
        e.emit_units(&units, &Units::All).err().unwrap(),
        vec!["stencil: a runtime call that was not expanded"]
    );
    let mut selected = e.select_units(&units, &Units::All);
    assert_eq!(selected.len(), 1);
    for body in selected[0].bodies.iter_mut() {
        for op in std::mem::take(&mut body.ops) {
            match &op {
                Op::Entry { key, dest, args } => {
                    assert_eq!((key.as_str(), args.len()), ("host.now", 0));
                    let (at, _) = dest.unwrap();
                    let callee = Callee::Name(String::from("buri_rt_host_now"));
                    let call =
                        expand_call(body.scratch, &callee, &vec![], &vec![], at as u64, Ret::Int);
                    body.ops.extend(call.unwrap());
                }
                _ => body.ops.push(op),
            }
        }
    }
    let out = e.emit_selected(&units, &Units::All, selected).ok().unwrap();
    let parts = &out[0].parts;
    assert_eq!(word(&parts.sections[0].data, 0), BL);
    assert_eq!(parts.symbols[parts.relocs[0].symbol].name, "buri_rt_host_now");
    assert_eq!(parts.sections[2].zerofill, 0x410_0000);
}

#[test]
fn a_stub_calls_the_body_behind_it_on_either_machine() {
    let mut t = tables();
    t.types = vec![TypeInfo {
        shape: Shape::Fn { params: vec![0], ret: 0 },
        layout: Layout { size: 8, stride: 8, fields: vec![], repr: Repr::Zero },
        ..blank()
    }];
    let prog = Program { funcs: vec![], tables: t };
    let lib = small();
    let stubs = |target| {
        let mut u = Unit::new();
        u.helpers = vec![
            Helper::Walk { ty: 0, retain: false },
            Helper::Entry { fty: 0, index: None },
        ];
        let w = Whole {
            lib: &lib,
            prog: &prog,
            frames: &vec![],
            counted: &vec![false, false],
            sw: PLAIN,
            target,
        };
        let u = u.select(&w, &vec![]);
        let raw = |i: usize| match &u.bodies[i].ops[0] {
            Op::Raw(b) => b.clone(),
            other => panic!("{other:?} is no stub"),
        };
        (raw(0), raw(1))
    };
    let (glue, entry) = stubs(StencilTarget::LinuxX86_64);
    for (b, left) in [(glue, 9), (entry, 2)] {
        let at = b.len() - left - 5;
        assert_eq!(b[at], 0xe8);
        assert_eq!(word(&b, at + 1) as usize, left);
    }
    let (glue, entry) = stubs(StencilTarget::LinuxArm64);
    for (b, left) in [(glue, 4), (entry, 3)] {
        assert_eq!(word(&b, b.len() - 4 * left), BL | left as u32);
    }
}

#[test]
fn spilled_constants_are_copied_and_referred_to() {
    let mut s = stencil("un/neg/f64", &[0, 0], vec![], None);
    s.consts = (0..32).collect();
    s.consts_align = 16;
    s.const_refs = vec![
        ConstRef { field: 3, insn_end: 7, at: 16 },
        ConstRef { field: 0, insn_end: 5, at: 0 },
    ];
    let lib = library(vec![s]);
    let mut a = Assembly { region: Region::new(), fixups: vec![], lits: vec![] };
    a.region.pool_u64(7);
    a.region.put(&[0x90; 3]);
    a.emit(&lib, "un/neg/f64", &vec![]).unwrap();
    let out = a.region.finish();
    assert_eq!(out.code.len(), 11);
    assert_eq!(out.pool[16..48], (0..32).collect::<Vec<u8>>());
    let refs: Vec<(u64, i64)> = out.code_relocs.iter().map(|r| (r.at, r.addend)).collect();
    assert_eq!(refs, vec![(3 + 3, 16 + 16 - 4), (3, 16 - 5)]);
    for r in &out.code_relocs {
        assert_eq!((r.kind, &r.target), (RelocKind::Pc32, &RelocTarget::Pool));
    }
}

#[test]
fn an_outside_symbol_is_a_relocation_or_a_pool_slot() {
    let mut lib = small();
    let call = Hole { branches: vec![0, 4], ..hole("JIT_RT_0_0_v", HoleKind::Branch) };
    let word_of = Hole { pairs: vec![(8, 12)], ..hole("JIT_X", HoleKind::Imm64) };
    add(
        &mut lib,
        stencil("probe", &[BL, BL, 0x9000_0009, 0xf940_0129], vec![call, word_of], None),
    );
    let mut a = Assembly { region: Region::new(), fixups: vec![], lits: vec![] };
    let named = |n: &str| H::Named(String::from(n));
    let ext = || V::Ext(String::from("memcpy"));
    a.emit(&lib, "probe", &vec![(named("JIT_RT_0_0_v"), ext()), (named("JIT_X"), ext())]).unwrap();
    let out = a.region.finish();
    assert_eq!((word(&out.code, 0), word(&out.code, 4)), (BL, BL));
    let calls: Vec<u64> = out
        .code_relocs
        .iter()
        .filter(|r| matches!(&r.target, RelocTarget::Symbol(n) if n == "memcpy"))
        .map(|r| r.at)
        .collect();
    assert_eq!(calls, vec![0, 4]);
    assert_eq!(out.pool_relocs.len(), 1);
    assert!(matches!(&out.pool_relocs[0].target, RelocTarget::Symbol(n) if n == "memcpy"));
    // A literal is no place for a symbol.
    let lit = hole("JIT_Y", HoleKind::Imm32);
    add(&mut lib, stencil("lit", &[NOP], vec![lit], None));
    let mut a = Assembly { region: Region::new(), fixups: vec![], lits: vec![] };
    assert_eq!(
        a.emit(&lib, "lit", &vec![(named("JIT_Y"), ext())]).unwrap_err(),
        "stencil: hole JIT_Y takes a literal"
    );
}

#[test]
fn the_doors_ride_with_the_entry_point() {
    let mut takes = func("t1", vec![block(vec![], Term::Return(vec![]))], vec![Type::I64]);
    takes.params = vec![Type::I64];
    if let Body::Code(code) = &mut takes.body {
        code.blocks[0].params = vec![0];
    }
    let mut gives = func("t2", vec![block(vec![], Term::Unreachable)], vec![]);
    gives.rets = vec![Type::I64, Type::I64];
    let prog = program(vec![
        func("t0", vec![block(vec![], Term::Return(vec![]))], vec![]),
        takes,
        gives,
    ]);
    let frames = frame_sigs(&prog);
    assert_eq!(door_frame(&frames, 0), Some(0));
    assert_eq!(door_frame(&frames, 1), None);
    assert_eq!(door_frame(&frames, 2), Some(16));
    assert_eq!(door_frame(&frames, 3), None);
    assert_eq!(ways(&frames, &Root::Main(2)), vec![Way { func: 2, test: None, ret_size: 16 }]);
    assert!(ways(&frames, &Root::Main(1)).is_empty());
    let root = Root::Tests(vec![1, 0, 2]);
    assert_eq!(
        ways(&frames, &root),
        vec![
            Way { func: 0, test: Some(1), ret_size: 0 },
            Way { func: 2, test: Some(2), ret_size: 16 },
        ]
    );
    let root = Root::Tests(vec![0, 1]);
    let doors = vec![
        (String::from("door$0"), Shim { bytes: vec![1; 5], relocs: vec![] }),
        (String::from("door$1"), Shim { bytes: vec![2; 20], relocs: vec![] }),
    ];
    let lib = small();
    let e = Emission {
        lib: &lib,
        prog: &prog,
        frames: &frames,
        root: &root,
        doors: &doors,
        target: StencilTarget::LinuxArm64,
        sw: PLAIN,
    };
    let with = e.compile_unit("a", &vec![0]).ok().unwrap();
    let code = &with.parts.sections[0].data;
    let at = |name: &str| {
        let s = with.parts.symbols.iter().find(|s| s.name == name).unwrap();
        s.defined.as_ref().unwrap().offset as usize
    };
    assert!(at("main") < at("door$0") && at("door$0") + 16 == at("door$1"));
    assert!(at("main") % 16 == 0 && at("door$0") % 16 == 0);
    assert_eq!(code[at("door$0")..at("door$0") + 5], [1; 5]);
    assert_eq!(code[at("door$1")..], [2; 20]);
    let without = e.compile_unit("b", &vec![1]).ok().unwrap();
    assert!(!without.parts.symbols.iter().any(|s| s.name.starts_with("door$")));
}

#[test]
fn what_cannot_be_assembled_says_why() {
    let lib = small();
    let mut a = Assembly { region: Region::new(), fixups: vec![], lits: vec![] };
    let none = vec![];
    let mut blk = vec![0];
    assert_eq!(
        a.op(&lib, &none, &mut blk, &Op::StrLen { at: 0, scratch: 8 }).unwrap_err(),
        "stencil: a runtime call that was not expanded"
    );
    assert_eq!(
        a.op(&lib, &none, &mut blk, &Op::Pool(0)).unwrap_err(),
        "stencil: a literal out of its order"
    );
    a.op(&lib, &none, &mut blk, &Op::Raw(vec![0; 6])).unwrap();
    a.op(&lib, &none, &mut blk, &Op::Place(0)).unwrap();
    assert_eq!(blk, vec![6]);
    a.fixups.push(Fix::Block { at: 0, blk: 0 });
    assert_eq!(a.resolve_blocks(0, &blk).unwrap_err(), "misaligned branch");
}

#[test]
fn every_branch_of_a_selected_body_has_a_place() {
    let two = Term::Branch {
        cond: 0,
        then: Target { block: 2, args: vec![1] },
        else_: Target { block: 1, args: vec![] },
    };
    let mut f = func(
        "f",
        vec![
            block(vec![], two),
            block(vec![], Term::Return(vec![])),
            block(vec![], to(1)),
        ],
        vec![Type::I1, Type::I64, Type::I64],
    );
    f.params = vec![Type::I1, Type::I64];
    if let Body::Code(code) = &mut f.body {
        code.blocks[0].params = vec![0, 1];
        code.blocks[2].params = vec![2];
    }
    let prog = program(vec![f]);
    let frames = frame_sigs(&prog);
    let mut lib = small();
    for key in ["br/f", "mov/8"] {
        lib.index.insert(String::from(key), lib.stencils.len() as u32);
        lib.stencils.push(stencil(key, &[NOP], vec![], None));
    }
    let mut j = Jit::new(&lib, &frames, PLAIN, StencilTarget::LinuxArm64);
    j.select_unit(&prog, &vec![0]);
    assert!(j.reasons().is_empty());
    let body = &j.unit.bodies[0];
    let mut aimed = vec![];
    for o in &body.ops {
        if let Op::Stencil { binds, .. } = o {
            for (_, v) in binds {
                if let V::Blk(l) = v {
                    aimed.push(*l);
                }
            }
        }
    }
    assert!(!aimed.is_empty());
    for l in aimed {
        assert!(l < body.labels);
        assert!(body.ops.contains(&Op::Place(l)), "label {l}");
    }
}
