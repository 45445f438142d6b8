use stencil::abi::StencilTarget;
use stencil::elf::{
    r_type, R_AARCH64_ADD_ABS_LO12_NC, R_AARCH64_CALL26, R_AARCH64_JUMP26,
    R_AARCH64_LDST64_ABS_LO12_NC, R_X86_64_64, R_X86_64_PC32, R_X86_64_PLT32,
};
use stencil::elfobj;
use stencil::machobj;
use stencil::object::{Definition, RelKind, Reloc, Section, Symbol, CODE_ATTRIBUTES};

fn text(data: Vec<u8>) -> Section {
    Section { name: ".text", segment: "", align: 2, zerofill: 0, attributes: CODE_ATTRIBUTES, data }
}

fn data(name: &'static str, align: u32, zerofill: u64, bytes: Vec<u8>) -> Section {
    Section { name, segment: "", align, zerofill, attributes: 0, data: bytes }
}

fn symbol(name: &str, defined: Option<(usize, u64)>, global: bool) -> Symbol {
    Symbol {
        name: String::from(name),
        defined: defined.map(|(section, offset)| Definition { section, offset }),
        global,
    }
}

#[test]
fn a_branch_is_split_by_its_instruction() {
    let jump = r_type(StencilTarget::LinuxArm64, RelKind::Branch26, 0x1400_0000, "t").unwrap();
    let call = r_type(StencilTarget::LinuxArm64, RelKind::Branch26, 0x9400_0000, "t").unwrap();
    assert_eq!((jump, call), (R_AARCH64_JUMP26, R_AARCH64_CALL26));
}

#[test]
fn a_low_twelve_is_split_by_its_instruction() {
    // `add x8, x8, #0`
    let add = r_type(StencilTarget::LinuxArm64, RelKind::PageOff12, 0x9100_0108, "t").unwrap();
    // `ldr x8, [x8]`
    let ldr = r_type(StencilTarget::LinuxArm64, RelKind::PageOff12, 0xf940_0108, "t").unwrap();
    assert_eq!((add, ldr), (R_AARCH64_ADD_ABS_LO12_NC, R_AARCH64_LDST64_ABS_LO12_NC));
    // A `str`, which no pool reference is, is refused rather than guessed.
    assert!(r_type(StencilTarget::LinuxArm64, RelKind::PageOff12, 0xf900_0108, "t").is_err());
}

#[test]
fn a_kind_the_machine_does_not_have_is_refused_by_name() {
    for k in [RelKind::Rel32, RelKind::Pc32] {
        assert!(r_type(StencilTarget::LinuxArm64, k, 0, "t").is_err());
    }
    for k in [RelKind::Branch26, RelKind::Page21, RelKind::PageOff12] {
        assert!(r_type(StencilTarget::LinuxX86_64, k, 0, "t").is_err());
    }
    let of = |k| r_type(StencilTarget::LinuxX86_64, k, 0, "t").unwrap();
    assert_eq!(of(RelKind::Abs64), R_X86_64_64);
    assert_eq!(of(RelKind::Rel32), R_X86_64_PLT32);
    assert_eq!(of(RelKind::Pc32), R_X86_64_PC32);
}

#[test]
fn what_is_written_is_what_the_reader_reads() {
    // `b .` and `bl .`, so both branch types appear.
    let mut code = Vec::new();
    code.extend_from_slice(&0x1400_0000u32.to_le_bytes());
    code.extend_from_slice(&0x9400_0000u32.to_le_bytes());
    let sections = vec![text(code), data(".rodata", 3, 0, vec![0; 8])];
    let symbols = vec![
        symbol("f", Some((0, 0)), true),
        symbol("buri_rt_abort", None, true),
        symbol("pool", Some((1, 0)), false),
    ];
    let relocs = vec![
        Reloc { section: 0, offset: 0, kind: RelKind::Branch26, symbol: 2, addend: 0 },
        Reloc { section: 0, offset: 4, kind: RelKind::Branch26, symbol: 1, addend: 0 },
        Reloc { section: 1, offset: 0, kind: RelKind::Abs64, symbol: 0, addend: 3 },
    ];
    let bytes = stencil::elf::write(StencilTarget::LinuxArm64, &sections, &symbols, &relocs).unwrap();
    let obj = elfobj::read(&bytes).expect("the writer's output must read back");
    assert_eq!(obj.machine, elfobj::EM_AARCH64);
    assert_eq!(obj.text.len(), 8);
    assert_eq!(obj.text_relocs.len(), 2);
    // The local symbol was sorted in front of the two globals, and the relocations went with it.
    let jump = obj.text_relocs.first().expect("a first relocation");
    assert_eq!(jump.kind, elfobj::R_AARCH64_JUMP26);
    assert_eq!(obj.syms.get(jump.symbolnum as usize).map(|s| s.name.as_str()), Some("pool"));
    let call = obj.text_relocs.get(1).expect("a second relocation");
    assert_eq!(call.kind, elfobj::R_AARCH64_CALL26);
    assert_eq!(
        obj.syms.get(call.symbolnum as usize).map(|s| s.name.as_str()),
        Some("buri_rt_abort")
    );
    assert!(obj.syms.iter().any(|s| s.name == "f" && s.defined));
}

#[test]
fn a_written_object_reads_back_whole() {
    let sections = vec![
        text(vec![0x1f, 0x20, 0x03, 0xd5, 0xc0, 0x03, 0x5f, 0xd6]),
        data(".rodata", 4, 0, vec![1, 2, 3]),
        data(".bss", 14, 0x4000, vec![]),
    ];
    let symbols = vec![
        symbol("g", Some((0, 4)), true),
        symbol("p\u{e4}th", Some((1, 1)), false),
        symbol("stack", Some((2, 0)), true),
    ];
    let relocs =
        vec![Reloc { section: 0, offset: 4, kind: RelKind::Pc32, symbol: 1, addend: -4 }];
    let bytes = stencil::elf::write(StencilTarget::LinuxX86_64, &sections, &symbols, &relocs).unwrap();
    let obj = elfobj::read(&bytes).unwrap();
    assert_eq!(obj.machine, elfobj::EM_X86_64);
    assert_eq!(obj.text, vec![0x1f, 0x20, 0x03, 0xd5, 0xc0, 0x03, 0x5f, 0xd6]);
    let names: Vec<&str> = obj.syms.iter().map(|s| s.name.as_str()).collect();
    assert_eq!(names, vec!["", "p\u{e4}th", "g", "stack"]);
    let places: Vec<(u16, u64, bool)> =
        obj.syms.iter().map(|s| (s.sect, s.value, s.defined)).collect();
    assert_eq!(places, vec![(0, 0, false), (2, 1, true), (1, 4, true), (3, 0, true)]);
    assert_eq!(obj.text_relocs.len(), 1);
    let r = obj.text_relocs[0];
    assert_eq!((r.addr, r.kind, r.symbolnum, r.addend), (4, elfobj::R_X86_64_PC32, 1, -4));
    let others: Vec<(&str, u16, u64, usize, bool)> = obj
        .other_sections
        .iter()
        .map(|s| (s.name.as_str(), s.index, s.align, s.data.len(), s.executable))
        .collect();
    assert_eq!(others, vec![(".rodata", 2, 16, 3, false), (".bss", 3, 0x4000, 0, false)]);
}

#[test]
fn elf_encoding_is_deterministic() {
    let sections = vec![text(vec![0; 16])];
    let symbols = vec![symbol("a", Some((0, 0)), true), symbol("b", None, true)];
    let a = stencil::elf::write(StencilTarget::LinuxArm64, &sections, &symbols, &[]).unwrap();
    let b = stencil::elf::write(StencilTarget::LinuxArm64, &sections, &symbols, &[]).unwrap();
    assert_eq!(a, b);
}

#[test]
fn an_object_that_cannot_be_written_says_why() {
    let t = StencilTarget::LinuxArm64;
    assert_eq!(
        stencil::elf::write(t, &[], &[], &[]).unwrap_err(),
        "an ELF object needs at least one section"
    );
    assert_eq!(
        stencil::elf::write(t, &[data(".x", 16, 0, vec![])], &[], &[]).unwrap_err(),
        "section .x asks for 2^16 alignment; the maximum is 2^15"
    );
    assert_eq!(
        stencil::elf::write(t, &[data(".x", 0, 8, vec![1])], &[], &[]).unwrap_err(),
        "zero-fill section .x also carries bytes"
    );
    let code = [text(vec![0; 8])];
    let at = |section, offset, symbol| Reloc { section, offset, kind: RelKind::Branch26, symbol, addend: 0 };
    let one = [symbol("a", None, true)];
    assert_eq!(
        stencil::elf::write(t, &code, &one, &[at(1, 0, 0)]).unwrap_err(),
        "a relocation names section 1, which does not exist"
    );
    assert_eq!(
        stencil::elf::write(t, &code, &one, &[at(0, 5, 0)]).unwrap_err(),
        "a relocation at 0x5 is outside section .text (8 bytes)"
    );
    assert_eq!(
        stencil::elf::write(t, &code, &one, &[at(0, 4, 1)]).unwrap_err(),
        "a relocation names symbol 1, which does not exist"
    );
    assert_eq!(
        stencil::elf::write(t, &code, &[symbol("a", Some((3, 0)), true)], &[]).unwrap_err(),
        "symbol a is defined in a section that does not exist"
    );
    let low = Reloc { section: 0, offset: 0, kind: RelKind::PageOff12, symbol: 0, addend: 0 };
    assert_eq!(
        stencil::elf::write(t, &code, &one, &[low]).unwrap_err(),
        ".text+0x0: a low-12 relocation names 0x00000000, which is neither `add Xd, Xn, #imm12` nor `ldr Xt, [Xn, #imm12]`"
    );
}

#[test]
fn elfobj_foreign_bytes_are_refused() {
    assert!(elfobj::read(b"").is_err());
    assert!(elfobj::read(&[0u8; 64]).is_err());
    // A 32-bit ELF, which this reader has no business guessing at.
    let mut e = vec![0u8; 64];
    e.splice(..4, *b"\x7fELF");
    e[4] = 1;
    e[5] = 1;
    assert!(elfobj::read(&e).is_err());
}

#[test]
fn a_truncated_object_says_where_it_ends() {
    let sections = vec![text(vec![0; 16])];
    let bytes = stencil::elf::write(StencilTarget::LinuxArm64, &sections, &[], &[]).unwrap();
    let shoff = u64::from_le_bytes(bytes[40..48].try_into().unwrap());
    let cut = &bytes[..shoff as usize + 8];
    let e = elfobj::read(cut).err().unwrap();
    assert_eq!(e, format!("ELF object ends before offset 0x{:x}", shoff + 8));
}

#[test]
fn a_name_that_is_not_utf8_is_read_with_its_errors_replaced() {
    let sections = vec![text(vec![0; 4])];
    let symbols = vec![symbol("aQb", Some((0, 0)), true)];
    let mut bytes = stencil::elf::write(StencilTarget::LinuxArm64, &sections, &symbols, &[]).unwrap();
    let at = bytes.windows(4).position(|w| w == b"aQb\0").unwrap();
    bytes[at + 1] = 0xff;
    let obj = elfobj::read(&bytes).unwrap();
    assert_eq!(obj.syms[1].name, "a\u{fffd}b");
}

#[test]
fn a_name_is_read_as_far_as_its_null() {
    let sections = vec![text(vec![0; 4]), data(".data\0x", 0, 0, vec![1])];
    let symbols = vec![symbol("a\0b", Some((0, 0)), true), symbol("a", None, true)];
    let relocs =
        vec![Reloc { section: 0, offset: 0, kind: RelKind::Pc32, symbol: 1, addend: -4 }];
    let bytes = stencil::elf::write(StencilTarget::LinuxX86_64, &sections, &symbols, &relocs).unwrap();
    let obj = elfobj::read(&bytes).unwrap();
    let names: Vec<&str> = obj.syms.iter().map(|s| s.name.as_str()).collect();
    assert_eq!(names, vec!["", "a", "a"]);
    assert_eq!((obj.text_relocs[0].symbolnum, obj.text_relocs[0].addend), (2, -4));
    assert_eq!(obj.other_sections[0].name, ".data");
}

fn sized(name: &str, value: u64, size: u64) -> elfobj::Sym {
    elfobj::Sym { name: String::from(name), sect: 1, value, size, defined: true }
}

#[test]
fn functions_come_in_the_order_of_their_addresses() {
    let obj = elfobj::Obj {
        machine: elfobj::EM_AARCH64,
        text: vec![0; 20],
        text_relocs: vec![],
        syms: vec![
            sized("last", 16, 100),
            sized("b", 0, 8),
            sized("a", 0, 8),
            sized("unsized", 4, 0),
            sized(".Ltmp", 8, 4),
            sized("", 8, 4),
        ],
        other_sections: vec![],
    };
    assert_eq!(
        elfobj::functions(&obj),
        vec![
            (String::from("a"), 0, 8),
            (String::from("b"), 0, 8),
            (String::from("last"), 16, 20),
        ]
    );
}

#[test]
fn foreign_mach_o_bytes_are_refused() {
    assert!(machobj::read(b"").is_err());
    assert!(machobj::read(&[0u8; 64]).is_err());
}

fn name16(s: &[u8]) -> Vec<u8> {
    let mut v = s.to_vec();
    v.resize(16, 0);
    v
}

/// A Mach-O object with one section of code and two symbols.
fn mach_o(name: &[u8]) -> Vec<u8> {
    let put32 = |v: &mut Vec<u8>, x: u32| v.extend_from_slice(&x.to_le_bytes());
    let put64 = |v: &mut Vec<u8>, x: u64| v.extend_from_slice(&x.to_le_bytes());
    let code = [0xc0u8, 0x03, 0x5f, 0xd6, 0xc0, 0x03, 0x5f, 0xd6];
    let commands = 72 + 80 + 24;
    let text_at = 32 + commands as u32;
    let syms_at = text_at + code.len() as u32;
    let strings_at = syms_at + 2 * 16;
    let mut strings = vec![0u8];
    strings.extend_from_slice(name);
    strings.push(0);
    let second = strings.len() as u32;
    strings.extend_from_slice(b"_g\0");
    let mut v = Vec::new();
    put32(&mut v, 0xfeed_facf);
    put32(&mut v, 0x0100_000c);
    put32(&mut v, 0);
    put32(&mut v, 1);
    put32(&mut v, 2);
    put32(&mut v, commands as u32);
    put32(&mut v, 0);
    put32(&mut v, 0);
    put32(&mut v, 0x19);
    put32(&mut v, 72 + 80);
    v.extend_from_slice(&name16(b""));
    put64(&mut v, 0);
    put64(&mut v, 8);
    put64(&mut v, text_at as u64);
    put64(&mut v, 8);
    put32(&mut v, 7);
    put32(&mut v, 7);
    put32(&mut v, 1);
    put32(&mut v, 0);
    v.extend_from_slice(&name16(b"__text"));
    v.extend_from_slice(&name16(b"__TEXT"));
    put64(&mut v, 0);
    put64(&mut v, 8);
    put32(&mut v, text_at);
    put32(&mut v, 2);
    put32(&mut v, 0);
    put32(&mut v, 0);
    put32(&mut v, 0x8000_0400);
    put32(&mut v, 0);
    put32(&mut v, 0);
    put32(&mut v, 0);
    put32(&mut v, 2);
    put32(&mut v, 24);
    put32(&mut v, syms_at);
    put32(&mut v, 2);
    put32(&mut v, strings_at);
    put32(&mut v, strings.len() as u32);
    v.extend_from_slice(&code);
    for (strx, value) in [(1u32, 4u64), (second, 0)] {
        put32(&mut v, strx);
        v.push(0x0f);
        v.push(1);
        v.extend_from_slice(&[0, 0]);
        put64(&mut v, value);
    }
    v.extend_from_slice(&strings);
    v
}

#[test]
fn a_mach_o_object_is_read() {
    let obj = machobj::read(&mach_o(b"_f")).unwrap();
    assert_eq!(obj.text.len(), 8);
    let names: Vec<(&str, u64, bool)> =
        obj.syms.iter().map(|s| (s.name.as_str(), s.value, s.defined)).collect();
    assert_eq!(names, vec![("_f", 4, true), ("_g", 0, true)]);
    assert_eq!(
        machobj::functions(&obj),
        vec![(String::from("_g"), 0, 4), (String::from("_f"), 4, 8)]
    );
    let odd = machobj::read(&mach_o(b"_\xfe")).unwrap();
    assert_eq!(odd.syms[0].name, "_\u{fffd}");
}
