use stencil::a64::{Asm, Shim, B, CBNZ_X, CBZ_W, CBZ_X, LDRB_W_UIMM, LDRH_W_UIMM, LDR_W_UIMM, LDR_X_UIMM, SP};
use stencil::abi::StencilTarget;
use stencil::entry::{
    load_tag, load_tag_x86_64, program_entry, program_entry_arm64, test_entry, MainResult,
    GUARD_BYTES, STACK_ALIGN, STACK_BYTES, STACK_SYMBOL, STACK_USABLE,
};
use stencil::object::RelKind;
use stencil::region::Target;
use stencil::x86::{X86, RAX, RDI, RDX, RSI, RSP};

const ARM64: StencilTarget = StencilTarget::MacosArm64;
const X86_64: StencilTarget = StencilTarget::LinuxX86_64;

fn words(a: Asm) -> Vec<u32> {
    let (bytes, _) = a.finish();
    bytes
        .chunks_exact(4)
        .map(|c| u32::from_le_bytes([c[0], c[1], c[2], c[3]]))
        .collect()
}

fn kind(k: RelKind) -> &'static str {
    match k {
        RelKind::Branch26 => "Branch26",
        RelKind::Abs64 => "Abs64",
        RelKind::Page21 => "Page21",
        RelKind::PageOff12 => "PageOff12",
        RelKind::Rel32 => "Rel32",
        RelKind::Pc32 => "Pc32",
    }
}

fn names(s: Shim) -> Vec<(&'static str, String)> {
    s.relocs
        .into_iter()
        .map(|(_, k, t, _)| {
            let n = match t {
                Target::Symbol(s) => s,
                other => format!("{other:?}"),
            };
            (kind(k), n)
        })
        .collect()
}

#[test]
fn a_small_immediate_is_one_movz() {
    let mut a = Asm::new();
    a.mov_imm(0, 5);
    assert_eq!(words(a), vec![0xd280_00a0]);
}

#[test]
fn zero_is_a_movz_of_zero() {
    let mut a = Asm::new();
    a.mov_imm(0, 0);
    assert_eq!(words(a), vec![0xd280_0000]);
}

#[test]
fn a_wide_immediate_is_a_movz_and_three_movks() {
    let mut a = Asm::new();
    a.mov_imm(3, 0x7fff_ffff_ffff_ffff);
    assert_eq!(words(a), vec![0xd29f_ffe3, 0xf2bf_ffe3, 0xf2df_ffe3, 0xf2ef_ffe3]);
}

#[test]
fn the_fixed_instructions_are_the_bytes_they_have_to_be() {
    let mut a = Asm::new();
    a.ret();
    a.stp_fp_lr();
    a.ldp_fp_lr();
    a.mov_reg(0, 9);
    assert_eq!(
        words(a),
        vec![0xd65f_03c0, 0xa9bf_7bfd, 0x9100_03fd, 0xa8c1_7bfd, 0xaa09_03e0]
    );
}

#[test]
fn a_patched_cbz_carries_the_word_displacement() {
    let mut a = Asm::new();
    let p = a.cbz(0);
    a.ret();
    a.ret();
    a.ret();
    a.here(p);
    let got = words(a);
    assert_eq!(got.first().copied(), Some(CBZ_W | (4 << 5)));
    assert_eq!(got.first().copied().map(|w| (w >> 5) & 0x7_ffff), Some(4));
}

#[test]
fn a_patched_b_carries_the_word_displacement() {
    let mut a = Asm::new();
    let p = a.b();
    a.here(p);
    assert_eq!(words(a), vec![B | 1]);
}

#[test]
fn the_test_shim_relocates_what_it_calls_in_order() {
    let a = test_entry(ARM64, &[String::from("t0"), String::from("t1")]);
    assert_eq!(
        names(a),
        vec![
            ("Branch26", String::from("buri_rt_argv_init")),
            ("Page21", String::from(STACK_SYMBOL)),
            ("PageOff12", String::from(STACK_SYMBOL)),
            ("Branch26", String::from("mprotect")),
            ("Branch26", String::from("abort")),
            ("Branch26", String::from("buri_rt_test_enter")),
            ("Page21", String::from(STACK_SYMBOL)),
            ("PageOff12", String::from(STACK_SYMBOL)),
            ("Branch26", String::from("t0")),
            ("Branch26", String::from("buri_rt_test_enter")),
            ("Page21", String::from(STACK_SYMBOL)),
            ("PageOff12", String::from(STACK_SYMBOL)),
            ("Branch26", String::from("t1")),
            ("Branch26", String::from("buri_rt_flush")),
        ]
    );
}

#[test]
fn an_empty_suite_is_still_a_main() {
    let a = test_entry(ARM64, &[]);
    assert_eq!(
        names(a),
        vec![
            ("Branch26", String::from("buri_rt_argv_init")),
            ("Page21", String::from(STACK_SYMBOL)),
            ("PageOff12", String::from(STACK_SYMBOL)),
            ("Branch26", String::from("mprotect")),
            ("Branch26", String::from("abort")),
            ("Branch26", String::from("buri_rt_flush")),
        ]
    );
}

#[test]
fn a_main_without_a_result_never_reads_the_return_area() {
    let a = program_entry(ARM64, "buri$main", None);
    assert_eq!(
        names(a),
        vec![
            ("Branch26", String::from("buri_rt_argv_init")),
            ("Page21", String::from(STACK_SYMBOL)),
            ("PageOff12", String::from(STACK_SYMBOL)),
            ("Branch26", String::from("mprotect")),
            ("Branch26", String::from("abort")),
            ("Page21", String::from(STACK_SYMBOL)),
            ("PageOff12", String::from(STACK_SYMBOL)),
            ("Branch26", String::from("buri$main")),
            ("Branch26", String::from("buri_rt_flush")),
        ]
    );
}

#[test]
fn a_failing_main_writes_the_message_before_it_flushes() {
    let a = program_entry(
        ARM64,
        "buri$main",
        Some(MainResult { tag: (0, 4), niche: None, message: (8, 16, 24) }),
    );
    assert_eq!(
        names(a),
        vec![
            ("Branch26", String::from("buri_rt_argv_init")),
            ("Page21", String::from(STACK_SYMBOL)),
            ("PageOff12", String::from(STACK_SYMBOL)),
            ("Branch26", String::from("mprotect")),
            ("Branch26", String::from("abort")),
            ("Page21", String::from(STACK_SYMBOL)),
            ("PageOff12", String::from(STACK_SYMBOL)),
            ("Branch26", String::from("buri$main")),
            ("Branch26", String::from("buri_rt_host_stderr_eprintln")),
            ("Branch26", String::from("buri_rt_flush")),
            ("Branch26", String::from("buri_rt_flush")),
        ]
    );
}

#[test]
fn the_niche_test_is_the_opposite_of_the_tag_test() {
    let niche = program_entry_arm64(
        "m",
        Some(MainResult { tag: (0, 8), niche: Some(8), message: (0, 8, 16) }),
    );
    let tagged = program_entry_arm64(
        "m",
        Some(MainResult { tag: (0, 8), niche: None, message: (8, 16, 24) }),
    );
    // The only compare-and-branch on a whole register in either block is the one asked about.
    let branch = |a: Asm| {
        words(a)
            .into_iter()
            .map(|w| w & 0xff00_0000)
            .find(|op| *op == CBZ_X || *op == CBNZ_X)
    };
    assert_eq!(branch(niche), Some(CBNZ_X));
    assert_eq!(branch(tagged), Some(CBZ_X));
}

#[test]
fn each_tag_width_has_its_own_load() {
    let of = |w: u32| {
        let mut a = Asm::new();
        load_tag(&mut a, 9, 0, 8, w);
        words(a).first().copied().unwrap_or(0) & 0xffc0_0000
    };
    assert_eq!(of(1), LDRB_W_UIMM);
    assert_eq!(of(2), LDRH_W_UIMM);
    assert_eq!(of(4), LDR_W_UIMM);
    assert_eq!(of(8), LDR_X_UIMM);
}

#[test]
fn the_glue_stubs_bridge_is_the_bytes_it_has_to_be() {
    let mut a = Asm::new();
    a.str_pre16(30, SP);
    a.sub_imm(SP, SP, 512);
    a.str_off(0, SP, 0);
    a.add_imm(0, SP, 0);
    a.bl_words(4);
    a.add_imm(SP, SP, 512);
    a.ldr_post16(30, SP);
    a.br_reg(1);
    assert_eq!(
        words(a),
        vec![
            0xf81f_0ffe, // str  x30, [sp, #-16]!
            0xd108_03ff, // sub  sp, sp, #512
            0xf900_03e0, // str  x0, [sp]
            0x9100_03e0, // mov  x0, sp
            0x9400_0004, // bl   .+16
            0x9108_03ff, // add  sp, sp, #512
            0xf841_07fe, // ldr  x30, [sp], #16
            0xd61f_0020, // br   x1
        ]
    );
}

#[test]
fn the_stack_is_aligned_for_the_widest_scalar_and_for_a_page() {
    assert_eq!(1u64 << STACK_ALIGN, 16 * 1024);
    assert_eq!(STACK_BYTES % (1u64 << STACK_ALIGN), 0);
}

#[test]
fn the_guard_is_a_whole_number_of_pages_at_the_top_of_the_block() {
    assert_eq!(STACK_BYTES, STACK_USABLE + GUARD_BYTES);
    assert_eq!(STACK_USABLE % (1u64 << STACK_ALIGN), 0);
    assert_eq!(GUARD_BYTES % (1u64 << STACK_ALIGN), 0);
}

#[test]
fn the_x86_64_encoders_are_the_bytes_they_have_to_be() {
    let mut a = X86::new();
    a.push_rbp();
    a.sub_imm(RSP, 512);
    a.str_off(RDI, RSP, 8);
    a.mov_reg(RDI, RSP);
    a.ldr(RSI, RAX, 3);
    a.and_reg(RDX, RAX);
    a.add_imm(RSP, 512);
    a.pop_rbp();
    a.jmp_reg(RSI);
    a.ret();
    let (bytes, _) = a.finish();
    assert_eq!(
        bytes,
        vec![
            0x55, // push  %rbp
            0x48, 0x81, 0xec, 0x00, 0x02, 0x00, 0x00, // sub   $512, %rsp
            0x48, 0x89, 0xbc, 0x24, 0x08, 0x00, 0x00, 0x00, // mov  %rdi, 8(%rsp)
            0x48, 0x89, 0xe7, // mov   %rsp, %rdi
            0x48, 0x8b, 0xb0, 0x03, 0x00, 0x00, 0x00, // mov  3(%rax), %rsi
            0x48, 0x21, 0xc2, // and   %rax, %rdx
            0x48, 0x81, 0xc4, 0x00, 0x02, 0x00, 0x00, // add   $512, %rsp
            0x5d, // pop   %rbp
            0xff, 0xe6, // jmp   *%rsi
            0xc3, // ret
        ]
    );
}

#[test]
fn a_stack_pointer_base_takes_a_sib_byte() {
    let mut a = X86::new();
    a.str_off(RDI, RSP, 8);
    a.str_off(RDI, RAX, 8);
    let (bytes, _) = a.finish();
    assert_eq!(bytes.get(0..4), Some(&[0x48, 0x89, 0xbc, 0x24][..]));
    assert_eq!(bytes.get(8..11), Some(&[0x48, 0x89, 0xb8][..]));
    assert_eq!(bytes.len(), 8 + 7);
}

#[test]
fn an_immediate_is_five_bytes_until_it_needs_ten() {
    let mut a = X86::new();
    a.mov_imm(RAX, 1);
    a.mov_imm(RAX, 0x7fff_ffff_ffff_ffff);
    let (bytes, _) = a.finish();
    assert_eq!(bytes.get(0..5), Some(&[0xb8, 0x01, 0x00, 0x00, 0x00][..]));
    assert_eq!(bytes.get(5..7), Some(&[0x48, 0xb8][..]));
    assert_eq!(bytes.len(), 5 + 10);
}

#[test]
fn the_x86_64_test_shim_relocates_what_it_calls_in_order() {
    let a = test_entry(X86_64, &[String::from("t0"), String::from("t1")]);
    assert_eq!(
        names(a),
        vec![
            ("Rel32", String::from("buri_rt_argv_init")),
            ("Pc32", String::from(STACK_SYMBOL)),
            ("Rel32", String::from("mprotect")),
            ("Rel32", String::from("abort")),
            ("Rel32", String::from("buri_rt_test_enter")),
            ("Pc32", String::from(STACK_SYMBOL)),
            ("Rel32", String::from("t0")),
            ("Rel32", String::from("buri_rt_test_enter")),
            ("Pc32", String::from(STACK_SYMBOL)),
            ("Rel32", String::from("t1")),
            ("Rel32", String::from("buri_rt_flush")),
        ]
    );
}

#[test]
fn the_two_machines_shims_call_the_same_symbols_in_the_same_order() {
    for r in [
        None,
        Some(MainResult { tag: (0, 4), niche: None, message: (8, 16, 24) }),
        Some(MainResult { tag: (0, 8), niche: Some(8), message: (0, 8, 16) }),
    ] {
        let arm = names(program_entry(ARM64, "m", r.clone()));
        let x86 = names(program_entry(X86_64, "m", r));
        // A64 spells an address as an adjacent pair and x86-64 as one displacement.
        let arm: Vec<String> = arm
            .into_iter()
            .filter(|(k, _)| *k != "PageOff12")
            .map(|(_, n)| n)
            .collect();
        let x86: Vec<String> = x86.into_iter().map(|(_, n)| n).collect();
        assert_eq!(arm, x86);
    }
}

#[test]
fn every_x86_64_relocation_is_a_field_at_the_end_of_its_instruction() {
    let s = test_entry(X86_64, &[String::from("t0")]);
    assert!(!s.relocs.is_empty());
    for (at, _, _, addend) in &s.relocs {
        assert_eq!(*addend, -4);
        assert!(at + 4 <= s.bytes.len() as u64, "a field at {at} runs past the shim");
        // The four bytes of a field are left zero: the linker writes them.
        let field = s.bytes.get(*at as usize..*at as usize + 4);
        assert_eq!(field, Some(&[0u8, 0, 0, 0][..]));
    }
}

#[test]
fn every_a64_relocation_is_of_a_whole_word() {
    for s in [
        test_entry(StencilTarget::LinuxArm64, &[]),
        test_entry(StencilTarget::LinuxArm64, &[String::from("t0"), String::from("t1")]),
        program_entry(StencilTarget::MacosArm64, "m", None),
    ] {
        assert!(!s.relocs.is_empty());
        for (at, _, _, addend) in &s.relocs {
            assert_eq!((at % 4, *addend), (0, 0));
            assert!(at + 4 <= s.bytes.len() as u64);
        }
    }
}

#[test]
fn the_x86_64_shim_keeps_the_machine_stack_aligned() {
    for bytes in [
        program_entry(X86_64, "m", None).bytes,
        program_entry(
            X86_64,
            "m",
            Some(MainResult { tag: (0, 4), niche: None, message: (8, 16, 24) }),
        )
        .bytes,
        test_entry(X86_64, &[String::from("t0")]).bytes,
    ] {
        assert_eq!(bytes.first(), Some(&0x55), "the shim does not open with `push %rbp`");
        for w in bytes.windows(3) {
            assert_ne!(w, [0x48, 0x81, 0xec], "the shim moves rsp");
            assert_ne!(w, [0x48, 0x81, 0xc4], "the shim moves rsp");
        }
        for (i, b) in bytes.iter().enumerate() {
            if *b == 0xc3 && i > 0 {
                assert_eq!(bytes.get(i - 1), Some(&0x5d), "a `ret` with no `pop %rbp`");
            }
        }
    }
}

#[test]
fn the_x86_64_niche_test_is_the_opposite_of_the_tag_test() {
    // `48 85 f6` is `test %rsi, %rsi`; the two bytes behind it are the condition.
    let branch = |s: Shim| {
        s.bytes
            .windows(5)
            .find(|w| w.get(0..3) == Some(&[0x48, 0x85, 0xf6][..]))
            .and_then(|w| w.get(3..5).map(<[u8]>::to_vec))
    };
    let niche = program_entry(
        X86_64,
        "m",
        Some(MainResult { tag: (0, 8), niche: Some(8), message: (0, 8, 16) }),
    );
    let tagged = program_entry(
        X86_64,
        "m",
        Some(MainResult { tag: (0, 8), niche: None, message: (8, 16, 24) }),
    );
    assert_eq!(branch(niche), Some(vec![0x0f, 0x85]));
    assert_eq!(branch(tagged), Some(vec![0x0f, 0x84]));
}

#[test]
fn each_x86_64_tag_width_has_its_own_load() {
    let of = |w: u32| {
        let mut a = X86::new();
        load_tag_x86_64(&mut a, RSI, RAX, 8, w);
        let (b, _) = a.finish();
        b.get(0..2).map(<[u8]>::to_vec)
    };
    assert_eq!(of(1), Some(vec![0x0f, 0xb6])); // movzbl
    assert_eq!(of(2), Some(vec![0x0f, 0xb7])); // movzwl
    assert_eq!(of(4), Some(vec![0x8b, 0xb0])); // mov r32
    assert_eq!(of(8), Some(vec![0x48, 0x8b])); // mov r64
}
