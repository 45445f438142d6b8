use stencil::region::{is_pool_handle, Region, RelocKind, Target};

#[test]
fn one_datum_is_pooled_once() {
    let mut r = Region::new();
    let a = r.pool_u64(7);
    let b = r.pool_u64(7);
    let c = r.pool_u64(8);
    assert_eq!(a, b);
    assert_ne!(a, c);
}

#[test]
fn the_pool_is_its_own_section() {
    let mut r = Region::new();
    r.put(&[0xaa; 6]);
    let s = r.pool_bytes(b"hi");
    let out = r.finish();
    assert!(out.pool_relocs.is_empty());
    assert_eq!(out.code.len(), 6);
    assert_eq!(out.pool.get(0..2), Some(&b"hi"[..]));
    assert_eq!(s & !(1 << 40), 0);
}

#[test]
fn pool_targets_become_relocations() {
    let mut r = Region::new();
    r.put(&[0; 8]);
    r.pool_bytes(b"leading bytes");
    let here = r.pool_bytes(b"abcd");
    r.pool_target(Target::Symbol(String::from("buri_rt_flush")));
    r.pool_target(Target::Here(here & !(1 << 40)));
    let out = r.finish();
    assert_eq!(out.pool_relocs.len(), 2);
    assert_eq!(out.pool_relocs.first().map(|x| x.kind), Some(RelocKind::Abs64));
    assert_eq!(out.pool_relocs.first().map(|x| x.addend), Some(0));
    assert_ne!(here & !(1 << 40), 0);
    assert_eq!(out.pool_relocs.get(1).map(|x| x.addend), Some((here & !(1 << 40)) as i64));
    let slot = out.pool_relocs.get(1).map(|x| x.at).unwrap_or(0) as usize;
    let w = out.pool.get(slot..slot + 8).map(|b| {
        let mut a = [0u8; 8];
        a.copy_from_slice(b);
        u64::from_le_bytes(a)
    });
    assert_eq!(w, Some(0));
}

#[test]
fn a_handle_is_told_from_an_address() {
    let mut r = Region::new();
    let h = r.pool_u64(1);
    assert!(is_pool_handle(h));
    assert!(!is_pool_handle(64));
}

#[test]
fn slots_are_aligned_and_apart() {
    let mut r = Region::new();
    r.pool_bytes(b"abc");
    let a = r.pool_u64(1) & !(1 << 40);
    let b = r.pool_u64(2) & !(1 << 40);
    assert_eq!((a, b), (8, 16));
    let out = r.finish();
    assert_eq!(out.pool[8..16], 1u64.to_le_bytes());
    assert_eq!(out.pool[16..24], 2u64.to_le_bytes());
}

#[test]
fn a_word_past_the_end_is_zero_and_is_not_written() {
    let mut r = Region::new();
    r.put(&[1, 0, 0, 0]);
    r.set_word(4, 7);
    assert_eq!(r.word_at(0), 1);
    assert_eq!(r.word_at(4), 0);
    r.set_word(0, 0xd503_201f);
    assert_eq!(r.word_at(0), 0xd503_201f);
    r.align_code(4);
    assert_eq!(r.code_addr(), 4);
    r.put(&[9]);
    r.align_code(4);
    assert_eq!(r.code_addr(), 8);
}

#[test]
fn what_was_pooled_stays_through_later_calls() {
    const T: u64 = 1 << 40;
    let mut r = Region::new();
    assert_eq!((r.pool_u64(7), r.pool_u64(7), r.pool_u64(8)), (T, T, T | 8));
    let text = r.pool_bytes(b"text") & !T;
    let by_handle = r.pool_target(Target::Here(T | 8)) & !T;
    let by_offset = r.pool_target(Target::Here(8)) & !T;
    let name = r.pool_target(Target::Symbol(String::from("f"))) & !T;
    let again = r.pool_target(Target::Symbol(String::from("f"))) & !T;
    assert_ne!(name, again);
    r.put(&[1, 2, 3]);
    r.align_code(4);
    r.set_word(0, 9);
    assert_eq!(r.pool_u64(7), T);
    r.pool_bytes(b"more");
    r.pool_u64(9);
    let out = r.finish();
    assert_eq!(out.pool[0..8], 7u64.to_le_bytes());
    assert_eq!(out.pool[8..16], 8u64.to_le_bytes());
    assert_eq!(out.pool[text as usize..text as usize + 4], *b"text");
    let there = |at: u64| out.pool_relocs.iter().filter(move |x| x.at == at).collect::<Vec<_>>();
    assert!(there(0).is_empty() && there(8).is_empty());
    for at in [by_handle, by_offset] {
        assert_eq!(there(at).len(), 1);
        assert_eq!((&there(at)[0].target, there(at)[0].addend), (&Target::Pool, 8));
        assert_eq!(out.pool[at as usize..at as usize + 8], [0; 8]);
    }
    for at in [name, again] {
        assert_eq!(there(at).len(), 1);
        assert_eq!(there(at)[0].target, Target::Symbol(String::from("f")));
    }
}
