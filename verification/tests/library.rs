use stencil::library::{
    is_c_identifier, outlining_artifact, refuse_hole_name, refuse_stencil_name, ConstRef, Hole,
    HoleKind, Index, Library, Site, SiteKind, Stencil, FOLD_PLAIN, FOLD_SUFFIXES,
    FOLD_SUFFIXES_LEN,
};

fn sample() -> Library {
    let s = Stencil {
        name: String::from("bin/add/i64/ff/f"),
        code: vec![1, 2, 3, 4, 5, 6, 7, 8],
        holes: vec![Hole {
            name: String::from("_JIT_A"),
            kind: HoleKind::Imm32,
            sites: vec![Site { off: 0, kind: SiteKind::Adrp }],
            pairs: vec![(0, 4)],
            branches: vec![8],
            conds: vec![],
            lo12: vec![(4, 8)],
        }],
        consts: vec![9, 9, 9, 9, 9, 9, 9, 9],
        consts_align: 16,
        const_refs: vec![ConstRef { field: 2, insn_end: 6, at: 0 }],
        tail: Some(0),
    };
    let mut index = Index::new();
    index.insert(s.name.clone(), 0);
    Library { stencils: vec![s], index, config: String::from("r3") }
}

#[test]
fn the_plain_fold_slot_is_the_plain_fold_suffix() {
    assert_eq!(FOLD_SUFFIXES.get(FOLD_PLAIN), Some(&"+fold"));
    assert_eq!(FOLD_SUFFIXES.len(), FOLD_SUFFIXES_LEN);
}

#[test]
fn fold_twins_are_resolved_into_their_own_slots() {
    let lib = sample();
    assert_eq!(lib.at("bin/add/i64/ff/f").map(|(i, _)| i), Some(0));
    for k in 0..FOLD_SUFFIXES_LEN {
        assert!(lib.fold_twin(0, k).is_none(), "slot {k}");
    }

    let mut with_twins = sample();
    for suffix in FOLD_SUFFIXES.iter() {
        let mut twin = with_twins.stencils.first().cloned().expect("the sample stencil");
        twin.name = format!("bin/add/i64/ff/f{suffix}");
        let at = with_twins.stencils.len() as u32;
        with_twins.index.insert(twin.name.clone(), at);
        with_twins.stencils.push(twin);
    }
    for (k, suffix) in FOLD_SUFFIXES.iter().enumerate() {
        assert_eq!(
            with_twins.fold_twin(0, k).map(|s| s.name.as_str()),
            Some(format!("bin/add/i64/ff/f{suffix}").as_str())
        );
    }
    for (i, st) in with_twins.stencils.iter().enumerate().skip(1) {
        for (k, suffix) in FOLD_SUFFIXES.iter().enumerate() {
            let want = with_twins.index.contains_key(&format!("{}{suffix}", st.name));
            assert_eq!(with_twins.fold_twin(i, k).is_some(), want, "{i} {k}");
        }
    }
    // Past the end is `None` rather than a panic.
    assert!(with_twins.fold_twin(999, 0).is_none());
    assert!(with_twins.fold_twin(0, FOLD_SUFFIXES_LEN).is_none());
}

#[test]
fn a_library_survives_a_round_trip() {
    let lib = sample();
    let back = Library::decode(&lib.encode()).unwrap();
    assert_eq!(back.config, "r3");
    assert_eq!(back.stencils.len(), 1);
    let s = back.get("bin/add/i64/ff/f").unwrap();
    assert_eq!(s.code, vec![1, 2, 3, 4, 5, 6, 7, 8]);
    assert_eq!(s.tail, Some(0));
    let h = s.holes.first().unwrap();
    assert_eq!(h.name, "_JIT_A");
    assert_eq!(h.kind, HoleKind::Imm32);
    assert_eq!(h.pairs, vec![(0, 4)]);
    assert_eq!(h.branches, vec![8]);
    assert_eq!(h.lo12, vec![(4, 8)]);
    assert_eq!(s.consts, vec![9, 9, 9, 9, 9, 9, 9, 9]);
    assert_eq!(s.consts_align, 16);
    assert_eq!(s.const_refs.len(), 1);
    assert_eq!(s.const_refs.first().map(|c| (c.field, c.insn_end, c.at)), Some((2, 6, 0)));
    // The relocation records are working notes and are not carried.
    assert!(h.sites.is_empty());
}

#[test]
fn library_foreign_bytes_are_refused() {
    assert!(Library::decode(b"not a library at all").is_err());
    assert!(Library::decode(&[]).is_err());
}

#[test]
fn a_key_that_is_not_utf8_is_refused() {
    let mut bytes = sample().encode();
    let at = bytes.windows(2).position(|w| w == b"r3").unwrap();
    bytes[at] = 0xff;
    assert_eq!(
        Library::decode(&bytes).unwrap_err(),
        "stencil library: invalid utf-8 sequence of 1 bytes from index 0"
    );
}

#[test]
fn a_library_that_ends_early_is_refused() {
    let bytes = sample().encode();
    for n in 0..bytes.len() {
        assert!(Library::decode(&bytes[..n]).is_err(), "{n}");
    }
}

#[test]
fn the_hot_cold_split_that_shipped_is_refused() {
    let e = refuse_hole_name("st_decref_drop", "st_decref_drop.cold.1")
        .expect("a hole named after a hot/cold split must be refused");
    assert!(e.contains("st_decref_drop.cold.1"), "{e}");
    assert!(e.contains("a hot/cold split of it"), "{e}");
    let rule = "every hole must be a symbol the source declared";
    assert!(e.contains(rule), "{e}");
    let e = refuse_stencil_name("st_decref_drop.cold.1")
        .expect("a stencil that is half of one must be refused");
    let rule = "every stencil must be a function the source declared";
    assert!(e.contains(rule), "{e}");
}

#[test]
fn every_outlining_family_is_named_rather_than_lumped_together() {
    let cases = [
        ("st_x.cold", "a hot/cold split of it"),
        ("st_x.cold.3", "a hot/cold split of it"),
        ("st_x.unlikely.0", "a cold-section split of it"),
        ("st_x.part.0", "a partial inline of it"),
        ("st_x.isra.0", "an argument-shape clone of it"),
        ("st_x.constprop.0", "a constant-propagation clone of it"),
        ("st_x.specialized.1", "a specialisation of it"),
        ("st_x.resume", "a coroutine funclet of it"),
        ("st_x.destroy", "a coroutine funclet of it"),
        ("st_x.cleanup", "a coroutine funclet of it"),
        ("st_x.llvm.98765", "an internalising rename of it"),
        ("st_x.lto_priv.0", "an LTO privatisation of it"),
        ("OUTLINED_FUNCTION_0", "a machine-outliner fragment"),
        // Not in the table, and still refused: the `.` is the proof.
        ("st_x.whatever_comes_next.2", "a name the compiler invented"),
    ];
    for (name, what) in cases {
        assert_eq!(outlining_artifact(name), Some(what), "{name}");
    }
}

#[test]
fn the_names_holes_are_really_bound_to_all_pass() {
    for name in [
        "JIT_A",
        "JIT_CONT",
        "JIT_CONT0",
        "_JIT_A",
        "buri_rt_alloc",
        "buri_rt_i128_divmod",
        "buri_rt_test_fail_compared",
        "memcpy",
        "__divti3",
        "__udivti3",
        "",
        ".LCPI0_0",
        ".Lswitch.table.st_x",
    ] {
        assert_eq!(outlining_artifact(name), None, "{name}");
        assert!(refuse_hole_name("st_x", name).is_none(), "{name}");
    }
}

#[test]
fn library_encoding_is_deterministic() {
    let lib = sample();
    assert_eq!(lib.encode(), lib.encode());
    assert_eq!(sample().encode(), sample().encode());
}

#[test]
fn a_library_counts_the_bytes_of_its_code() {
    assert_eq!(sample().bytes(), 8);
    assert_eq!(Library::default().bytes(), 0);
}

#[test]
fn a_name_of_the_source_is_an_identifier() {
    assert!(is_c_identifier("st_x9"));
    assert!(is_c_identifier("_a"));
    assert!(!is_c_identifier("9a"));
    assert!(!is_c_identifier(""));
    assert!(!is_c_identifier("a.b"));
}

#[test]
fn only_the_arm_that_both_twins_end_on_is_elided() {
    let mut lib = sample();
    assert!(lib.elides("bin/add/i64/ff/f", "_JIT_A"));
    assert!(!lib.elides("bin/add/i64/ff/f", "_JIT_B"));
    assert!(!lib.elides("bin/sub/i64/ff/f", "_JIT_A"));
    let mut twin = lib.stencils[0].clone();
    twin.name = String::from("bin/add/i64/ff/f+fold");
    twin.tail = None;
    lib.index.insert(twin.name.clone(), 1);
    lib.stencils.push(twin);
    assert!(!lib.elides("bin/add/i64/ff/f", "_JIT_A"));
}
