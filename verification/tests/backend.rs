use stencil::abi::StencilTarget;
use stencil::backend::{
    available, available_for, host_stencil_target, main_result, supported, unavailable_reason, Arch,
    Blob, Host, Platform, Stencil, Target,
};
use stencil::entry::AVAILABLE_X86_64;
use stencil::library::Library;

const HOSTS: [Host; 6] = [
    Host { platform: Some(Platform::Macos), arch: Some(Arch::Arm64) },
    Host { platform: Some(Platform::Macos), arch: Some(Arch::X86_64) },
    Host { platform: Some(Platform::Linux), arch: Some(Arch::Arm64) },
    Host { platform: Some(Platform::Linux), arch: Some(Arch::X86_64) },
    Host { platform: None, arch: Some(Arch::Arm64) },
    Host { platform: None, arch: None },
];

fn blob(config: &str, digit: char) -> Blob {
    let mut l = Library::default();
    l.config = String::from(config);
    Blob { bytes: l.encode(), digest: std::iter::repeat(digit).take(64).collect() }
}

fn full() -> Stencil {
    Stencil {
        macos_arm64: blob("macos", 'a'),
        linux_arm64: blob("linux", 'b'),
        linux_x86_64: blob("x86", 'c'),
    }
}

#[test]
fn the_backend_is_named_in_every_key_it_produces() {
    assert_eq!(Stencil::default().name(), "stencil");
}

#[test]
fn the_identity_is_the_librarys_hash() {
    for s in [Stencil::default(), full()] {
        let id = s.identity();
        assert!(id.starts_with("stencil "), "{id}");
        // One digest per target, space-separated after the name.
        assert_eq!(id.len(), "stencil".len() + StencilTarget::ALL.len() * (1 + 64));
    }
}

#[test]
fn the_libraries_are_indexed_by_their_own_order() {
    for (i, t) in StencilTarget::ALL.iter().enumerate() {
        assert_eq!(StencilTarget::ALL.iter().position(|x| x == t), Some(i));
    }
    // And no two targets share a blob.
    let s = full();
    for a in StencilTarget::ALL {
        for b in StencilTarget::ALL {
            if a != b && available_for(&s, a) {
                assert_ne!(s.blob(a).digest, s.blob(b).digest, "{} and {}", a.slug(), b.slug());
            }
        }
    }
}

#[test]
fn the_library_matches_its_availability() {
    for s in [Stencil::default(), full()] {
        for t in StencilTarget::ALL {
            assert_eq!(available_for(&s, t), s.load(t).is_ok(), "{}", t.slug());
        }
    }
    assert_eq!(full().load(StencilTarget::LinuxArm64).unwrap().config, "linux");
}

#[test]
fn availability_on_this_host_implies_a_library_and_an_entry_point() {
    for s in [Stencil::default(), full()] {
        for h in HOSTS {
            if available(&s, h) {
                let host = host_stencil_target(h).expect("an available host has a stencil target");
                assert!(available_for(&s, host), "{} is available with no library", host.slug());
                assert!(host.is_arm64() || AVAILABLE_X86_64);
            }
        }
    }
}

#[test]
fn the_unavailable_reason_is_present_exactly_when_the_backend_is_not() {
    for s in [Stencil::default(), full()] {
        for h in HOSTS {
            assert_eq!(available(&s, h), unavailable_reason(&s, h).is_none());
            if let Some(why) = unavailable_reason(&s, h) {
                assert!(!why.is_empty());
            }
        }
    }
}

#[test]
fn each_reason_has_its_own_sentence() {
    assert_eq!(
        unavailable_reason(&full(), HOSTS[1]).unwrap(),
        "stencil has no x86_64-apple-darwin backend yet"
    );
    assert_eq!(
        unavailable_reason(&Stencil::default(), HOSTS[2]).unwrap(),
        "this toolchain was built without linux-arm64 stencils, so there is no stencil library for the host to run"
    );
    assert_eq!(
        unavailable_reason(&full(), HOSTS[4]).unwrap(),
        "stencil has no aarch64-unknown-linux-gnu backend yet"
    );
}

#[test]
fn a_target_resolves_to_its_library_or_says_why_not() {
    let on = |platform, arch| Target { platform, arch };
    let h = HOSTS[0];
    assert_eq!(
        supported(&full(), on(Platform::Linux, Some(Arch::X86_64)), h),
        Ok(StencilTarget::LinuxX86_64)
    );
    assert_eq!(supported(&full(), on(Platform::Macos, None), h), Ok(StencilTarget::MacosArm64));
    assert_eq!(
        supported(&full(), on(Platform::Linux, None), HOSTS[3]),
        Ok(StencilTarget::LinuxX86_64)
    );
    assert_eq!(
        supported(&full(), on(Platform::Macos, Some(Arch::X86_64)), h).unwrap_err(),
        "the stencil backend has no stencil library for macos-x86_64"
    );
    assert_eq!(
        supported(&Stencil::default(), on(Platform::Linux, Some(Arch::Arm64)), h).unwrap_err(),
        "this toolchain was built without linux-arm64 stencils, so the stencil backend cannot emit for that target (it needs a C compiler that can produce aarch64-unknown-linux-gnu objects)"
    );
}
