//! The backend as a whole: which targets it has stencils for, and what a toolchain without them is
//! told.

use crate::abi::Tgt;
use crate::entry::{MainResult, AVAILABLE_X86_64};
use crate::ir::{Program, Type};
use crate::library::Library;
use crate::text::{join2, join3, join5, own};
use crate::types::{EnumRepr, Layout, Repr};
use vstd::prelude::*;

verus! {

/// An operating system an artifact is built for.
#[derive(Clone, Copy, PartialEq, Eq, Structural, Debug)]
pub enum Platform {
    Macos,
    Linux,
}

/// An instruction set an artifact is built for.
#[derive(Clone, Copy, PartialEq, Eq, Structural, Debug)]
pub enum Arch {
    Arm64,
    X86_64,
}

impl Platform {
    /// The name of a platform.
    pub open spec fn slug_text(self) -> Seq<char> {
        match self {
            Platform::Macos => "macos"@,
            Platform::Linux => "linux"@,
        }
    }

    /// The name of a platform.
    pub fn slug(self) -> (r: &'static str)
        ensures
            r@ == self.slug_text(),
    {
        match self {
            Platform::Macos => "macos",
            Platform::Linux => "linux",
        }
    }
}

impl Arch {
    /// The name of an instruction set.
    pub open spec fn slug_text(self) -> Seq<char> {
        match self {
            Arch::Arm64 => "arm64"@,
            Arch::X86_64 => "x86_64"@,
        }
    }

    /// The name of an instruction set.
    pub fn slug(self) -> (r: &'static str)
        ensures
            r@ == self.slug_text(),
    {
        match self {
            Arch::Arm64 => "arm64",
            Arch::X86_64 => "x86_64",
        }
    }
}

/// What an artifact is asked for: a platform, and an instruction set where one is named.
#[derive(Clone, Copy, PartialEq, Eq, Structural, Debug)]
pub struct Target {
    pub platform: Platform,
    pub arch: Option<Arch>,
}

/// The machine a toolchain runs on. It may be none that an artifact is built for.
#[derive(Clone, Copy, PartialEq, Eq, Structural, Debug)]
pub struct Host {
    pub platform: Option<Platform>,
    pub arch: Option<Arch>,
}

/// One target's library as it was built: its bytes, empty where the toolchain could not build it,
/// and the hash of them.
pub struct Blob {
    pub bytes: Vec<u8>,
    pub digest: String,
}

/// The copy-and-patch backend, with the libraries of a toolchain.
pub struct Stencil {
    pub macos_arm64: Blob,
    pub linux_arm64: Blob,
    pub linux_x86_64: Blob,
}

impl Stencil {
    /// One target's library.
    pub open spec fn blob_of(self, t: Tgt) -> Blob {
        match t {
            Tgt::MacosArm64 => self.macos_arm64,
            Tgt::LinuxArm64 => self.linux_arm64,
            Tgt::LinuxX86_64 => self.linux_x86_64,
        }
    }

    /// Whether there are stencils for a target.
    pub open spec fn has(self, t: Tgt) -> bool {
        self.blob_of(t).bytes@.len() > 0
    }

    /// One target's library.
    pub fn blob(&self, t: Tgt) -> (r: &Blob)
        ensures
            *r == self.blob_of(t),
    {
        match t {
            Tgt::MacosArm64 => &self.macos_arm64,
            Tgt::LinuxArm64 => &self.linux_arm64,
            Tgt::LinuxX86_64 => &self.linux_x86_64,
        }
    }

    /// The backend's name.
    pub fn name(&self) -> (r: &'static str)
        ensures
            r@ == "stencil"@,
    {
        "stencil"
    }

    /// What an object depends on besides the program: every library's hash, in the targets' order.
    /// A target is not named, so all of them are.
    pub fn identity(&self) -> (r: String)
        ensures
            r@ == "stencil"@ + " "@ + self.macos_arm64.digest@ + " "@ + self.linux_arm64.digest@
                + " "@ + self.linux_x86_64.digest@,
    {
        let a: String = join3("stencil", " ", self.macos_arm64.digest.as_str());
        let b: String = join3(a.as_str(), " ", self.linux_arm64.digest.as_str());
        join3(b.as_str(), " ", self.linux_x86_64.digest.as_str())
    }

    /// The library of a target.
    pub fn load(&self, t: Tgt) -> (r: Result<Library, String>)
        ensures
            crate::codec::decoded(r, self.blob_of(t).bytes@),
    {
        Library::decode(self.blob(t).bytes.as_slice())
    }
}

/// The hash of nothing.
pub const EMPTY_DIGEST: &'static str = "e3b0c44298fc1c149afbf4c8996fb92427ae41e4649b934ca495991b7852b855";

impl Default for Stencil {
    /// The backend of a toolchain that was built without a C compiler: it has no stencils.
    fn default() -> (r: Stencil)
        ensures
            forall|t: Tgt| !(#[trigger] r.has(t)),
            forall|t: Tgt| (#[trigger] r.blob_of(t)).digest@ == EMPTY_DIGEST@,
    {
        Stencil {
            macos_arm64: Blob { bytes: Vec::new(), digest: own(EMPTY_DIGEST) },
            linux_arm64: Blob { bytes: Vec::new(), digest: own(EMPTY_DIGEST) },
            linux_x86_64: Blob { bytes: Vec::new(), digest: own(EMPTY_DIGEST) },
        }
    }
}

/// Whether this toolchain has stencils for a target.
pub fn available_for(s: &Stencil, t: Tgt) -> (r: bool)
    ensures
        r == s.has(t),
{
    s.blob(t).bytes.len() > 0
}

/// The target a machine is, where a library is built for one.
pub open spec fn host_of(h: Host) -> Option<Tgt> {
    match (h.platform == Some(Platform::Macos), h.arch == Some(Arch::Arm64)) {
        (true, true) => Some(Tgt::MacosArm64),
        (true, false) => None,
        (false, true) => Some(Tgt::LinuxArm64),
        (false, false) => Some(Tgt::LinuxX86_64),
    }
}

/// The target a machine is. Only macOS on x86-64 is none: what is neither macOS nor Linux is taken
/// for the Linux of its instruction set.
pub fn host_stencil_target(h: Host) -> (r: Option<Tgt>)
    ensures
        r == host_of(h),
{
    match (h.platform == Some(Platform::Macos), h.arch == Some(Arch::Arm64)) {
        (true, true) => Some(Tgt::MacosArm64),
        (true, false) => None,
        (false, true) => Some(Tgt::LinuxArm64),
        (false, false) => Some(Tgt::LinuxX86_64),
    }
}

/// Whether a machine can build a program and run it: it has stencils of its own, and an entry point.
pub open spec fn runs(s: Stencil, h: Host) -> bool {
    (s.has(Tgt::MacosArm64) && h == (Host {
        platform: Some(Platform::Macos),
        arch: Some(Arch::Arm64),
    })) || (s.has(Tgt::LinuxArm64) && h == (Host {
        platform: Some(Platform::Linux),
        arch: Some(Arch::Arm64),
    })) || (s.has(Tgt::LinuxX86_64) && h == (Host {
        platform: Some(Platform::Linux),
        arch: Some(Arch::X86_64),
    }) && AVAILABLE_X86_64)
}

/// Whether a machine can build a program and run it.
pub fn available(s: &Stencil, h: Host) -> (r: bool)
    ensures
        r == runs(*s, h),
{
    match (h.platform, h.arch) {
        (Some(Platform::Macos), Some(Arch::Arm64)) => available_for(s, Tgt::MacosArm64),
        (Some(Platform::Linux), Some(Arch::Arm64)) => available_for(s, Tgt::LinuxArm64),
        (Some(Platform::Linux), Some(Arch::X86_64)) => available_for(s, Tgt::LinuxX86_64)
            && AVAILABLE_X86_64,
        _ => false,
    }
}

/// Why a machine cannot build a program and run it.
pub open spec fn reason(s: Stencil, h: Host) -> Option<Seq<char>> {
    if runs(s, h) {
        None
    } else {
        match host_of(h) {
            None => Some("stencil has no x86_64-apple-darwin backend yet"@),
            Some(t) => if !s.has(t) {
                Some(
                    "this toolchain was built without "@ + t.slug_text()
                        + " stencils, so there is no stencil library for the host to run"@,
                )
            } else {
                Some("stencil has no "@ + t.triple_text() + " backend yet"@)
            },
        }
    }
}

/// Why a machine cannot build a program and run it, where it cannot.
pub fn unavailable_reason(s: &Stencil, h: Host) -> (r: Option<String>)
    ensures
        match r {
            None => reason(*s, h) is None,
            Some(e) => reason(*s, h) == Some(e@),
        },
        r is None <==> runs(*s, h),
{
    if available(s, h) {
        return None;
    }
    match host_stencil_target(h) {
        None => Some(own("stencil has no x86_64-apple-darwin backend yet")),
        Some(t) => {
            if !available_for(s, t) {
                return Some(
                    join3(
                        "this toolchain was built without ",
                        t.slug(),
                        " stencils, so there is no stencil library for the host to run",
                    ),
                );
            }
            Some(join3("stencil has no ", t.triple(), " backend yet"))
        },
    }
}

/// The instruction set that is asked for: the machine's where none is named.
pub open spec fn wanted(target: Target, h: Host) -> Arch {
    match target.arch {
        Some(a) => a,
        None => if h.arch == Some(Arch::Arm64) {
            Arch::Arm64
        } else {
            Arch::X86_64
        },
    }
}

/// The library that a target asks for.
pub open spec fn library_for(platform: Platform, arch: Arch) -> Option<Tgt> {
    match (platform, arch) {
        (Platform::Macos, Arch::Arm64) => Some(Tgt::MacosArm64),
        (Platform::Linux, Arch::Arm64) => Some(Tgt::LinuxArm64),
        (Platform::Linux, Arch::X86_64) => Some(Tgt::LinuxX86_64),
        (Platform::Macos, Arch::X86_64) => None,
    }
}

/// The library that a target resolves to, or why there is none.
pub open spec fn support(s: Stencil, target: Target, h: Host) -> Result<Tgt, Seq<char>> {
    match library_for(target.platform, wanted(target, h)) {
        None => Err(
            "the stencil backend has no stencil library for "@ + target.platform.slug_text() + "-"@
                + wanted(target, h).slug_text(),
        ),
        Some(t) => if !s.has(t) {
            Err(
                "this toolchain was built without "@ + t.slug_text()
                    + " stencils, so the stencil backend cannot emit for that target (it needs a C compiler that can produce "@
                    + t.triple_text() + " objects)"@,
            )
        } else if !t.arm64() && !AVAILABLE_X86_64 {
            Err(
                "the stencil backend has "@ + t.slug_text()
                    + " stencils but no hand-written entry point for that machine, so it can emit unit objects for the target but not a program"@,
            )
        } else {
            Ok(t)
        },
    }
}

/// The library that a target resolves to, or why there is none: no library is built for it, this
/// toolchain has none, or the machine has no entry point.
pub fn supported(s: &Stencil, target: Target, h: Host) -> (r: Result<Tgt, String>)
    ensures
        match r {
            Ok(t) => support(*s, target, h) == Ok::<Tgt, Seq<char>>(t),
            Err(e) => support(*s, target, h) == Err::<Tgt, Seq<char>>(e@),
        },
{
    let arch: Arch = match target.arch {
        Some(a) => a,
        None => if h.arch == Some(Arch::Arm64) {
            Arch::Arm64
        } else {
            Arch::X86_64
        },
    };
    let t: Tgt = match (target.platform, arch) {
        (Platform::Macos, Arch::Arm64) => Tgt::MacosArm64,
        (Platform::Linux, Arch::Arm64) => Tgt::LinuxArm64,
        (Platform::Linux, Arch::X86_64) => Tgt::LinuxX86_64,
        (Platform::Macos, Arch::X86_64) => {
            let a: String = join2(
                "the stencil backend has no stencil library for ",
                target.platform.slug(),
            );
            return Err(join3(a.as_str(), "-", arch.slug()));
        },
    };
    if !available_for(s, t) {
        return Err(
            join5(
                "this toolchain was built without ",
                t.slug(),
                " stencils, so the stencil backend cannot emit for that target (it needs a C compiler that can produce ",
                t.triple(),
                " objects)",
            ),
        );
    }
    if !t.is_arm64() && !AVAILABLE_X86_64 {
        return Err(
            join3(
                "the stencil backend has ",
                t.slug(),
                " stencils but no hand-written entry point for that machine, so it can emit unit objects for the target but not a program",
            ),
        );
    }
    Ok(t)
}

/// A number and a few more, up to the largest.
pub open spec fn capped(n: u32, by: u32) -> u32 {
    if n + by > u32::MAX {
        u32::MAX
    } else {
        (n + by) as u32
    }
}

/// The offset of the first field of the second variant.
pub open spec fn error_payload(variants: Seq<Vec<u32>>) -> u32 {
    if variants.len() > 1 && variants[1]@.len() > 0 {
        variants[1]@[0]
    } else {
        0
    }
}

/// Where a function keeps the answer of its first result.
pub open spec fn answer(prog: Program, idx: int) -> Option<MainResult> {
    if !(0 <= idx < prog.funcs.len()) || prog.funcs[idx].rets.len() == 0 {
        None
    } else {
        match prog.funcs[idx].rets[0] {
            Type::Agg(id) => {
                let l = prog.tables.at(id as int).layout;
                if l.size == 0 {
                    None
                } else {
                    match l.repr {
                        Repr::Enum { repr, variants } => {
                            let p = error_payload(variants@);
                            let message = (p, capped(p, 8), capped(p, 16));
                            Some(
                                match repr {
                                    EnumRepr::Bare { tag } => MainResult {
                                        tag: (0, tag),
                                        niche: None,
                                        message,
                                    },
                                    EnumRepr::Tagged { tag } => MainResult {
                                        tag: (0, tag),
                                        niche: None,
                                        message,
                                    },
                                    EnumRepr::Niche { null_at } => MainResult {
                                        tag: (null_at, 8),
                                        niche: Some(null_at),
                                        message,
                                    },
                                },
                            )
                        },
                        _ => None,
                    }
                }
            },
            _ => None,
        }
    }
}

/// Where a `main` keeps its answer. There is nothing to inspect where it gives none, where the
/// answer has no bytes, and where it is no enum.
pub fn main_result(prog: &Program, idx: usize) -> (r: Option<MainResult>)
    ensures
        r == answer(*prog, idx as int),
{
    if idx >= prog.funcs.len() || prog.funcs[idx].rets.len() == 0 {
        return None;
    }
    match prog.funcs[idx].rets[0] {
        Type::Agg(id) => {
            let l: &Layout = &prog.tables.info(id).layout;
            if l.size == 0 {
                return None;
            }
            match &l.repr {
                Repr::Enum { repr, variants } => {
                    let p: u32 = if variants.len() > 1 && variants[1].len() > 0 {
                        variants[1][0]
                    } else {
                        0
                    };
                    let message: (u32, u32, u32) = (p, p.saturating_add(8), p.saturating_add(16));
                    Some(
                        match repr {
                            EnumRepr::Bare { tag } => MainResult {
                                tag: (0, *tag),
                                niche: None,
                                message,
                            },
                            EnumRepr::Tagged { tag } => MainResult {
                                tag: (0, *tag),
                                niche: None,
                                message,
                            },
                            EnumRepr::Niche { null_at } => MainResult {
                                tag: (*null_at, 8),
                                niche: Some(*null_at),
                                message,
                            },
                        },
                    )
                },
                _ => None,
            }
        },
        _ => None,
    }
}

/// A machine that can build a program and run it has a library and an entry point.
pub proof fn a_machine_that_runs_has_a_library(s: Stencil, h: Host)
    requires
        runs(s, h),
    ensures
        host_of(h) is Some,
        s.has(host_of(h)->0),
        (host_of(h)->0).arm64() || AVAILABLE_X86_64,
{
}

/// A target without stencils has no library to load.
pub proof fn nothing_is_loaded_from_nothing(s: Stencil, t: Tgt)
    requires
        !s.has(t),
    ensures
        crate::codec::dec_library(s.blob_of(t).bytes@) is Err,
{
    reveal(crate::codec::dec_take);
}

} // verus!
