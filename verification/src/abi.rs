//! The facts that the stencil builder and the stencil user agree on.
//!
//! Everything else about a stencil travels inside the library. These do not:
//! they are spelled into the generated C on one side and into the selector's
//! keys on the other.
use vstd::prelude::*;

use crate::text::decimal;
use crate::text::decimal_of;
use crate::text::join2;
use crate::text::join5;
use crate::text::own;

verus! {

/// Where an operand of an instruction lives.
#[derive(Clone, Copy, PartialEq, Eq, Structural, Debug)]
pub enum Loc {
    /// A frame slot, addressed by a byte-offset hole.
    Frame,
    /// A literal, patched into the instruction stream.
    Imm,
    /// CPS register `k`.
    Reg(u8),
}

impl Loc {
    /// The letters this location contributes to a stencil key.
    pub open spec fn letters(self) -> Seq<char> {
        match self {
            Loc::Frame => "f"@,
            Loc::Imm => "i"@,
            Loc::Reg(k) => "r"@ + decimal(k as nat),
        }
    }

    /// The letters this location contributes to a stencil key.
    pub fn tag(self) -> (r: String)
        ensures
            r@ == self.letters(),
    {
        match self {
            Loc::Frame => own("f"),
            Loc::Imm => own("i"),
            Loc::Reg(k) => {
                let n: String = decimal_of(k as u64);
                join2("r", n.as_str())
            },
        }
    }
}

/// One target a stencil library is built for: an instruction set and an object
/// container.
#[derive(Clone, Copy, PartialEq, Eq, Structural, Debug)]
pub enum Tgt {
    MacosArm64,
    LinuxArm64,
    LinuxX86_64,
}

impl Tgt {
    /// Every target a library is baked for. The order is part of the format:
    /// the identity concatenates one digest per target in it.
    pub const ALL: [Tgt; 3] = [Tgt::MacosArm64, Tgt::LinuxArm64, Tgt::LinuxX86_64];

    /// The name the library of this target is written under.
    pub open spec fn slug_text(self) -> Seq<char> {
        match self {
            Tgt::MacosArm64 => "macos-arm64"@,
            Tgt::LinuxArm64 => "linux-arm64"@,
            Tgt::LinuxX86_64 => "linux-x86_64"@,
        }
    }

    /// The name the library of this target is written under.
    pub fn slug(self) -> (r: &'static str)
        ensures
            r@ == self.slug_text(),
    {
        match self {
            Tgt::MacosArm64 => "macos-arm64",
            Tgt::LinuxArm64 => "linux-arm64",
            Tgt::LinuxX86_64 => "linux-x86_64",
        }
    }

    /// What `clang -target` is given.
    pub open spec fn triple_text(self) -> Seq<char> {
        match self {
            Tgt::MacosArm64 => "arm64-apple-darwin"@,
            Tgt::LinuxArm64 => "aarch64-unknown-linux-gnu"@,
            Tgt::LinuxX86_64 => "x86_64-unknown-linux-gnu"@,
        }
    }

    /// What `clang -target` is given.
    pub fn triple(self) -> (r: &'static str)
        ensures
            r@ == self.triple_text(),
    {
        match self {
            Tgt::MacosArm64 => "arm64-apple-darwin",
            Tgt::LinuxArm64 => "aarch64-unknown-linux-gnu",
            Tgt::LinuxX86_64 => "x86_64-unknown-linux-gnu",
        }
    }

    /// Whether the stencils are A64.
    pub open spec fn arm64(self) -> bool {
        self != Tgt::LinuxX86_64
    }

    /// Whether the stencils are A64.
    pub fn is_arm64(self) -> (r: bool)
        ensures
            r == self.arm64(),
    {
        match self {
            Tgt::LinuxX86_64 => false,
            _ => true,
        }
    }

    /// Whether the emitted object is an ELF.
    pub fn is_elf(self) -> (r: bool)
        ensures
            r == (self != Tgt::MacosArm64),
    {
        match self {
            Tgt::MacosArm64 => false,
            _ => true,
        }
    }
}

/// A target that stencils are built for.
pub type StencilTarget = Tgt;

/// How many CPS registers a stencil library is built for.
pub const CPS_REGISTER_COUNT: usize = 3;

/// The argument registers AAPCS64 leaves beside the frame pointer.
pub const AAPCS64_REGISTER_CAPACITY: usize = 7;

/// The argument registers SysV x86-64 leaves beside the frame pointer.
pub const SYSV_REGISTER_CAPACITY: usize = 5;

/// How many integer arguments a runtime call can pass.
pub const MAX_INT_ARGS: usize = 10;

/// How many float arguments a runtime call can pass.
pub const MAX_FLOAT_ARGS: usize = 2;

/// The register file fits the narrowest calling convention of any target, so a
/// continuation call is one jump on each of them.
pub proof fn registers_fit_every_convention()
    ensures
        CPS_REGISTER_COUNT <= SYSV_REGISTER_CAPACITY,
        CPS_REGISTER_COUNT <= AAPCS64_REGISTER_CAPACITY,
{
}

/// The hole a runtime call of one shape binds its callee to.
pub fn rt_callee(ints: usize, floats: usize, ret: &str) -> (r: String)
    ensures
        r@ == "JIT_RT_"@ + decimal(ints as nat) + "_"@ + decimal(floats as nat) + "_"@ + ret@,
{
    let a: String = decimal_of(ints as u64);
    let b: String = decimal_of(floats as u64);
    let head: String = join5("JIT_RT_", a.as_str(), "_", b.as_str(), "_");
    join2(head.as_str(), ret)
}

/// The hole a runtime call reads its `i`th integer argument through.
pub fn rt_slot(i: usize) -> (r: String)
    ensures
        r@ == "JIT_S"@ + decimal(i as nat),
{
    let n: String = decimal_of(i as u64);
    join2("JIT_S", n.as_str())
}

/// The hole a runtime call reads its `i`th float argument through.
pub fn rt_float_slot(i: usize) -> (r: String)
    ensures
        r@ == "JIT_G"@ + decimal(i as nat),
{
    let n: String = decimal_of(i as u64);
    join2("JIT_G", n.as_str())
}

} // verus!
