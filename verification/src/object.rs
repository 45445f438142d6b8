//! What a relocatable object is made of, whatever its container.

use vstd::prelude::*;

verus! {

/// What the linker is asked to do at one place.
#[derive(Clone, Copy, PartialEq, Eq, Debug, Structural)]
pub enum RelKind {
    /// The 26-bit word displacement of a `b` or a `bl`.
    Branch26,
    /// An eight-byte absolute address.
    Abs64,
    /// The page half of an `adrp`.
    Page21,
    /// The offset half of the instruction behind one.
    PageOff12,
    /// The displacement of a `jmp`, a `call` or a conditional jump.
    Rel32,
    /// A displacement from the instruction pointer.
    Pc32,
}

/// The attributes of a section of instructions.
pub const CODE_ATTRIBUTES: u32 = 0x8000_0400;

/// One section.
pub struct Section {
    pub name: &'static str,
    pub segment: &'static str,
    /// log2 of the alignment.
    pub align: u32,
    /// How many zero bytes the section stands for, where it carries none.
    pub zerofill: u64,
    pub attributes: u32,
    pub data: Vec<u8>,
}

/// Where a symbol is defined.
#[derive(Clone, Copy, PartialEq, Eq, Debug)]
pub struct Definition {
    pub section: usize,
    pub offset: u64,
}

/// One symbol: undefined where `defined` is `None`.
pub struct Symbol {
    pub name: String,
    pub defined: Option<Definition>,
    pub global: bool,
}

/// One relocation.
pub struct Reloc {
    pub section: usize,
    pub offset: u64,
    pub kind: RelKind,
    /// An index into the symbols.
    pub symbol: usize,
    pub addend: i64,
}

} // verus!
