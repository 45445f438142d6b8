//! A reader of ELF64 little-endian objects, enough to recover stencils and their holes.

use crate::elf::{
    Shdr, SHF_ALLOC, SHF_EXECINSTR, SHT_NOBITS, SHT_PROGBITS, SHT_RELA, SHT_STRTAB, SHT_SYMTAB,
};
use crate::fields::{
    agree, an_insertion_keeps_the_order, extents, field16, field32, field64, in_order, insert_extent,
    inserted, name_at, read16, read32, read64, read_name, read_span, sooner, span, Ev, Extent,
};
use crate::text::{begins, decimal, decimal_of, join3, own, same, strip_prefix};
use vstd::prelude::*;

verus! {

pub const EM_X86_64: u16 = 62;
pub const EM_AARCH64: u16 = 183;

pub const R_AARCH64_ABS64: u32 = 257;
pub const R_AARCH64_CALL26: u32 = 283;
pub const R_AARCH64_JUMP26: u32 = 282;
pub const R_AARCH64_ADR_PREL_PG_HI21: u32 = 275;
pub const R_AARCH64_ADD_ABS_LO12_NC: u32 = 277;
pub const R_AARCH64_LDST64_ABS_LO12_NC: u32 = 286;
pub const R_AARCH64_ADR_GOT_PAGE: u32 = 311;
pub const R_AARCH64_LD64_GOT_LO12_NC: u32 = 312;
pub const R_X86_64_64: u32 = 1;
pub const R_X86_64_PC32: u32 = 2;
pub const R_X86_64_GOTPCREL: u32 = 9;
pub const R_X86_64_32: u32 = 10;
pub const R_X86_64_32S: u32 = 11;
pub const R_X86_64_PLT32: u32 = 4;
pub const R_X86_64_GOTPCRELX: u32 = 41;
pub const R_X86_64_REX_GOTPCRELX: u32 = 42;

/// One relocation of the code.
#[derive(Clone, Copy, Debug)]
pub struct Reloc {
    /// Byte offset within the code section.
    pub addr: u32,
    /// The relocation type; how to read it depends on the machine.
    pub kind: u32,
    /// Index into the symbols.
    pub symbolnum: u32,
    /// The explicit addend.
    pub addend: i64,
}

/// One symbol.
#[derive(Clone, Debug)]
pub struct Sym {
    pub name: String,
    /// Section index; zero for an undefined symbol.
    pub sect: u16,
    pub value: u64,
    /// For a function, the length of its body.
    pub size: u64,
    pub defined: bool,
}

/// A symbol, as a value.
pub struct Sv {
    pub name: Seq<char>,
    pub sect: u16,
    pub value: u64,
    pub size: u64,
    pub defined: bool,
}

impl View for Sym {
    type V = Sv;

    open spec fn view(&self) -> Sv {
        Sv {
            name: self.name@,
            sect: self.sect,
            value: self.value,
            size: self.size,
            defined: self.defined,
        }
    }
}

/// A section that is loaded and is not the code.
#[derive(Clone, Debug)]
pub struct Other {
    pub name: String,
    /// Section index.
    pub index: u16,
    pub align: u64,
    /// The section's bytes; none where it has none in the file.
    pub data: Vec<u8>,
    /// Whether the section holds instructions.
    pub executable: bool,
}

/// A section that is not the code, as a value.
pub struct Ov {
    pub name: Seq<char>,
    pub index: u16,
    pub align: u64,
    pub data: Seq<u8>,
    pub executable: bool,
}

impl View for Other {
    type V = Ov;

    open spec fn view(&self) -> Ov {
        Ov {
            name: self.name@,
            index: self.index,
            align: self.align,
            data: self.data@,
            executable: self.executable,
        }
    }
}

/// What an object holds.
pub struct Obj {
    pub machine: u16,
    /// The bytes of the code section.
    pub text: Vec<u8>,
    pub text_relocs: Vec<Reloc>,
    pub syms: Vec<Sym>,
    /// Every other loaded section that carried bytes.
    pub other_sections: Vec<Other>,
}

/// What an object holds, as a value.
pub struct ObjV {
    pub machine: u16,
    pub text: Seq<u8>,
    pub text_relocs: Seq<Reloc>,
    pub syms: Seq<Sv>,
    pub other_sections: Seq<Ov>,
}

/// Symbols, as values.
pub open spec fn syms_of(v: Seq<Sym>) -> Seq<Sv> {
    v.map_values(|s: Sym| s@)
}

/// Sections, as values.
pub open spec fn others_of(v: Seq<Other>) -> Seq<Ov> {
    v.map_values(|s: Other| s@)
}

impl View for Obj {
    type V = ObjV;

    open spec fn view(&self) -> ObjV {
        ObjV {
            machine: self.machine,
            text: self.text@,
            text_relocs: self.text_relocs@,
            syms: syms_of(self.syms@),
            other_sections: others_of(self.other_sections@),
        }
    }
}

/// The section header at `o`.
pub open spec fn head_at(b: Seq<u8>, o: nat) -> Result<Shdr, Seq<char>> {
    let w = "ELF"@;
    match (field32(w, b, o), field32(w, b, o + 4), field64(w, b, o + 8)) {
        (Ok(name), Ok(kind), Ok(flags)) => match (
            field64(w, b, o + 24),
            field64(w, b, o + 32),
            field32(w, b, o + 40),
        ) {
            (Ok(offset), Ok(size), Ok(link)) => match (
                field32(w, b, o + 44),
                field64(w, b, o + 48),
                field64(w, b, o + 56),
            ) {
                (Ok(info), Ok(align), Ok(entsize)) => Ok(
                    Shdr { name, kind, flags, offset, size, link, info, align, entsize },
                ),
                (Err(e), _, _) => Err(e),
                (_, Err(e), _) => Err(e),
                (_, _, Err(e)) => Err(e),
            },
            (Err(e), _, _) => Err(e),
            (_, Err(e), _) => Err(e),
            (_, _, Err(e)) => Err(e),
        },
        (Err(e), _, _) => Err(e),
        (_, Err(e), _) => Err(e),
        (_, _, Err(e)) => Err(e),
    }
}

/// The first `n` section headers from `shoff` on.
pub open spec fn heads_of(b: Seq<u8>, shoff: nat, n: int) -> Result<Seq<Shdr>, Seq<char>>
    decreases n,
{
    if n <= 0 {
        Ok(Seq::empty())
    } else {
        match heads_of(b, shoff, n - 1) {
            Err(e) => Err(e),
            Ok(v) => match head_at(b, (shoff + (n - 1) * 64) as nat) {
                Err(e) => Err(e),
                Ok(h) => Ok(v.push(h)),
            },
        }
    }
}

/// What the sections come to.
pub struct Parts {
    pub text: Seq<u8>,
    pub index: u16,
    pub others: Seq<Ov>,
}

/// Whether a section that is not the code is kept.
pub open spec fn kept(h: Shdr, name: Seq<char>) -> bool {
    h.flags & SHF_ALLOC != 0 && h.size > 0 && (h.kind == SHT_PROGBITS || h.kind == SHT_NOBITS)
        && !begins(name, ".eh_frame"@)
}

impl Parts {
    /// One section more.
    pub open spec fn section(self, b: Seq<u8>, names: Seq<u8>, h: Shdr, i: int) -> Result<
        Parts,
        Seq<char>,
    > {
        match name_at("ELF"@, names, h.name as nat) {
            Err(e) => Err(e),
            Ok(name) => if name == ".text"@ {
                match span("ELF"@, b, h.offset as nat, h.size as nat) {
                    Err(e) => Err(e),
                    Ok(text) => Ok(Parts { text, index: i as u16, ..self }),
                }
            } else if kept(h, name) {
                let data = if h.kind == SHT_NOBITS {
                    Ok(Seq::empty())
                } else {
                    span("ELF"@, b, h.offset as nat, h.size as nat)
                };
                match data {
                    Err(e) => Err(e),
                    Ok(data) => Ok(
                        Parts {
                            others: self.others.push(
                                Ov {
                                    name,
                                    index: i as u16,
                                    align: h.align,
                                    data,
                                    executable: h.flags & SHF_EXECINSTR != 0,
                                },
                            ),
                            ..self
                        },
                    ),
                }
            } else {
                Ok(self)
            },
        }
    }
}

/// The first `n` sections.
pub open spec fn parts_of(b: Seq<u8>, names: Seq<u8>, heads: Seq<Shdr>, n: int) -> Result<
    Parts,
    Seq<char>,
>
    decreases n,
{
    if n <= 0 {
        Ok(Parts { text: Seq::empty(), index: 0, others: Seq::empty() })
    } else {
        match parts_of(b, names, heads, n - 1) {
            Err(e) => Err(e),
            Ok(p) => p.section(b, names, heads[n - 1], n - 1),
        }
    }
}

/// The symbol at `o`.
pub open spec fn sym_at(b: Seq<u8>, names: Seq<u8>, o: nat) -> Result<Sv, Seq<char>> {
    let w = "ELF"@;
    match (field32(w, b, o), field16(w, b, o + 6)) {
        (Ok(at), Ok(sect)) => match (
            name_at(w, names, at as nat),
            field64(w, b, o + 8),
            field64(w, b, o + 16),
        ) {
            (Ok(name), Ok(value), Ok(size)) => Ok(
                Sv { name, sect, value, size, defined: sect != 0 },
            ),
            (Err(e), _, _) => Err(e),
            (_, Err(e), _) => Err(e),
            (_, _, Err(e)) => Err(e),
        },
        (Err(e), _) => Err(e),
        (_, Err(e)) => Err(e),
    }
}

/// The first `n` symbols of a table, behind those in `before`.
pub open spec fn table_syms(
    before: Seq<Sv>,
    b: Seq<u8>,
    names: Seq<u8>,
    offset: nat,
    n: int,
) -> Result<Seq<Sv>, Seq<char>>
    decreases n,
{
    if n <= 0 {
        Ok(before)
    } else {
        match table_syms(before, b, names, offset, n - 1) {
            Err(e) => Err(e),
            Ok(v) => match sym_at(b, names, (offset + (n - 1) * 24) as nat) {
                Err(e) => Err(e),
                Ok(s) => Ok(v.push(s)),
            },
        }
    }
}

/// The string table that a symbol table names.
pub open spec fn names_of_table(b: Seq<u8>, heads: Seq<Shdr>, link: u32) -> Result<
    Seq<u8>,
    Seq<char>,
> {
    if link < heads.len() && heads[link as int].kind == SHT_STRTAB {
        span("ELF"@, b, heads[link as int].offset as nat, heads[link as int].size as nat)
    } else {
        Err("the ELF symbol table names no string table"@)
    }
}

/// The symbols of the symbol tables among the first `n` sections.
pub open spec fn all_syms(b: Seq<u8>, heads: Seq<Shdr>, n: int) -> Result<Seq<Sv>, Seq<char>>
    decreases n,
{
    if n <= 0 {
        Ok(Seq::empty())
    } else {
        match all_syms(b, heads, n - 1) {
            Err(e) => Err(e),
            Ok(v) => {
                let h = heads[n - 1];
                if h.kind != SHT_SYMTAB {
                    Ok(v)
                } else if h.entsize != 24 {
                    Err("ELF symbols are "@ + decimal(h.entsize as nat) + " bytes, not 24"@)
                } else {
                    match names_of_table(b, heads, h.link) {
                        Err(e) => Err(e),
                        Ok(names) => table_syms(
                            v,
                            b,
                            names,
                            h.offset as nat,
                            (h.size / 24) as int,
                        ),
                    }
                }
            },
        }
    }
}

/// The relocation at `o`.
pub open spec fn rel_at(b: Seq<u8>, o: nat) -> Result<Reloc, Seq<char>> {
    let w = "ELF"@;
    match (field64(w, b, o + 8), field64(w, b, o), field64(w, b, o + 16)) {
        (Ok(info), Ok(addr), Ok(addend)) => Ok(
            Reloc {
                addr: addr as u32,
                kind: (info & 0xffff_ffff) as u32,
                symbolnum: (info >> 32) as u32,
                addend: addend as i64,
            },
        ),
        (Err(e), _, _) => Err(e),
        (_, Err(e), _) => Err(e),
        (_, _, Err(e)) => Err(e),
    }
}

/// The first `n` relocations of a table, behind those in `before`.
pub open spec fn table_rels(before: Seq<Reloc>, b: Seq<u8>, offset: nat, n: int) -> Result<
    Seq<Reloc>,
    Seq<char>,
>
    decreases n,
{
    if n <= 0 {
        Ok(before)
    } else {
        match table_rels(before, b, offset, n - 1) {
            Err(e) => Err(e),
            Ok(v) => match rel_at(b, (offset + (n - 1) * 24) as nat) {
                Err(e) => Err(e),
                Ok(r) => Ok(v.push(r)),
            },
        }
    }
}

/// The relocations of the code, from the tables among the first `n` sections.
pub open spec fn all_rels(b: Seq<u8>, heads: Seq<Shdr>, text: u16, n: int) -> Result<
    Seq<Reloc>,
    Seq<char>,
>
    decreases n,
{
    if n <= 0 {
        Ok(Seq::empty())
    } else {
        match all_rels(b, heads, text, n - 1) {
            Err(e) => Err(e),
            Ok(v) => {
                let h = heads[n - 1];
                if h.kind != SHT_RELA || h.info as u16 != text {
                    Ok(v)
                } else if h.entsize != 24 {
                    Err("ELF relocations are "@ + decimal(h.entsize as nat) + " bytes, not 24"@)
                } else {
                    table_rels(v, b, h.offset as nat, (h.size / 24) as int)
                }
            },
        }
    }
}

/// Whether bytes start as a 64-bit little-endian ELF does.
pub open spec fn elf64(b: Seq<u8>) -> bool {
    b.len() >= 64 && b[0] == 0x7f && b[1] == 0x45 && b[2] == 0x4c && b[3] == 0x46 && b[4] == 2
        && b[5] == 1
}

/// What an object's bytes hold, or why they cannot be read.
pub open spec fn read_of(b: Seq<u8>) -> Result<ObjV, Seq<char>> {
    let w = "ELF"@;
    if !elf64(b) {
        Err("not a 64-bit little-endian ELF object"@)
    } else {
        let machine = crate::bytes::of16(b, 18);
        let shoff = crate::bytes::of64(b, 40);
        let entry = crate::bytes::of16(b, 58);
        let count = crate::bytes::of16(b, 60);
        let names = crate::bytes::of16(b, 62);
        if machine != EM_AARCH64 && machine != EM_X86_64 {
            Err(
                "ELF object is for machine "@ + decimal(machine as nat)
                    + ", not aarch64 or x86-64"@,
            )
        } else if entry != 64 {
            Err("ELF section headers are "@ + decimal(entry as nat) + " bytes, not 64"@)
        } else {
            match heads_of(b, shoff as nat, count as int) {
                Err(e) => Err(e),
                Ok(heads) => read_sections(b, machine, heads, names as int),
            }
        }
    }
}

/// What an object's sections hold.
pub open spec fn read_sections(b: Seq<u8>, machine: u16, heads: Seq<Shdr>, names: int) -> Result<
    ObjV,
    Seq<char>,
> {
    let n = heads.len() as int;
    if names >= heads.len() {
        Err("ELF object names a section-name table it lacks"@)
    } else {
        match span("ELF"@, b, heads[names].offset as nat, heads[names].size as nat) {
            Err(e) => Err(e),
            Ok(table) => match parts_of(b, table, heads, n) {
                Err(e) => Err(e),
                Ok(p) => if p.text.len() == 0 && p.index == 0 {
                    Err("ELF object has no .text"@)
                } else {
                    match all_syms(b, heads, n) {
                        Err(e) => Err(e),
                        Ok(syms) => match all_rels(b, heads, p.index, n) {
                            Err(e) => Err(e),
                            Ok(rels) => Ok(
                                ObjV {
                                    machine,
                                    text: p.text,
                                    text_relocs: rels,
                                    syms,
                                    other_sections: p.others,
                                },
                            ),
                        },
                    }
                },
            },
        }
    }
}

fn read_head(b: &[u8], o: u128) -> (r: Result<Shdr, String>)
    requires
        o <= u128::MAX - 64,
    ensures
        agree(r, head_at(b@, o as nat)),
{
    let name: u32 = match read32("ELF", b, o) {
        Ok(v) => v,
        Err(e) => return Err(e),
    };
    let kind: u32 = match read32("ELF", b, o + 4) {
        Ok(v) => v,
        Err(e) => return Err(e),
    };
    let flags: u64 = match read64("ELF", b, o + 8) {
        Ok(v) => v,
        Err(e) => return Err(e),
    };
    let offset: u64 = match read64("ELF", b, o + 24) {
        Ok(v) => v,
        Err(e) => return Err(e),
    };
    let size: u64 = match read64("ELF", b, o + 32) {
        Ok(v) => v,
        Err(e) => return Err(e),
    };
    let link: u32 = match read32("ELF", b, o + 40) {
        Ok(v) => v,
        Err(e) => return Err(e),
    };
    let info: u32 = match read32("ELF", b, o + 44) {
        Ok(v) => v,
        Err(e) => return Err(e),
    };
    let align: u64 = match read64("ELF", b, o + 48) {
        Ok(v) => v,
        Err(e) => return Err(e),
    };
    let entsize: u64 = match read64("ELF", b, o + 56) {
        Ok(v) => v,
        Err(e) => return Err(e),
    };
    Ok(Shdr { name, kind, flags, offset, size, link, info, align, entsize })
}

/// An error in the first headers is the error of all of them.
proof fn lemma_heads_err(b: Seq<u8>, shoff: nat, i: int, n: int)
    requires
        0 < i <= n,
        heads_of(b, shoff, i) is Err,
    ensures
        heads_of(b, shoff, n) == heads_of(b, shoff, i),
    decreases n - i,
{
    if i < n {
        lemma_heads_err(b, shoff, i, n - 1);
    }
}

fn read_heads(b: &[u8], shoff: u64, n: u16) -> (r: Result<Vec<Shdr>, String>)
    ensures
        match r {
            Ok(v) => heads_of(b@, shoff as nat, n as int) == Ok::<Seq<Shdr>, Seq<char>>(v@)
                && v.len() == n,
            Err(e) => heads_of(b@, shoff as nat, n as int) == Err::<Seq<Shdr>, Seq<char>>(e@),
        },
{
    let mut out: Vec<Shdr> = Vec::new();
    let mut i: u16 = 0;
    assert(out@ =~= Seq::empty());
    while i < n
        invariant
            i <= n,
            out.len() == i,
            heads_of(b@, shoff as nat, i as int) == Ok::<Seq<Shdr>, Seq<char>>(out@),
        decreases n - i,
    {
        match read_head(b, shoff as u128 + i as u128 * 64) {
            Err(e) => {
                proof {
                    lemma_heads_err(b@, shoff as nat, i as int + 1, n as int);
                }
                return Err(e);
            },
            Ok(h) => out.push(h),
        }
        i = i + 1;
    }
    Ok(out)
}

/// An error in the first sections is the error of all of them.
proof fn lemma_parts_err(b: Seq<u8>, names: Seq<u8>, heads: Seq<Shdr>, i: int, n: int)
    requires
        0 < i <= n,
        parts_of(b, names, heads, i) is Err,
    ensures
        parts_of(b, names, heads, n) == parts_of(b, names, heads, i),
    decreases n - i,
{
    if i < n {
        lemma_parts_err(b, names, heads, i, n - 1);
    }
}

struct Found {
    text: Vec<u8>,
    index: u16,
    others: Vec<Other>,
}

impl View for Found {
    type V = Parts;

    closed spec fn view(&self) -> Parts {
        Parts { text: self.text@, index: self.index, others: others_of(self.others@) }
    }
}

fn read_part(b: &[u8], names: &Vec<u8>, h: &Shdr, i: usize, found: &mut Found) -> (r: Option<
    String,
>)
    ensures
        match r {
            Some(e) => old(found)@.section(b@, names@, *h, i as int) == Err::<Parts, Seq<char>>(e@),
            None => old(found)@.section(b@, names@, *h, i as int) == Ok::<Parts, Seq<char>>(
                final(found)@,
            ),
        },
{
    let name: String = match read_name("ELF", names.as_slice(), h.name as u128) {
        Ok(s) => s,
        Err(e) => return Some(e),
    };
    if same(name.as_str(), ".text") {
        match read_span("ELF", b, h.offset, h.size) {
            Err(e) => Some(e),
            Ok(text) => {
                found.text = text;
                found.index = i as u16;
                None
            },
        }
    } else if h.flags & SHF_ALLOC != 0 && h.size > 0 && (h.kind == SHT_PROGBITS || h.kind
        == SHT_NOBITS) && strip_prefix(name.as_str(), ".eh_frame").is_none() {
        let data: Vec<u8> = if h.kind == SHT_NOBITS {
            Vec::new()
        } else {
            match read_span("ELF", b, h.offset, h.size) {
                Err(e) => return Some(e),
                Ok(v) => v,
            }
        };
        let ghost before = found.others@;
        let o = Other {
            name,
            index: i as u16,
            align: h.align,
            data,
            executable: h.flags & SHF_EXECINSTR != 0,
        };
        if h.kind == SHT_NOBITS {
            assert(data@ =~= Seq::empty());
        }
        found.others.push(o);
        assert(others_of(found.others@) =~= others_of(before).push(o@));
        None
    } else {
        None
    }
}

fn read_parts(b: &[u8], names: &Vec<u8>, heads: &Vec<Shdr>) -> (r: Result<Found, String>)
    ensures
        match r {
            Ok(p) => parts_of(b@, names@, heads@, heads.len() as int) == Ok::<Parts, Seq<char>>(p@),
            Err(e) => parts_of(b@, names@, heads@, heads.len() as int) == Err::<Parts, Seq<char>>(
                e@,
            ),
        },
{
    let mut found = Found { text: Vec::new(), index: 0, others: Vec::new() };
    let mut i: usize = 0;
    assert(found@.text =~= Seq::empty());
    assert(found@.others =~= Seq::empty());
    while i < heads.len()
        invariant
            i <= heads.len(),
            parts_of(b@, names@, heads@, i as int) == Ok::<Parts, Seq<char>>(found@),
        decreases heads.len() - i,
    {
        let ghost before = found@;
        match read_part(b, names, &heads[i], i, &mut found) {
            Some(e) => {
                proof {
                    lemma_parts_err(b@, names@, heads@, i as int + 1, heads.len() as int);
                }
                return Err(e);
            },
            None => {},
        }
        i = i + 1;
    }
    Ok(found)
}

fn read_sym(b: &[u8], names: &Vec<u8>, o: u128) -> (r: Result<Sym, String>)
    requires
        o <= u128::MAX - 64,
    ensures
        match r {
            Ok(s) => sym_at(b@, names@, o as nat) == Ok::<Sv, Seq<char>>(s@),
            Err(e) => sym_at(b@, names@, o as nat) == Err::<Sv, Seq<char>>(e@),
        },
{
    let at: u32 = match read32("ELF", b, o) {
        Ok(v) => v,
        Err(e) => return Err(e),
    };
    let sect: u16 = match read16("ELF", b, o + 6) {
        Ok(v) => v,
        Err(e) => return Err(e),
    };
    let name: String = match read_name("ELF", names.as_slice(), at as u128) {
        Ok(v) => v,
        Err(e) => return Err(e),
    };
    let value: u64 = match read64("ELF", b, o + 8) {
        Ok(v) => v,
        Err(e) => return Err(e),
    };
    let size: u64 = match read64("ELF", b, o + 16) {
        Ok(v) => v,
        Err(e) => return Err(e),
    };
    Ok(Sym { name, sect, value, size, defined: sect != 0 })
}

/// An error in the first symbols is the error of all of them.
proof fn lemma_table_syms_err(
    before: Seq<Sv>,
    b: Seq<u8>,
    names: Seq<u8>,
    offset: nat,
    i: int,
    n: int,
)
    requires
        0 < i <= n,
        table_syms(before, b, names, offset, i) is Err,
    ensures
        table_syms(before, b, names, offset, n) == table_syms(before, b, names, offset, i),
    decreases n - i,
{
    if i < n {
        lemma_table_syms_err(before, b, names, offset, i, n - 1);
    }
}

fn read_table_syms(b: &[u8], names: &Vec<u8>, offset: u64, n: u64, out: &mut Vec<Sym>) -> (r: Option<
    String,
>)
    ensures
        match r {
            Some(e) => table_syms(syms_of(old(out)@), b@, names@, offset as nat, n as int) == Err::<
                Seq<Sv>,
                Seq<char>,
            >(e@),
            None => table_syms(syms_of(old(out)@), b@, names@, offset as nat, n as int) == Ok::<
                Seq<Sv>,
                Seq<char>,
            >(syms_of(final(out)@)),
        },
{
    let ghost start = syms_of(out@);
    let mut i: u64 = 0;
    while i < n
        invariant
            i <= n,
            start == syms_of(old(out)@),
            table_syms(start, b@, names@, offset as nat, i as int) == Ok::<Seq<Sv>, Seq<char>>(
                syms_of(out@),
            ),
        decreases n - i,
    {
        match read_sym(b, names, offset as u128 + i as u128 * 24) {
            Err(e) => {
                proof {
                    lemma_table_syms_err(
                        start,
                        b@,
                        names@,
                        offset as nat,
                        i as int + 1,
                        n as int,
                    );
                }
                return Some(e);
            },
            Ok(s) => {
                let ghost before = out@;
                out.push(s);
                assert(syms_of(out@) =~= syms_of(before).push(s@));
            },
        }
        i = i + 1;
    }
    None
}

/// An error in the first tables is the error of all of them.
proof fn lemma_all_syms_err(b: Seq<u8>, heads: Seq<Shdr>, i: int, n: int)
    requires
        0 < i <= n,
        all_syms(b, heads, i) is Err,
    ensures
        all_syms(b, heads, n) == all_syms(b, heads, i),
    decreases n - i,
{
    if i < n {
        lemma_all_syms_err(b, heads, i, n - 1);
    }
}

fn read_syms(b: &[u8], heads: &Vec<Shdr>) -> (r: Result<Vec<Sym>, String>)
    ensures
        match r {
            Ok(v) => all_syms(b@, heads@, heads.len() as int) == Ok::<Seq<Sv>, Seq<char>>(
                syms_of(v@),
            ),
            Err(e) => all_syms(b@, heads@, heads.len() as int) == Err::<Seq<Sv>, Seq<char>>(e@),
        },
{
    let mut out: Vec<Sym> = Vec::new();
    let mut i: usize = 0;
    assert(syms_of(out@) =~= Seq::empty());
    while i < heads.len()
        invariant
            i <= heads.len(),
            all_syms(b@, heads@, i as int) == Ok::<Seq<Sv>, Seq<char>>(syms_of(out@)),
        decreases heads.len() - i,
    {
        let h: Shdr = heads[i];
        if h.kind == SHT_SYMTAB {
            let ghost n = heads.len() as int;
            if h.entsize != 24 {
                let w: String = decimal_of(h.entsize);
                proof {
                    lemma_all_syms_err(b@, heads@, i as int + 1, n);
                }
                return Err(join3("ELF symbols are ", w.as_str(), " bytes, not 24"));
            }
            if h.link as u64 >= heads.len() as u64 || heads[h.link as usize].kind != SHT_STRTAB {
                proof {
                    lemma_all_syms_err(b@, heads@, i as int + 1, n);
                }
                return Err(own("the ELF symbol table names no string table"));
            }
            let s: Shdr = heads[h.link as usize];
            match read_span("ELF", b, s.offset, s.size) {
                Err(e) => {
                    proof {
                        lemma_all_syms_err(b@, heads@, i as int + 1, n);
                    }
                    return Err(e);
                },
                Ok(names) => match read_table_syms(b, &names, h.offset, h.size / 24, &mut out) {
                    Some(e) => {
                        proof {
                            lemma_all_syms_err(b@, heads@, i as int + 1, n);
                        }
                        return Err(e);
                    },
                    None => {},
                },
            }
        }
        i = i + 1;
    }
    Ok(out)
}

fn read_rel(b: &[u8], o: u128) -> (r: Result<Reloc, String>)
    requires
        o <= u128::MAX - 64,
    ensures
        agree(r, rel_at(b@, o as nat)),
{
    let info: u64 = match read64("ELF", b, o + 8) {
        Ok(v) => v,
        Err(e) => return Err(e),
    };
    let addr: u64 = match read64("ELF", b, o) {
        Ok(v) => v,
        Err(e) => return Err(e),
    };
    let addend: u64 = match read64("ELF", b, o + 16) {
        Ok(v) => v,
        Err(e) => return Err(e),
    };
    Ok(
        Reloc {
            addr: addr as u32,
            kind: (info & 0xffff_ffff) as u32,
            symbolnum: (info >> 32) as u32,
            addend: addend as i64,
        },
    )
}

/// An error in the first relocations is the error of all of them.
proof fn lemma_table_rels_err(before: Seq<Reloc>, b: Seq<u8>, offset: nat, i: int, n: int)
    requires
        0 < i <= n,
        table_rels(before, b, offset, i) is Err,
    ensures
        table_rels(before, b, offset, n) == table_rels(before, b, offset, i),
    decreases n - i,
{
    if i < n {
        lemma_table_rels_err(before, b, offset, i, n - 1);
    }
}

fn read_table_rels(b: &[u8], offset: u64, n: u64, out: &mut Vec<Reloc>) -> (r: Option<String>)
    ensures
        match r {
            Some(e) => table_rels(old(out)@, b@, offset as nat, n as int) == Err::<
                Seq<Reloc>,
                Seq<char>,
            >(e@),
            None => table_rels(old(out)@, b@, offset as nat, n as int) == Ok::<
                Seq<Reloc>,
                Seq<char>,
            >(final(out)@),
        },
{
    let ghost start = out@;
    let mut i: u64 = 0;
    while i < n
        invariant
            i <= n,
            start == old(out)@,
            table_rels(start, b@, offset as nat, i as int) == Ok::<Seq<Reloc>, Seq<char>>(out@),
        decreases n - i,
    {
        match read_rel(b, offset as u128 + i as u128 * 24) {
            Err(e) => {
                proof {
                    lemma_table_rels_err(start, b@, offset as nat, i as int + 1, n as int);
                }
                return Some(e);
            },
            Ok(r) => out.push(r),
        }
        i = i + 1;
    }
    None
}

/// An error in the first tables is the error of all of them.
proof fn lemma_all_rels_err(b: Seq<u8>, heads: Seq<Shdr>, text: u16, i: int, n: int)
    requires
        0 < i <= n,
        all_rels(b, heads, text, i) is Err,
    ensures
        all_rels(b, heads, text, n) == all_rels(b, heads, text, i),
    decreases n - i,
{
    if i < n {
        lemma_all_rels_err(b, heads, text, i, n - 1);
    }
}

fn read_rels(b: &[u8], heads: &Vec<Shdr>, text: u16) -> (r: Result<Vec<Reloc>, String>)
    ensures
        match r {
            Ok(v) => all_rels(b@, heads@, text, heads.len() as int) == Ok::<Seq<Reloc>, Seq<char>>(
                v@,
            ),
            Err(e) => all_rels(b@, heads@, text, heads.len() as int) == Err::<
                Seq<Reloc>,
                Seq<char>,
            >(e@),
        },
{
    let mut out: Vec<Reloc> = Vec::new();
    let mut i: usize = 0;
    assert(out@ =~= Seq::empty());
    while i < heads.len()
        invariant
            i <= heads.len(),
            all_rels(b@, heads@, text, i as int) == Ok::<Seq<Reloc>, Seq<char>>(out@),
        decreases heads.len() - i,
    {
        let h: Shdr = heads[i];
        if h.kind == SHT_RELA && h.info as u16 == text {
            if h.entsize != 24 {
                let w: String = decimal_of(h.entsize);
                proof {
                    lemma_all_rels_err(b@, heads@, text, i as int + 1, heads.len() as int);
                }
                return Err(join3("ELF relocations are ", w.as_str(), " bytes, not 24"));
            }
            match read_table_rels(b, h.offset, h.size / 24, &mut out) {
                Some(e) => {
                    proof {
                        lemma_all_rels_err(b@, heads@, text, i as int + 1, heads.len() as int);
                    }
                    return Err(e);
                },
                None => {},
            }
        }
        i = i + 1;
    }
    Ok(out)
}

/// What an object's bytes hold. A field that is not inside the bytes is an error that gives its
/// offset.
pub fn read(bytes: &[u8]) -> (r: Result<Obj, String>)
    ensures
        match r {
            Ok(o) => read_of(bytes@) == Ok::<ObjV, Seq<char>>(o@),
            Err(e) => read_of(bytes@) == Err::<ObjV, Seq<char>>(e@),
        },
{
    if bytes.len() < 64 || bytes[0] != 0x7f || bytes[1] != 0x45 || bytes[2] != 0x4c || bytes[3]
        != 0x46 || bytes[4] != 2 || bytes[5] != 1 {
        return Err(own("not a 64-bit little-endian ELF object"));
    }
    let machine: u16 = crate::bytes::get16(bytes, 18);
    if machine != EM_AARCH64 && machine != EM_X86_64 {
        let n: String = decimal_of(machine as u64);
        return Err(join3("ELF object is for machine ", n.as_str(), ", not aarch64 or x86-64"));
    }
    let shoff: u64 = crate::bytes::get64(bytes, 40);
    let entry: u16 = crate::bytes::get16(bytes, 58);
    let count: u16 = crate::bytes::get16(bytes, 60);
    let names: u16 = crate::bytes::get16(bytes, 62);
    if entry != 64 {
        let n: String = decimal_of(entry as u64);
        return Err(join3("ELF section headers are ", n.as_str(), " bytes, not 64"));
    }
    let heads: Vec<Shdr> = match read_heads(bytes, shoff, count) {
        Err(e) => return Err(e),
        Ok(v) => v,
    };
    if names as usize >= heads.len() {
        return Err(own("ELF object names a section-name table it lacks"));
    }
    let h: Shdr = heads[names as usize];
    let table: Vec<u8> = match read_span("ELF", bytes, h.offset, h.size) {
        Err(e) => return Err(e),
        Ok(v) => v,
    };
    let found: Found = match read_parts(bytes, &table, &heads) {
        Err(e) => return Err(e),
        Ok(v) => v,
    };
    if found.text.len() == 0 && found.index == 0 {
        return Err(own("ELF object has no .text"));
    }
    let syms: Vec<Sym> = match read_syms(bytes, &heads) {
        Err(e) => return Err(e),
        Ok(v) => v,
    };
    let text_relocs: Vec<Reloc> = match read_rels(bytes, &heads, found.index) {
        Err(e) => return Err(e),
        Ok(v) => v,
    };
    Ok(Obj { machine, text: found.text, text_relocs, syms, other_sections: found.others })
}

/// Whether a symbol is a function's: it is defined, it has a size, and its name is no local label.
pub open spec fn is_function(s: Sv) -> bool {
    s.defined && s.size > 0 && s.name.len() > 0 && !begins(s.name, ".L"@)
}

/// The body of a function, no further than the code goes.
pub open spec fn body_of(s: Sv, text: nat) -> Ev {
    let start = s.value as usize;
    let end = start + s.size as usize;
    Ev {
        name: s.name,
        start: start as u64,
        end: (if end <= text {
            end
        } else {
            text as int
        }) as u64,
    }
}

/// The bodies among the first `n` symbols, in the order in which they stand in the code.
pub open spec fn bodies(syms: Seq<Sv>, text: nat, n: int) -> Seq<Ev>
    decreases n,
{
    if n <= 0 {
        Seq::empty()
    } else if is_function(syms[n - 1]) {
        inserted(bodies(syms, text, n - 1), body_of(syms[n - 1], text))
    } else {
        bodies(syms, text, n - 1)
    }
}

/// The functions stand in the order of the code, and those that start at one place in the order of
/// their names.
pub proof fn functions_are_in_order(syms: Seq<Sv>, text: nat, n: int)
    ensures
        in_order(bodies(syms, text, n)),
    decreases n,
{
    if n > 0 {
        functions_are_in_order(syms, text, n - 1);
        if is_function(syms[n - 1]) {
            an_insertion_keeps_the_order(bodies(syms, text, n - 1), body_of(syms[n - 1], text));
        }
    }
}

/// Named extents, as values.
pub open spec fn triples(v: Seq<(String, usize, usize)>) -> Seq<Ev> {
    v.map_values(
        |t: (String, usize, usize)| Ev { name: t.0@, start: t.1 as u64, end: t.2 as u64 },
    )
}

/// Extents as triples.
pub fn into_triples(v: Vec<Extent>) -> (r: Vec<(String, usize, usize)>)
    requires
        forall|i: int|
            0 <= i < v.len() ==> (#[trigger] v[i]).start <= usize::MAX && v[i].end <= usize::MAX,
    ensures
        triples(r@) == extents(v@),
{
    let mut out: Vec<(String, usize, usize)> = Vec::new();
    let mut i: usize = 0;
    assert(triples(out@) =~= extents(v@).subrange(0, 0));
    while i < v.len()
        invariant
            i <= v.len(),
            triples(out@) == extents(v@).subrange(0, i as int),
            forall|i: int|
                0 <= i < v.len() ==> (#[trigger] v[i]).start <= usize::MAX && v[i].end
                    <= usize::MAX,
        decreases v.len() - i,
    {
        let e: &Extent = &v[i];
        let ghost before = out@;
        let t: (String, usize, usize) = (e.name.clone(), e.start as usize, e.end as usize);
        out.push(t);
        assert(triples(out@) =~= triples(before).push(e@));
        i = i + 1;
        assert(extents(v@).subrange(0, i as int) =~= extents(v@).subrange(0, i - 1).push(e@));
    }
    assert(extents(v@).subrange(0, i as int) =~= extents(v@));
    out
}

/// The functions of the code, as names with where they start and end, in order.
pub fn functions(o: &Obj) -> (r: Vec<(String, usize, usize)>)
    ensures
        triples(r@) == bodies(o@.syms, o@.text.len(), o@.syms.len() as int),
{
    let text: usize = o.text.len();
    let mut out: Vec<Extent> = Vec::new();
    let mut i: usize = 0;
    assert(extents(out@) =~= Seq::empty());
    while i < o.syms.len()
        invariant
            i <= o.syms.len(),
            text == o@.text.len(),
            extents(out@) == bodies(o@.syms, text as nat, i as int),
            forall|k: int|
                0 <= k < extents(out@).len() ==> (#[trigger] extents(out@)[k]).start <= usize::MAX
                    && extents(out@)[k].end <= usize::MAX,
        decreases o.syms.len() - i,
    {
        let s: &Sym = &o.syms[i];
        assert(o@.syms[i as int] == s@);
        if s.defined && s.size > 0 && !s.name.as_str().is_empty() && strip_prefix(
            s.name.as_str(),
            ".L",
        ).is_none() {
            let start: usize = s.value as usize;
            let size: usize = s.size as usize;
            let end: usize = if start <= text && size <= text - start {
                start + size
            } else {
                text
            };
            let e = Extent { name: s.name.clone(), start: start as u64, end: end as u64 };
            let ghost before = extents(out@);
            assert(e@ == body_of(s@, text as nat));
            insert_extent(&mut out, e);
            proof {
                lemma_inserted_members(before, e@);
            }
        }
        i = i + 1;
    }
    assert forall|k: int| 0 <= k < out.len() implies (#[trigger] out[k]).start <= usize::MAX
        && out[k].end <= usize::MAX by {
        assert(extents(out@)[k] == out[k]@);
    }
    into_triples(out)
}

/// What an insertion holds was there, or is the extent.
pub proof fn lemma_inserted_members(v: Seq<Ev>, x: Ev)
    ensures
        forall|i: int|
            0 <= i < inserted(v, x).len() ==> #[trigger] inserted(v, x)[i] == x || v.contains(
                inserted(v, x)[i],
            ),
    decreases v.len(),
{
    let t = inserted(v, x);
    if v.len() > 0 && sooner(x, v.last()) {
        let w = v.drop_last();
        lemma_inserted_members(w, x);
        assert forall|i: int| 0 <= i < t.len() implies #[trigger] t[i] == x || v.contains(t[i]) by {
            let r = inserted(w, x);
            if i < r.len() {
                assert(t[i] == r[i]);
                if r[i] != x {
                    let k = choose|k: int| 0 <= k < w.len() && w[k] == r[i];
                    assert(v[k] == t[i]);
                }
            } else {
                assert(v[v.len() - 1] == t[i]);
            }
        }
    } else {
        assert forall|i: int| 0 <= i < t.len() implies #[trigger] t[i] == x || v.contains(t[i]) by {
            if i < v.len() {
                assert(v[i] == t[i]);
            }
        }
    }
}

} // verus!
