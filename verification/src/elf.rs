//! A writer of ELF64 relocatable objects.
//!
//! It writes one object with the sections of a unit, a `RELA` section for each one that needs it,
//! a symbol table and two string tables. Anything it cannot express is an error. Every ordering in
//! the output comes from an index, so the same inputs give the same bytes.

use crate::abi::Tgt;
use crate::bytes::{
    append, gap, le16, le32, le64, pad, put16, put32, put64, put_text, utf8, word_at, word_of, zeros,
};
use crate::object::{RelKind, Reloc, Section, Symbol, CODE_ATTRIBUTES};
use crate::text::{
    decimal, decimal_of, hex, hex_of, hex_word, hex_word_of, join2, join3, join4, join5, own,
    position, position_of, texts,
};
use vstd::prelude::*;

verus! {

pub const ET_REL: u16 = 1;
pub const EM_AARCH64: u16 = 183;
pub const EM_X86_64: u16 = 62;

pub const SHT_PROGBITS: u32 = 1;
pub const SHT_SYMTAB: u32 = 2;
pub const SHT_STRTAB: u32 = 3;
pub const SHT_RELA: u32 = 4;
pub const SHT_NOBITS: u32 = 8;

pub const SHF_WRITE: u64 = 0x1;
pub const SHF_ALLOC: u64 = 0x2;
pub const SHF_EXECINSTR: u64 = 0x4;
pub const SHF_INFO_LINK: u64 = 0x40;

pub const R_AARCH64_ABS64: u32 = 257;
pub const R_AARCH64_ADR_PREL_PG_HI21: u32 = 275;
pub const R_AARCH64_ADD_ABS_LO12_NC: u32 = 277;
pub const R_AARCH64_JUMP26: u32 = 282;
pub const R_AARCH64_CALL26: u32 = 283;
pub const R_AARCH64_LDST64_ABS_LO12_NC: u32 = 286;
pub const R_X86_64_64: u32 = 1;
pub const R_X86_64_PC32: u32 = 2;
pub const R_X86_64_PLT32: u32 = 4;

/// log2 of the widest alignment that a section may ask for.
pub const MAX_ALIGN_LOG2: u32 = 15;

/// The relocation type of a kind. Where the machine splits a kind in two, the instruction at the
/// place decides; a kind that the machine does not have is refused by name.
pub open spec fn type_of(target: Tgt, kind: RelKind, w: u32, place: Seq<char>) -> Result<
    u32,
    Seq<char>,
> {
    if target.arm64() {
        match kind {
            RelKind::Abs64 => Ok(R_AARCH64_ABS64),
            RelKind::Page21 => Ok(R_AARCH64_ADR_PREL_PG_HI21),
            RelKind::Branch26 => if w & 0x8000_0000 != 0 {
                Ok(R_AARCH64_CALL26)
            } else {
                Ok(R_AARCH64_JUMP26)
            },
            RelKind::PageOff12 => if w & 0xffc0_0000 == 0x9100_0000 {
                Ok(R_AARCH64_ADD_ABS_LO12_NC)
            } else if w & 0xffc0_0000 == 0xf940_0000 {
                Ok(R_AARCH64_LDST64_ABS_LO12_NC)
            } else {
                Err(
                    place + ": a low-12 relocation names "@ + hex_word(w)
                        + ", which is neither `add Xd, Xn, #imm12` nor `ldr Xt, [Xn, #imm12]`"@,
                )
            },
            _ => Err(place + ": "@ + x86_name(kind) + " has no aarch64 relocation type"@),
        }
    } else {
        match kind {
            RelKind::Abs64 => Ok(R_X86_64_64),
            RelKind::Rel32 => Ok(R_X86_64_PLT32),
            RelKind::Pc32 => Ok(R_X86_64_PC32),
            _ => Err(place + ": "@ + arm_name(kind) + " has no x86-64 relocation type"@),
        }
    }
}

/// What a kind that only x86-64 has is called.
pub open spec fn x86_name(kind: RelKind) -> Seq<char> {
    if kind == RelKind::Pc32 {
        "a rip-relative disp32"@
    } else {
        "the rel32 of a jmp/call/jcc"@
    }
}

/// What a kind that only A64 has is called.
pub open spec fn arm_name(kind: RelKind) -> Seq<char> {
    if kind == RelKind::Page21 {
        "the page half of an adrp pair"@
    } else if kind == RelKind::Branch26 {
        "the 26-bit displacement of a b/bl"@
    } else {
        "the offset half of an adrp pair"@
    }
}

/// The relocation type of a kind at a place that holds the word `w`.
pub fn r_type(target: Tgt, kind: RelKind, w: u32, where_: &str) -> (r: Result<u32, String>)
    ensures
        match r {
            Ok(n) => type_of(target, kind, w, where_@) == Ok::<u32, Seq<char>>(n),
            Err(e) => type_of(target, kind, w, where_@) == Err::<u32, Seq<char>>(e@),
        },
{
    if target.is_arm64() {
        match kind {
            RelKind::Abs64 => Ok(R_AARCH64_ABS64),
            RelKind::Page21 => Ok(R_AARCH64_ADR_PREL_PG_HI21),
            RelKind::Branch26 => if w & 0x8000_0000 != 0 {
                Ok(R_AARCH64_CALL26)
            } else {
                Ok(R_AARCH64_JUMP26)
            },
            RelKind::PageOff12 => if w & 0xffc0_0000 == 0x9100_0000 {
                Ok(R_AARCH64_ADD_ABS_LO12_NC)
            } else if w & 0xffc0_0000 == 0xf940_0000 {
                Ok(R_AARCH64_LDST64_ABS_LO12_NC)
            } else {
                let digits: String = hex_word_of(w);
                Err(
                    join4(
                        where_,
                        ": a low-12 relocation names ",
                        digits.as_str(),
                        ", which is neither `add Xd, Xn, #imm12` nor `ldr Xt, [Xn, #imm12]`",
                    ),
                )
            },
            RelKind::Pc32 => Err(
                join4(where_, ": ", "a rip-relative disp32", " has no aarch64 relocation type"),
            ),
            RelKind::Rel32 => Err(
                join4(
                    where_,
                    ": ",
                    "the rel32 of a jmp/call/jcc",
                    " has no aarch64 relocation type",
                ),
            ),
        }
    } else {
        match kind {
            RelKind::Abs64 => Ok(R_X86_64_64),
            RelKind::Rel32 => Ok(R_X86_64_PLT32),
            RelKind::Pc32 => Ok(R_X86_64_PC32),
            RelKind::Page21 => Err(
                join4(
                    where_,
                    ": ",
                    "the page half of an adrp pair",
                    " has no x86-64 relocation type",
                ),
            ),
            RelKind::Branch26 => Err(
                join4(
                    where_,
                    ": ",
                    "the 26-bit displacement of a b/bl",
                    " has no x86-64 relocation type",
                ),
            ),
            RelKind::PageOff12 => Err(
                join4(
                    where_,
                    ": ",
                    "the offset half of an adrp pair",
                    " has no x86-64 relocation type",
                ),
            ),
        }
    }
}

/// A kind has a relocation type on exactly one of the two machines, but for an absolute address,
/// which has one on both.
pub proof fn a_kind_belongs_to_one_machine(kind: RelKind, w: u32, place: Seq<char>)
    ensures
        kind != RelKind::Abs64 ==> type_of(Tgt::LinuxArm64, kind, w, place) is Err || type_of(
            Tgt::LinuxX86_64,
            kind,
            w,
            place,
        ) is Err,
        kind == RelKind::Abs64 ==> type_of(Tgt::LinuxArm64, kind, w, place) is Ok && type_of(
            Tgt::LinuxX86_64,
            kind,
            w,
            place,
        ) is Ok,
{
}

/// A string table: the bytes, and where each name that was asked for stands.
pub struct Strt {
    pub bytes: Seq<u8>,
    pub names: Seq<Seq<char>>,
    pub ats: Seq<u32>,
}

impl Strt {
    /// The table with the empty name alone.
    pub open spec fn new() -> Strt {
        Strt { bytes: seq![0u8], names: Seq::empty(), ats: Seq::empty() }
    }

    /// The table with a name in it, and where the name stands.
    pub open spec fn put(self, s: Seq<char>) -> (Strt, u32) {
        if s.len() == 0 {
            (self, 0u32)
        } else {
            match position(self.names, s) {
                Some(i) => (self, self.ats[i]),
                None => {
                    let at = self.bytes.len() as u32;
                    (
                        Strt {
                            bytes: self.bytes + utf8(s) + seq![0u8],
                            names: self.names.push(s),
                            ats: self.ats.push(at),
                        },
                        at,
                    )
                },
            }
        }
    }
}

struct Strtab {
    bytes: Vec<u8>,
    names: Vec<String>,
    ats: Vec<u32>,
}

impl View for Strtab {
    type V = Strt;

    closed spec fn view(&self) -> Strt {
        Strt { bytes: self.bytes@, names: texts(self.names@), ats: self.ats@ }
    }
}

impl Strtab {
    spec fn wf(self) -> bool {
        self.names.len() == self.ats.len()
    }

    fn new() -> (r: Strtab)
        ensures
            r@ == Strt::new(),
            r.wf(),
    {
        let mut bytes: Vec<u8> = Vec::new();
        bytes.push(0);
        let r = Strtab { bytes, names: Vec::new(), ats: Vec::new() };
        assert(r@.names =~= Seq::empty());
        assert(r@.bytes =~= seq![0u8]);
        r
    }

    fn put(&mut self, s: &str) -> (r: u32)
        requires
            old(self).wf(),
        ensures
            (final(self)@, r) == old(self)@.put(s@),
            final(self).wf(),
    {
        if s.is_empty() {
            return 0;
        }
        match position_of(&self.names, s) {
            Some(i) => self.ats[i],
            None => {
                let at: u32 = self.bytes.len() as u32;
                put_text(&mut self.bytes, s);
                self.bytes.push(0);
                let ghost before = self.names@;
                self.names.push(own(s));
                self.ats.push(at);
                assert(texts(self.names@) =~= texts(before).push(s@));
                assert(self.bytes@ =~= old(self).bytes@ + utf8(s@) + seq![0u8]);
                at
            },
        }
    }
}

/// One section header.
#[derive(Clone, Copy)]
pub struct Shdr {
    pub name: u32,
    pub kind: u32,
    pub flags: u64,
    pub offset: u64,
    pub size: u64,
    pub link: u32,
    pub info: u32,
    pub align: u64,
    pub entsize: u64,
}

/// The bytes of a section header.
pub open spec fn shdr_bytes(h: Shdr) -> Seq<u8> {
    le32(h.name) + le32(h.kind) + le64(h.flags) + le64(0) + le64(h.offset) + le64(h.size) + le32(
        h.link,
    ) + le32(h.info) + le64(h.align) + le64(h.entsize)
}

impl Shdr {
    fn write(&self, out: &mut Vec<u8>)
        ensures
            final(out)@ == old(out)@ + shdr_bytes(*self),
    {
        put32(out, self.name);
        put32(out, self.kind);
        put64(out, self.flags);
        put64(out, 0);
        put64(out, self.offset);
        put64(out, self.size);
        put32(out, self.link);
        put32(out, self.info);
        put64(out, self.align);
        put64(out, self.entsize);
        assert(out@ =~= old(out)@ + shdr_bytes(*self));
    }
}

/// The bytes of several headers, up to header `n`.
pub open spec fn shdrs_bytes(h: Seq<Shdr>, n: int) -> Seq<u8>
    decreases n,
{
    if n <= 0 {
        Seq::empty()
    } else {
        shdrs_bytes(h, n - 1) + shdr_bytes(h[n - 1])
    }
}

/// Why a section cannot be written.
pub open spec fn section_refusal(s: Section) -> Option<Seq<char>> {
    if s.align > MAX_ALIGN_LOG2 {
        Some(
            "section "@ + s.name@ + " asks for 2^"@ + decimal(s.align as nat)
                + " alignment; the maximum is 2^15"@,
        )
    } else if s.zerofill > 0 && s.data.len() > 0 {
        Some("zero-fill section "@ + s.name@ + " also carries bytes"@)
    } else {
        None
    }
}

/// Why the first section that cannot be written cannot be, from section `i` on.
pub open spec fn sections_refusal(sections: Seq<Section>, i: int) -> Option<Seq<char>>
    decreases sections.len() - i,
{
    if i >= sections.len() {
        None
    } else {
        match section_refusal(sections[i]) {
            Some(e) => Some(e),
            None => sections_refusal(sections, i + 1),
        }
    }
}

/// How many bytes a relocation fills in.
pub open spec fn field_width(k: RelKind) -> int {
    if k == RelKind::Abs64 {
        8
    } else {
        4
    }
}

/// Why a relocation cannot be placed.
pub open spec fn reloc_refusal(sections: Seq<Section>, symbols: nat, r: Reloc) -> Option<
    Seq<char>,
> {
    if r.section >= sections.len() {
        Some(
            "a relocation names section "@ + decimal(r.section as nat) + ", which does not exist"@,
        )
    } else if r.offset + field_width(r.kind) > sections[r.section as int].data.len() {
        let s = sections[r.section as int];
        Some(
            "a relocation at "@ + hex(r.offset as nat) + " is outside section "@ + s.name@ + " ("@
                + decimal(s.data.len() as nat) + " bytes)"@,
        )
    } else if r.symbol >= symbols {
        Some("a relocation names symbol "@ + decimal(r.symbol as nat) + ", which does not exist"@)
    } else {
        None
    }
}

/// Why the first relocation that cannot be placed cannot be, from relocation `i` on.
pub open spec fn relocs_refusal(
    sections: Seq<Section>,
    symbols: nat,
    relocs: Seq<Reloc>,
    i: int,
) -> Option<Seq<char>>
    decreases relocs.len() - i,
{
    if i >= relocs.len() {
        None
    } else {
        match reloc_refusal(sections, symbols, relocs[i]) {
            Some(e) => Some(e),
            None => relocs_refusal(sections, symbols, relocs, i + 1),
        }
    }
}

/// How many of the first `n` symbols are of one binding.
pub open spec fn rank(symbols: Seq<Symbol>, global: bool, n: int) -> nat
    decreases n,
{
    if n <= 0 {
        0
    } else {
        rank(symbols, global, n - 1) + (if symbols[n - 1].global == global {
            1nat
        } else {
            0
        })
    }
}

/// Where symbol `k` stands in the table: behind the null symbol, the local symbols first, each
/// binding in the order it was given.
pub open spec fn slot(symbols: Seq<Symbol>, k: int) -> nat {
    if symbols[k].global {
        1 + rank(symbols, false, symbols.len() as int) + rank(symbols, true, k)
    } else {
        1 + rank(symbols, false, k)
    }
}

/// The symbol table while it is built, with its string table.
pub struct Syms {
    pub names: Strt,
    pub bytes: Seq<u8>,
}

/// The bytes of a symbol.
pub open spec fn sym_bytes(name: u32, info: u8, section: u16, value: u64) -> Seq<u8> {
    le32(name) + seq![info, 0u8] + le16(section) + le64(value) + le64(0)
}

/// Whether a section holds instructions.
pub open spec fn code(s: Section) -> bool {
    s.attributes & CODE_ATTRIBUTES != 0
}

/// A symbol's section number: the sections are numbered from one.
pub open spec fn sym_section(s: Symbol) -> u16 {
    match s.defined {
        None => 0,
        Some(d) => (d.section + 1) as u16,
    }
}

/// A symbol's value.
pub open spec fn sym_value(s: Symbol) -> u64 {
    match s.defined {
        None => 0,
        Some(d) => d.offset,
    }
}

/// A symbol's binding and type.
pub open spec fn sym_info(sections: Seq<Section>, s: Symbol) -> u8 {
    let bind: u8 = if s.global {
        16
    } else {
        0
    };
    let kind: u8 = match s.defined {
        None => 0,
        Some(d) => if code(sections[d.section as int]) {
            2
        } else {
            1
        },
    };
    (bind + kind) as u8
}

/// Why a symbol cannot be written.
pub open spec fn sym_refusal(sections: Seq<Section>, s: Symbol) -> Option<Seq<char>> {
    match s.defined {
        None => None,
        Some(d) => if d.section >= sections.len() {
            Some("symbol "@ + s.name@ + " is defined in a section that does not exist"@)
        } else {
            None
        },
    }
}

impl Syms {
    /// The table with the null symbol alone.
    pub open spec fn new() -> Syms {
        Syms { names: Strt::new(), bytes: zeros(24) }
    }

    /// One symbol more.
    pub open spec fn put(self, sections: Seq<Section>, s: Symbol) -> Syms {
        let named = self.names.put(s.name@);
        Syms {
            names: named.0,
            bytes: self.bytes + sym_bytes(
                named.1,
                sym_info(sections, s),
                sym_section(s),
                sym_value(s),
            ),
        }
    }

    /// The symbols of one binding, from symbol `i` on: the table, and why it was given up.
    pub open spec fn pass(
        self,
        sections: Seq<Section>,
        symbols: Seq<Symbol>,
        global: bool,
        i: int,
    ) -> (Syms, Option<Seq<char>>)
        decreases symbols.len() - i,
    {
        if i >= symbols.len() {
            (self, None)
        } else if symbols[i].global != global {
            self.pass(sections, symbols, global, i + 1)
        } else {
            match sym_refusal(sections, symbols[i]) {
                Some(e) => (self, Some(e)),
                None => self.put(sections, symbols[i]).pass(sections, symbols, global, i + 1),
            }
        }
    }
}

/// The bytes of a relocation.
pub open spec fn rela_bytes(offset: u64, symbol: u64, ty: u32, addend: i64) -> Seq<u8> {
    le64(offset) + le64((symbol << 32) | ty as u64) + le64(addend as u64)
}

/// The name of a place in a section.
pub open spec fn place_name(s: Section, offset: u64) -> Seq<char> {
    s.name@ + "+"@ + hex(offset as nat)
}

/// The relocations of section `i`, from relocation `j` on, behind those in `t`.
pub open spec fn rela_table(
    target: Tgt,
    sections: Seq<Section>,
    symbols: Seq<Symbol>,
    relocs: Seq<Reloc>,
    i: int,
    j: int,
    t: Seq<u8>,
) -> Result<Seq<u8>, Seq<char>>
    decreases relocs.len() - j,
{
    if j >= relocs.len() {
        Ok(t)
    } else if relocs[j].section != i {
        rela_table(target, sections, symbols, relocs, i, j + 1, t)
    } else {
        let r = relocs[j];
        let w = word_of(sections[i].data@, r.offset as int);
        match type_of(target, r.kind, w, place_name(sections[i], r.offset)) {
            Err(e) => Err(e),
            Ok(ty) => rela_table(
                target,
                sections,
                symbols,
                relocs,
                i,
                j + 1,
                t + rela_bytes(
                    r.offset,
                    slot(symbols, r.symbol as int) as u64,
                    ty,
                    r.addend,
                ),
            ),
        }
    }
}

/// The relocation tables of the first `n` sections.
pub open spec fn rela_tables(
    target: Tgt,
    sections: Seq<Section>,
    symbols: Seq<Symbol>,
    relocs: Seq<Reloc>,
    n: int,
) -> Result<Seq<Seq<u8>>, Seq<char>>
    decreases n,
{
    if n <= 0 {
        Ok(Seq::empty())
    } else {
        match rela_tables(target, sections, symbols, relocs, n - 1) {
            Err(e) => Err(e),
            Ok(done) => match rela_table(
                target,
                sections,
                symbols,
                relocs,
                n - 1,
                0,
                Seq::empty(),
            ) {
                Err(e) => Err(e),
                Ok(t) => Ok(done.push(t)),
            },
        }
    }
}

/// How many of the first `n` tables hold anything.
pub open spec fn filled(tables: Seq<Seq<u8>>, n: int) -> nat
    decreases n,
{
    if n <= 0 {
        0
    } else {
        filled(tables, n - 1) + (if tables[n - 1].len() > 0 {
            1nat
        } else {
            0
        })
    }
}

/// The section names, with where each of them stands.
pub struct Named {
    pub table: Strt,
    pub at: Seq<u32>,
}

/// The names of the first `n` sections.
pub open spec fn section_names(sections: Seq<Section>, n: int) -> Named
    decreases n,
{
    if n <= 0 {
        Named { table: Strt::new(), at: Seq::empty() }
    } else {
        let before = section_names(sections, n - 1);
        let put = before.table.put(sections[n - 1].name@);
        Named { table: put.0, at: before.at.push(put.1) }
    }
}

/// The names of the relocation tables of the first `n` sections; an empty table has none.
pub open spec fn rela_names(
    start: Strt,
    sections: Seq<Section>,
    tables: Seq<Seq<u8>>,
    n: int,
) -> Named
    decreases n,
{
    if n <= 0 {
        Named { table: start, at: Seq::empty() }
    } else {
        let before = rela_names(start, sections, tables, n - 1);
        if tables[n - 1].len() > 0 {
            let put = before.table.put(".rela"@ + sections[n - 1].name@);
            Named { table: put.0, at: before.at.push(put.1) }
        } else {
            Named { table: before.table, at: before.at.push(0) }
        }
    }
}

/// The object while it is laid out: the file up to here, and the headers.
pub struct Lay {
    pub file: Seq<u8>,
    pub heads: Seq<Shdr>,
}

/// Where bytes go that are aligned to `align`.
pub open spec fn placed_at(file: Seq<u8>, align: nat) -> nat {
    file.len() + gap(file.len(), align)
}

/// The file with bytes behind it, aligned.
pub open spec fn placed(file: Seq<u8>, align: nat, data: Seq<u8>) -> Seq<u8> {
    file + zeros(gap(file.len(), align)) + data
}

/// The header of nothing.
pub open spec fn null_head() -> Shdr {
    Shdr {
        name: 0,
        kind: 0,
        flags: 0,
        offset: 0,
        size: 0,
        link: 0,
        info: 0,
        align: 0,
        entsize: 0,
    }
}

/// The header of a section.
pub open spec fn section_head(s: Section, name: u32, file: Seq<u8>) -> Shdr {
    let align = 1u64 << s.align;
    Shdr {
        name,
        kind: if s.zerofill > 0 {
            SHT_NOBITS
        } else {
            SHT_PROGBITS
        },
        flags: if code(s) {
            (SHF_ALLOC + SHF_EXECINSTR) as u64
        } else {
            (SHF_ALLOC + SHF_WRITE) as u64
        },
        offset: if s.zerofill > 0 {
            file.len() as u64
        } else {
            placed_at(file, align as nat) as u64
        },
        size: if s.zerofill > 0 {
            s.zerofill
        } else {
            s.data.len() as u64
        },
        link: 0,
        info: 0,
        align,
        entsize: 0,
    }
}

/// The header of a relocation table.
pub open spec fn rela_head(i: int, name: u32, size: u64, offset: u64, symtab: u32) -> Shdr {
    Shdr {
        name,
        kind: SHT_RELA,
        flags: SHF_INFO_LINK,
        offset,
        size,
        link: symtab,
        info: ((i + 1) as u16) as u32,
        align: 8,
        entsize: 24,
    }
}

/// A header of bytes that no section of the unit carries.
pub open spec fn table_head(
    name: u32,
    kind: u32,
    offset: u64,
    size: u64,
    link: u32,
    info: u32,
    align: u64,
    entsize: u64,
) -> Shdr {
    Shdr { name, kind, flags: 0, offset, size, link, info, align, entsize }
}

impl Lay {
    /// The file header's place, and the null header.
    pub open spec fn new() -> Lay {
        Lay { file: zeros(64), heads: seq![null_head()] }
    }

    /// One section.
    pub open spec fn section(self, s: Section, name: u32) -> Lay {
        Lay {
            file: if s.zerofill > 0 {
                self.file
            } else {
                placed(self.file, (1u64 << s.align) as nat, s.data@)
            },
            heads: self.heads.push(section_head(s, name, self.file)),
        }
    }

    /// The first `n` sections.
    pub open spec fn sections(self, sections: Seq<Section>, names: Seq<u32>, n: int) -> Lay
        decreases n,
    {
        if n <= 0 {
            self
        } else {
            self.sections(sections, names, n - 1).section(sections[n - 1], names[n - 1])
        }
    }

    /// The relocation tables of the first `n` sections; an empty table is left out.
    pub open spec fn relas(
        self,
        tables: Seq<Seq<u8>>,
        names: Seq<u32>,
        symtab: u32,
        n: int,
    ) -> Lay
        decreases n,
    {
        if n <= 0 {
            self
        } else {
            let l = self.relas(tables, names, symtab, n - 1);
            let t = tables[n - 1];
            if t.len() == 0 {
                l
            } else {
                Lay {
                    file: placed(l.file, 8, t),
                    heads: l.heads.push(
                        rela_head(
                            n - 1,
                            names[n - 1],
                            t.len() as u64,
                            placed_at(l.file, 8) as u64,
                            symtab,
                        ),
                    ),
                }
            }
        }
    }

    /// The empty section whose absence would make the stack executable.
    pub open spec fn note(self, name: u32) -> Lay {
        Lay {
            heads: self.heads.push(
                table_head(name, SHT_PROGBITS, self.file.len() as u64, 0, 0, 0, 1, 0),
            ),
            ..self
        }
    }

    /// A table of the object itself.
    pub open spec fn table(
        self,
        name: u32,
        kind: u32,
        data: Seq<u8>,
        link: u32,
        info: u32,
        align: u64,
        entsize: u64,
    ) -> Lay {
        Lay {
            file: placed(self.file, align as nat, data),
            heads: self.heads.push(
                table_head(
                    name,
                    kind,
                    placed_at(self.file, align as nat) as u64,
                    data.len() as u64,
                    link,
                    info,
                    align,
                    entsize,
                ),
            ),
        }
    }
}

/// The file header.
pub open spec fn file_header(machine: u16, shoff: u64, heads: nat) -> Seq<u8> {
    seq![0x7fu8, 0x45u8, 0x4cu8, 0x46u8, 2u8, 1u8, 1u8, 0u8] + zeros(8) + le16(ET_REL) + le16(
        machine,
    ) + le32(1) + le64(0) + le64(0) + le64(shoff) + le32(0) + le16(64) + le16(0) + le16(0) + le16(
        64,
    ) + le16(heads as u16) + le16((heads - 1) as u16)
}

/// The machine number of a target.
pub open spec fn machine_of(target: Tgt) -> u16 {
    if target.arm64() {
        EM_AARCH64
    } else {
        EM_X86_64
    }
}

/// The section number of the symbol table.
pub open spec fn symtab_index(sections: nat, tables: nat) -> u32 {
    (2 + sections + tables) as u32
}

/// The object, laid out.
pub open spec fn laid_out(
    sections: Seq<Section>,
    tables: Seq<Seq<u8>>,
    syms: Syms,
    locals: nat,
) -> Lay {
    let n = sections.len() as int;
    let names = section_names(sections, n);
    let relas = rela_names(names.table, sections, tables, n);
    let note = relas.table.put(".note.GNU-stack"@);
    let symtab = note.0.put(".symtab"@);
    let strtab = symtab.0.put(".strtab"@);
    let shstrtab = strtab.0.put(".shstrtab"@);
    let index = symtab_index(sections.len(), filled(tables, n));
    Lay::new().sections(sections, names.at, n).relas(tables, relas.at, index, n).note(note.1).table(
        symtab.1,
        SHT_SYMTAB,
        syms.bytes,
        (index + 1) as u32,
        (locals + 1) as u32,
        8,
        24,
    ).table(strtab.1, SHT_STRTAB, syms.names.bytes, 0, 0, 1, 0).table(
        shstrtab.1,
        SHT_STRTAB,
        shstrtab.0.bytes,
        0,
        0,
        1,
        0,
    )
}

/// The file of an object that is laid out: its header, its bytes, and the section headers on a
/// multiple of eight.
pub open spec fn file_of(machine: u16, l: Lay) -> Seq<u8> {
    let body = l.file + zeros(gap(l.file.len(), 8));
    file_header(machine, body.len() as u64, l.heads.len()) + body.subrange(64, body.len() as int)
        + shdrs_bytes(l.heads, l.heads.len() as int)
}

/// The object's bytes, or why it cannot be written.
pub open spec fn object_of(
    target: Tgt,
    sections: Seq<Section>,
    symbols: Seq<Symbol>,
    relocs: Seq<Reloc>,
) -> Result<Seq<u8>, Seq<char>> {
    let n = sections.len() as int;
    if n == 0 {
        Err("an ELF object needs at least one section"@)
    } else if sections_refusal(sections, 0) is Some {
        Err(sections_refusal(sections, 0)->0)
    } else if relocs_refusal(sections, symbols.len(), relocs, 0) is Some {
        Err(relocs_refusal(sections, symbols.len(), relocs, 0)->0)
    } else {
        let locals = Syms::new().pass(sections, symbols, false, 0);
        let all = locals.0.pass(sections, symbols, true, 0);
        if locals.1 is Some {
            Err(locals.1->0)
        } else if all.1 is Some {
            Err(all.1->0)
        } else {
            match rela_tables(target, sections, symbols, relocs, n) {
                Err(e) => Err(e),
                Ok(tables) => Ok(
                    file_of(
                        machine_of(target),
                        laid_out(
                            sections,
                            tables,
                            all.0,
                            rank(symbols, false, symbols.len() as int),
                        ),
                    ),
                ),
            }
        }
    }
}

fn check_sections(sections: &[Section]) -> (r: Option<String>)
    ensures
        match r {
            Some(e) => sections_refusal(sections@, 0) == Some(e@),
            None => sections_refusal(sections@, 0) is None,
        },
{
    let mut i: usize = 0;
    while i < sections.len()
        invariant
            i <= sections@.len(),
            sections_refusal(sections@, i as int) == sections_refusal(sections@, 0),
        decreases sections@.len() - i,
    {
        let s: &Section = &sections[i];
        if s.align > MAX_ALIGN_LOG2 {
            let n: String = decimal_of(s.align as u64);
            return Some(
                join5(
                    "section ",
                    s.name,
                    " asks for 2^",
                    n.as_str(),
                    " alignment; the maximum is 2^15",
                ),
            );
        }
        if s.zerofill > 0 && s.data.len() > 0 {
            return Some(join3("zero-fill section ", s.name, " also carries bytes"));
        }
        i = i + 1;
    }
    None
}

fn check_relocs(sections: &[Section], symbols: usize, relocs: &[Reloc]) -> (r: Option<String>)
    ensures
        match r {
            Some(e) => relocs_refusal(sections@, symbols as nat, relocs@, 0) == Some(e@),
            None => relocs_refusal(sections@, symbols as nat, relocs@, 0) is None,
        },
{
    let mut i: usize = 0;
    while i < relocs.len()
        invariant
            i <= relocs@.len(),
            relocs_refusal(sections@, symbols as nat, relocs@, i as int) == relocs_refusal(
                sections@,
                symbols as nat,
                relocs@,
                0,
            ),
        decreases relocs@.len() - i,
    {
        let r: &Reloc = &relocs[i];
        if r.section >= sections.len() {
            let n: String = decimal_of(r.section as u64);
            return Some(join3("a relocation names section ", n.as_str(), ", which does not exist"));
        }
        let s: &Section = &sections[r.section];
        let width: u128 = if r.kind == RelKind::Abs64 {
            8
        } else {
            4
        };
        if r.offset as u128 + width > s.data.len() as u128 {
            let at: String = hex_of(r.offset);
            let n: String = decimal_of(s.data.len() as u64);
            let head: String = join4(
                "a relocation at ",
                at.as_str(),
                " is outside section ",
                s.name,
            );
            return Some(join4(head.as_str(), " (", n.as_str(), " bytes)"));
        }
        if r.symbol >= symbols {
            let n: String = decimal_of(r.symbol as u64);
            return Some(join3("a relocation names symbol ", n.as_str(), ", which does not exist"));
        }
        i = i + 1;
    }
    None
}

/// A rank counts no more than there is.
proof fn lemma_rank(symbols: Seq<Symbol>, global: bool, n: int)
    requires
        0 <= n,
    ensures
        rank(symbols, global, n) <= n,
    decreases n,
{
    if n > 0 {
        lemma_rank(symbols, global, n - 1);
    }
}

/// Where each symbol stands, and how many are local.
fn slots(symbols: &[Symbol]) -> (r: (Vec<u64>, usize))
    ensures
        r.0.len() == symbols@.len(),
        r.1 == rank(symbols@, false, symbols@.len() as int),
        forall|k: int| 0 <= k < symbols@.len() ==> #[trigger] r.0[k] == slot(symbols@, k) as u64,
{
    let mut locals: usize = 0;
    let mut i: usize = 0;
    while i < symbols.len()
        invariant
            i <= symbols@.len(),
            locals == rank(symbols@, false, i as int),
            locals <= i,
        decreases symbols@.len() - i,
    {
        if !symbols[i].global {
            locals = locals + 1;
        }
        i = i + 1;
    }
    let mut out: Vec<u64> = Vec::new();
    let mut local: usize = 0;
    let mut global: usize = 0;
    let mut k: usize = 0;
    while k < symbols.len()
        invariant
            k <= symbols@.len(),
            out.len() == k,
            local == rank(symbols@, false, k as int),
            global == rank(symbols@, true, k as int),
            local <= k,
            global <= k,
            locals == rank(symbols@, false, symbols@.len() as int),
            forall|j: int| 0 <= j < k ==> #[trigger] out[j] == slot(symbols@, j) as u64,
        decreases symbols@.len() - k,
    {
        if symbols[k].global {
            out.push((1 + locals as u128 + global as u128) as u64);
            global = global + 1;
        } else {
            out.push((1 + local as u128) as u64);
            local = local + 1;
        }
        k = k + 1;
    }
    (out, locals)
}

struct SymTab {
    names: Strtab,
    bytes: Vec<u8>,
}

impl View for SymTab {
    type V = Syms;

    closed spec fn view(&self) -> Syms {
        Syms { names: self.names@, bytes: self.bytes@ }
    }
}

impl SymTab {
    spec fn wf(self) -> bool {
        self.names.wf()
    }

    fn new() -> (r: SymTab)
        ensures
            r@ == Syms::new(),
            r.wf(),
    {
        let mut bytes: Vec<u8> = Vec::new();
        pad(&mut bytes, 24);
        let r = SymTab { names: Strtab::new(), bytes };
        assert(r@.bytes =~= zeros(24));
        r
    }

    fn put(&mut self, sections: &[Section], s: &Symbol)
        requires
            old(self).wf(),
            sym_refusal(sections@, *s) is None,
        ensures
            final(self)@ == old(self)@.put(sections@, *s),
            final(self).wf(),
    {
        let name: u32 = self.names.put(s.name.as_str());
        let bind: u8 = if s.global {
            16
        } else {
            0
        };
        let (section, value, kind): (u16, u64, u8) = match &s.defined {
            None => (0, 0, 0),
            Some(d) => {
                let kind: u8 = if sections[d.section].attributes & CODE_ATTRIBUTES != 0 {
                    2
                } else {
                    1
                };
                ((d.section as u128 + 1) as u16, d.offset, kind)
            },
        };
        put32(&mut self.bytes, name);
        self.bytes.push(bind + kind);
        self.bytes.push(0);
        put16(&mut self.bytes, section);
        put64(&mut self.bytes, value);
        put64(&mut self.bytes, 0);
        assert(self.bytes@ =~= old(self).bytes@ + sym_bytes(
            name,
            sym_info(sections@, *s),
            sym_section(*s),
            sym_value(*s),
        ));
    }

    fn pass(&mut self, sections: &[Section], symbols: &[Symbol], global: bool) -> (r: Option<String>)
        requires
            old(self).wf(),
        ensures
            match r {
                Some(e) => (final(self)@, Some(e@)) == old(self)@.pass(
                    sections@,
                    symbols@,
                    global,
                    0,
                ),
                None => (final(self)@, None::<Seq<char>>) == old(self)@.pass(
                    sections@,
                    symbols@,
                    global,
                    0,
                ),
            },
            final(self).wf(),
    {
        let mut i: usize = 0;
        while i < symbols.len()
            invariant
                i <= symbols@.len(),
                self.wf(),
                self@.pass(sections@, symbols@, global, i as int) == old(self)@.pass(
                    sections@,
                    symbols@,
                    global,
                    0,
                ),
            decreases symbols@.len() - i,
        {
            let s: &Symbol = &symbols[i];
            if s.global == global {
                match &s.defined {
                    Some(d) => {
                        if d.section >= sections.len() {
                            return Some(
                                join3(
                                    "symbol ",
                                    s.name.as_str(),
                                    " is defined in a section that does not exist",
                                ),
                            );
                        }
                    },
                    None => {},
                }
                self.put(sections, s);
            }
            i = i + 1;
        }
        None
    }
}

/// Relocations that were not refused name what there is.
proof fn lemma_relocs_ok(sections: Seq<Section>, symbols: nat, relocs: Seq<Reloc>, i: int, j: int)
    requires
        relocs_refusal(sections, symbols, relocs, i) is None,
        0 <= i <= j < relocs.len(),
    ensures
        reloc_refusal(sections, symbols, relocs[j]) is None,
    decreases j - i,
{
    if i < j {
        lemma_relocs_ok(sections, symbols, relocs, i + 1, j);
    }
}

fn table_of(
    target: Tgt,
    sections: &[Section],
    Ghost(symbols): Ghost<Seq<Symbol>>,
    slots: &Vec<u64>,
    relocs: &[Reloc],
    i: usize,
) -> (r: Result<Vec<u8>, String>)
    requires
        i < sections@.len(),
        relocs_refusal(sections@, symbols.len(), relocs@, 0) is None,
        slots.len() == symbols.len(),
        forall|k: int| 0 <= k < symbols.len() ==> #[trigger] slots[k] == slot(symbols, k) as u64,
    ensures
        match r {
            Ok(t) => rela_table(target, sections@, symbols, relocs@, i as int, 0, Seq::empty())
                == Ok::<Seq<u8>, Seq<char>>(t@),
            Err(e) => rela_table(target, sections@, symbols, relocs@, i as int, 0, Seq::empty())
                == Err::<Seq<u8>, Seq<char>>(e@),
        },
{
    let mut t: Vec<u8> = Vec::new();
    let mut j: usize = 0;
    assert(t@ =~= Seq::empty());
    while j < relocs.len()
        invariant
            j <= relocs@.len(),
            i < sections@.len(),
            relocs_refusal(sections@, symbols.len(), relocs@, 0) is None,
            slots.len() == symbols.len(),
            forall|k: int| 0 <= k < symbols.len() ==> #[trigger] slots[k] == slot(symbols, k) as u64,
            rela_table(target, sections@, symbols, relocs@, i as int, j as int, t@) == rela_table(
                target,
                sections@,
                symbols,
                relocs@,
                i as int,
                0,
                Seq::empty(),
            ),
        decreases relocs@.len() - j,
    {
        let r: &Reloc = &relocs[j];
        if r.section == i {
            proof {
                lemma_relocs_ok(sections@, symbols.len(), relocs@, 0, j as int);
            }
            let sec: &Section = &sections[i];
            let w: u32 = word_at(&sec.data, r.offset);
            let at: String = hex_of(r.offset);
            let place: String = join3(sec.name, "+", at.as_str());
            match r_type(target, r.kind, w, place.as_str()) {
                Err(e) => return Err(e),
                Ok(ty) => {
                    let symbol: u64 = slots[r.symbol];
                    let ghost before = t@;
                    put64(&mut t, r.offset);
                    put64(&mut t, (symbol << 32) | ty as u64);
                    put64(&mut t, r.addend as u64);
                    assert(t@ =~= before + rela_bytes(r.offset, symbol, ty, r.addend));
                },
            }
        }
        j = j + 1;
    }
    Ok(t)
}

/// Byte tables, as values.
pub open spec fn byte_tables(v: Seq<Vec<u8>>) -> Seq<Seq<u8>> {
    v.map_values(|t: Vec<u8>| t@)
}

fn tables_of(
    target: Tgt,
    sections: &[Section],
    Ghost(symbols): Ghost<Seq<Symbol>>,
    slots: &Vec<u64>,
    relocs: &[Reloc],
) -> (r: Result<Vec<Vec<u8>>, String>)
    requires
        relocs_refusal(sections@, symbols.len(), relocs@, 0) is None,
        slots.len() == symbols.len(),
        forall|k: int| 0 <= k < symbols.len() ==> #[trigger] slots[k] == slot(symbols, k) as u64,
    ensures
        match r {
            Ok(t) => rela_tables(
                target,
                sections@,
                symbols,
                relocs@,
                sections@.len() as int,
            ) == Ok::<Seq<Seq<u8>>, Seq<char>>(byte_tables(t@)) && t.len() == sections@.len(),
            Err(e) => rela_tables(
                target,
                sections@,
                symbols,
                relocs@,
                sections@.len() as int,
            ) == Err::<Seq<Seq<u8>>, Seq<char>>(e@),
        },
{
    let mut out: Vec<Vec<u8>> = Vec::new();
    let mut i: usize = 0;
    assert(byte_tables(out@) =~= Seq::empty());
    while i < sections.len()
        invariant
            i <= sections@.len(),
            out.len() == i,
            relocs_refusal(sections@, symbols.len(), relocs@, 0) is None,
            slots.len() == symbols.len(),
            forall|k: int| 0 <= k < symbols.len() ==> #[trigger] slots[k] == slot(symbols, k) as u64,
            rela_tables(target, sections@, symbols, relocs@, i as int) == Ok::<
                Seq<Seq<u8>>,
                Seq<char>,
            >(byte_tables(out@)),
        decreases sections@.len() - i,
    {
        match table_of(target, sections, Ghost(symbols), slots, relocs, i) {
            Err(e) => {
                proof {
                    lemma_tables_err(
                        target,
                        sections@,
                        symbols,
                        relocs@,
                        i as int + 1,
                        sections@.len() as int,
                    );
                }
                return Err(e);
            },
            Ok(t) => {
                let ghost before = out@;
                out.push(t);
                assert(byte_tables(out@) =~= byte_tables(before).push(t@));
            },
        }
        i = i + 1;
    }
    Ok(out)
}

/// A refusal stays a refusal however many sections follow.
proof fn lemma_tables_err(
    target: Tgt,
    sections: Seq<Section>,
    symbols: Seq<Symbol>,
    relocs: Seq<Reloc>,
    i: int,
    n: int,
)
    requires
        0 < i <= n,
        rela_tables(target, sections, symbols, relocs, i) is Err,
    ensures
        rela_tables(target, sections, symbols, relocs, n) == rela_tables(
            target,
            sections,
            symbols,
            relocs,
            i,
        ),
    decreases n - i,
{
    if i < n {
        lemma_tables_err(target, sections, symbols, relocs, i, n - 1);
    }
}

struct Layout {
    file: Vec<u8>,
    heads: Vec<Shdr>,
}

impl View for Layout {
    type V = Lay;

    closed spec fn view(&self) -> Lay {
        Lay { file: self.file@, heads: self.heads@ }
    }
}

impl Layout {
    fn new() -> (r: Layout)
        ensures
            r@ == Lay::new(),
    {
        let mut file: Vec<u8> = Vec::new();
        pad(&mut file, 64);
        let mut heads: Vec<Shdr> = Vec::new();
        heads.push(
            Shdr {
                name: 0,
                kind: 0,
                flags: 0,
                offset: 0,
                size: 0,
                link: 0,
                info: 0,
                align: 0,
                entsize: 0,
            },
        );
        assert(file@ =~= zeros(64));
        assert(heads@ =~= seq![null_head()]);
        Layout { file, heads }
    }

    /// Appends bytes on a multiple of `align`, and gives the offset they went to.
    fn place(&mut self, data: &Vec<u8>, align: u64) -> (r: u64)
        requires
            0 < align <= 0x8000,
        ensures
            final(self)@ == (Lay {
                file: placed(old(self)@.file, align as nat, data@),
                ..old(self)@
            }),
            r == placed_at(old(self)@.file, align as nat),
    {
        let n: u64 = self.file.len() as u64 % align;
        if n != 0 {
            pad(&mut self.file, (align - n) as usize);
        }
        assert(self.file@ =~= old(self).file@ + zeros(gap(old(self).file@.len(), align as nat)));
        let at: u64 = self.file.len() as u64;
        append(&mut self.file, data.as_slice());
        at
    }

    fn section(&mut self, s: &Section, name: u32)
        requires
            section_refusal(*s) is None,
        ensures
            final(self)@ == old(self)@.section(*s, name),
    {
        let n: u32 = s.align;
        assert(n <= 15 ==> 0 < 1u64 << n <= 0x8000) by (bit_vector);
        let align: u64 = 1u64 << s.align;
        let ghost file = self.file@;
        let (kind, size, offset): (u32, u64, u64) = if s.zerofill > 0 {
            (SHT_NOBITS, s.zerofill, self.file.len() as u64)
        } else {
            let at: u64 = self.place(&s.data, align);
            (SHT_PROGBITS, s.data.len() as u64, at)
        };
        let flags: u64 = if s.attributes & CODE_ATTRIBUTES != 0 {
            SHF_ALLOC + SHF_EXECINSTR
        } else {
            SHF_ALLOC + SHF_WRITE
        };
        let h = Shdr { name, kind, flags, offset, size, link: 0, info: 0, align, entsize: 0 };
        assert(h == section_head(*s, name, file));
        self.heads.push(h);
    }

    fn rela(&mut self, i: usize, name: u32, t: &Vec<u8>, symtab: u32)
        ensures
            final(self)@ == (Lay {
                file: placed(old(self)@.file, 8, t@),
                heads: old(self)@.heads.push(
                    rela_head(
                        i as int,
                        name,
                        t@.len() as u64,
                        placed_at(old(self)@.file, 8) as u64,
                        symtab,
                    ),
                ),
            }),
    {
        let offset: u64 = self.place(t, 8);
        self.heads.push(
            Shdr {
                name,
                kind: SHT_RELA,
                flags: SHF_INFO_LINK,
                offset,
                size: t.len() as u64,
                link: symtab,
                info: ((i as u128 + 1) as u16) as u32,
                align: 8,
                entsize: 24,
            },
        );
    }

    fn note(&mut self, name: u32)
        ensures
            final(self)@ == old(self)@.note(name),
    {
        let offset: u64 = self.file.len() as u64;
        self.heads.push(
            Shdr {
                name,
                kind: SHT_PROGBITS,
                flags: 0,
                offset,
                size: 0,
                link: 0,
                info: 0,
                align: 1,
                entsize: 0,
            },
        );
    }

    fn table(
        &mut self,
        name: u32,
        kind: u32,
        data: &Vec<u8>,
        link: u32,
        info: u32,
        align: u64,
        entsize: u64,
    )
        requires
            0 < align <= 0x8000,
        ensures
            final(self)@ == old(self)@.table(name, kind, data@, link, info, align, entsize),
    {
        let offset: u64 = self.place(data, align);
        self.heads.push(
            Shdr {
                name,
                kind,
                flags: 0,
                offset,
                size: data.len() as u64,
                link,
                info,
                align,
                entsize,
            },
        );
    }

    /// The file.
    fn finish(self, machine: u16) -> (r: Vec<u8>)
        requires
            self@.file.len() >= 64,
            self@.heads.len() > 0,
        ensures
            r@ == file_of(machine, self@),
    {
        let ghost l = self@;
        let mut file: Vec<u8> = self.file;
        let n: usize = file.len() % 8;
        if n != 0 {
            pad(&mut file, 8 - n);
        }
        let ghost body = l.file + zeros(gap(l.file.len(), 8));
        assert(file@ =~= body);
        let shoff: u64 = file.len() as u64;
        let mut out: Vec<u8> = header(machine, shoff, self.heads.len());
        let rest: Vec<u8> = crate::bytes::part(file.as_slice(), 64, file.len());
        append(&mut out, rest.as_slice());
        let ghost front = out@;
        let mut i: usize = 0;
        assert(out@ =~= front + shdrs_bytes(self.heads@, 0));
        while i < self.heads.len()
            invariant
                i <= self.heads.len(),
                out@ == front + shdrs_bytes(self.heads@, i as int),
            decreases self.heads.len() - i,
        {
            self.heads[i].write(&mut out);
            i = i + 1;
            assert(out@ =~= front + shdrs_bytes(self.heads@, i as int));
        }
        out
    }
}

fn header(machine: u16, shoff: u64, heads: usize) -> (r: Vec<u8>)
    requires
        heads > 0,
    ensures
        r@ == file_header(machine, shoff, heads as nat),
{
    let mut out: Vec<u8> = Vec::new();
    out.push(0x7f);
    out.push(0x45);
    out.push(0x4c);
    out.push(0x46);
    out.push(2);
    out.push(1);
    out.push(1);
    out.push(0);
    pad(&mut out, 8);
    put16(&mut out, ET_REL);
    put16(&mut out, machine);
    put32(&mut out, 1);
    put64(&mut out, 0);
    put64(&mut out, 0);
    put64(&mut out, shoff);
    put32(&mut out, 0);
    put16(&mut out, 64);
    put16(&mut out, 0);
    put16(&mut out, 0);
    put16(&mut out, 64);
    put16(&mut out, heads as u16);
    put16(&mut out, (heads - 1) as u16);
    assert(out@ =~= file_header(machine, shoff, heads as nat));
    out
}

/// Sections that were not refused can be written.
proof fn lemma_sections_ok(sections: Seq<Section>, i: int, j: int)
    requires
        sections_refusal(sections, i) is None,
        0 <= i <= j < sections.len(),
    ensures
        section_refusal(sections[j]) is None,
    decreases j - i,
{
    if i < j {
        lemma_sections_ok(sections, i + 1, j);
    }
}

/// What the layout keeps: a place for the header, and a header.
proof fn lemma_lay_sections(l: Lay, sections: Seq<Section>, names: Seq<u32>, n: int)
    requires
        0 <= n,
        l.file.len() >= 64,
        l.heads.len() > 0,
    ensures
        l.sections(sections, names, n).file.len() >= l.file.len(),
        l.sections(sections, names, n).heads.len() == l.heads.len() + n,
    decreases n,
{
    if n > 0 {
        lemma_lay_sections(l, sections, names, n - 1);
    }
}

proof fn lemma_lay_relas(l: Lay, tables: Seq<Seq<u8>>, names: Seq<u32>, symtab: u32, n: int)
    requires
        0 <= n,
        l.file.len() >= 64,
        l.heads.len() > 0,
    ensures
        l.relas(tables, names, symtab, n).file.len() >= l.file.len(),
        l.relas(tables, names, symtab, n).heads.len() == l.heads.len() + filled(tables, n),
    decreases n,
{
    if n > 0 {
        lemma_lay_relas(l, tables, names, symtab, n - 1);
    }
}

fn lay_out(
    machine: u16,
    sections: &[Section],
    tables: &Vec<Vec<u8>>,
    syms: &SymTab,
    locals: usize,
) -> (r: Vec<u8>)
    requires
        tables.len() == sections@.len(),
        sections_refusal(sections@, 0) is None,
    ensures
        r@ == file_of(
            machine,
            laid_out(sections@, byte_tables(tables@), syms@, locals as nat),
        ),
{
    let ghost ts = byte_tables(tables@);
    let ghost n = sections@.len() as int;
    let mut shstr: Strtab = Strtab::new();
    let mut names: Vec<u32> = Vec::new();
    let mut i: usize = 0;
    assert(names@ =~= Seq::empty());
    while i < sections.len()
        invariant
            i <= sections@.len(),
            shstr.wf(),
            section_names(sections@, i as int) == (Named { table: shstr@, at: names@ }),
            names.len() == i,
        decreases sections@.len() - i,
    {
        let at: u32 = shstr.put(sections[i].name);
        names.push(at);
        i = i + 1;
    }
    let ghost start = shstr@;
    let mut rnames: Vec<u32> = Vec::new();
    let mut count: u128 = 0;
    let mut j: usize = 0;
    assert(rnames@ =~= Seq::empty());
    while j < sections.len()
        invariant
            j <= sections@.len(),
            tables.len() == sections@.len(),
            ts == byte_tables(tables@),
            shstr.wf(),
            rela_names(start, sections@, ts, j as int) == (Named {
                table: shstr@,
                at: rnames@,
            }),
            rnames.len() == j,
            count == filled(ts, j as int),
            count <= j,
        decreases sections@.len() - j,
    {
        if tables[j].len() > 0 {
            let name: String = join2(".rela", sections[j].name);
            let at: u32 = shstr.put(name.as_str());
            rnames.push(at);
            count = count + 1;
        } else {
            rnames.push(0);
        }
        j = j + 1;
    }
    let note: u32 = shstr.put(".note.GNU-stack");
    let symtab: u32 = shstr.put(".symtab");
    let strtab: u32 = shstr.put(".strtab");
    let shstrtab: u32 = shstr.put(".shstrtab");
    let index: u32 = (2 + sections.len() as u128 + count) as u32;
    let mut l: Layout = Layout::new();
    let mut k: usize = 0;
    while k < sections.len()
        invariant
            k <= sections@.len(),
            names.len() == sections@.len(),
            sections_refusal(sections@, 0) is None,
            l@ == Lay::new().sections(sections@, names@, k as int),
        decreases sections@.len() - k,
    {
        proof {
            lemma_sections_ok(sections@, 0, k as int);
        }
        l.section(&sections[k], names[k]);
        k = k + 1;
    }
    let ghost before = l@;
    let mut m: usize = 0;
    while m < sections.len()
        invariant
            m <= sections@.len(),
            tables.len() == sections@.len(),
            rnames.len() == sections@.len(),
            ts == byte_tables(tables@),
            l@ == before.relas(ts, rnames@, index, m as int),
        decreases sections@.len() - m,
    {
        if tables[m].len() > 0 {
            l.rela(m, rnames[m], &tables[m], index);
        }
        m = m + 1;
    }
    proof {
        lemma_lay_sections(Lay::new(), sections@, names@, n);
        lemma_lay_relas(before, ts, rnames@, index, n);
    }
    l.note(note);
    l.table(
        symtab,
        SHT_SYMTAB,
        &syms.bytes,
        (index as u64 + 1) as u32,
        (locals as u128 + 1) as u32,
        8,
        24,
    );
    l.table(strtab, SHT_STRTAB, &syms.names.bytes, 0, 0, 1, 0);
    l.table(shstrtab, SHT_STRTAB, &shstr.bytes, 0, 0, 1, 0);
    l.finish(machine)
}

/// The object's bytes.
pub fn write(
    target: Tgt,
    sections: &[Section],
    symbols: &[Symbol],
    relocs: &[Reloc],
) -> (r: Result<Vec<u8>, String>)
    ensures
        match r {
            Ok(b) => object_of(target, sections@, symbols@, relocs@) == Ok::<Seq<u8>, Seq<char>>(
                b@,
            ),
            Err(e) => object_of(target, sections@, symbols@, relocs@) == Err::<Seq<u8>, Seq<char>>(
                e@,
            ),
        },
{
    if sections.len() == 0 {
        return Err(own("an ELF object needs at least one section"));
    }
    match check_sections(sections) {
        Some(e) => return Err(e),
        None => {},
    }
    match check_relocs(sections, symbols.len(), relocs) {
        Some(e) => return Err(e),
        None => {},
    }
    let (table, locals): (Vec<u64>, usize) = slots(symbols);
    let mut syms: SymTab = SymTab::new();
    match syms.pass(sections, symbols, false) {
        Some(e) => return Err(e),
        None => {},
    }
    match syms.pass(sections, symbols, true) {
        Some(e) => return Err(e),
        None => {},
    }
    match tables_of(target, sections, Ghost(symbols@), &table, relocs) {
        Err(e) => Err(e),
        Ok(tables) => {
            let machine: u16 = if target.is_arm64() {
                EM_AARCH64
            } else {
                EM_X86_64
            };
            Ok(lay_out(machine, sections, &tables, &syms, locals))
        },
    }
}

} // verus!
