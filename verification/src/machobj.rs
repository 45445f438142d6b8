//! A reader of arm64 Mach-O objects, enough to recover stencils and their holes.

use crate::bytes::{lossy, read_text, part};
use crate::elfobj::triples;
use crate::fields::{
    agree, an_insertion_keeps_the_order, extents, field32, field64, first_zero, in_order,
    insert_extent, inserted, name_at, read32, read64, read_name, read_span, short, span, truncated,
    Ev, Extent,
};
use crate::text::{begins, join3, own, same, strip_prefix};
use vstd::prelude::*;

verus! {

pub const LC_SEGMENT_64: u32 = 0x19;
pub const LC_SYMTAB: u32 = 0x02;

pub const ARM64_RELOC_UNSIGNED: u8 = 0;
pub const ARM64_RELOC_SUBTRACTOR: u8 = 1;
pub const ARM64_RELOC_BRANCH26: u8 = 2;
pub const ARM64_RELOC_PAGE21: u8 = 3;
pub const ARM64_RELOC_PAGEOFF12: u8 = 4;
pub const ARM64_RELOC_GOT_LOAD_PAGE21: u8 = 5;
pub const ARM64_RELOC_GOT_LOAD_PAGEOFF12: u8 = 6;
pub const ARM64_RELOC_POINTER_TO_GOT: u8 = 7;
pub const ARM64_RELOC_ADDEND: u8 = 10;

/// One relocation of the code.
#[derive(Clone, Copy, Debug)]
pub struct Reloc {
    /// Byte offset within the section.
    pub addr: u32,
    pub kind: u8,
    pub pcrel: bool,
    pub length: u8,
    pub external: bool,
    /// Index into the symbol table where `external`, else a section number.
    pub symbolnum: u32,
}

/// One symbol.
#[derive(Clone, Debug)]
pub struct Sym {
    pub name: String,
    /// Section number, from one; zero for an undefined symbol.
    pub sect: u8,
    pub value: u64,
    pub defined: bool,
}

/// A symbol, as a value.
pub struct Sv {
    pub name: Seq<char>,
    pub sect: u8,
    pub value: u64,
    pub defined: bool,
}

impl View for Sym {
    type V = Sv;

    open spec fn view(&self) -> Sv {
        Sv { name: self.name@, sect: self.sect, value: self.value, defined: self.defined }
    }
}

/// What an object holds.
pub struct Obj {
    /// The bytes of the code section.
    pub text: Vec<u8>,
    pub text_relocs: Vec<Reloc>,
    pub syms: Vec<Sym>,
    /// Names and sizes of the other sections that carried bytes.
    pub other_sections: Vec<(String, u64)>,
}

/// What an object holds, as a value, with the number of its code section.
pub struct ObjV {
    pub text: Seq<u8>,
    pub text_relocs: Seq<Reloc>,
    pub syms: Seq<Sv>,
    pub others: Seq<(Seq<char>, u64)>,
    pub sect: u8,
}

/// Symbols, as values.
pub open spec fn syms_of(v: Seq<Sym>) -> Seq<Sv> {
    v.map_values(|s: Sym| s@)
}

/// Sections, as values.
pub open spec fn others_of(v: Seq<(String, u64)>) -> Seq<(Seq<char>, u64)> {
    v.map_values(|s: (String, u64)| (s.0@, s.1))
}

/// The index of the end of a name in a field of sixteen bytes.
pub open spec fn end16(b: Seq<u8>, o: int) -> int {
    match first_zero(b.subrange(o, o + 16), 0) {
        Some(e) => o + e,
        None => o + 16,
    }
}

/// The name in a field of sixteen bytes.
pub open spec fn name16(b: Seq<u8>, o: nat) -> Result<Seq<char>, Seq<char>> {
    if o + 16 <= b.len() {
        Ok(read_text(b.subrange(o as int, end16(b, o as int))))
    } else {
        Err(short("Mach-O"@, o))
    }
}

/// One byte at `o`.
pub open spec fn field8(b: Seq<u8>, o: nat) -> Result<u8, Seq<char>> {
    if o < b.len() {
        Ok(b[o as int])
    } else {
        Err(short("Mach-O"@, o))
    }
}

/// The relocation at `o`.
pub open spec fn rel_at(b: Seq<u8>, o: nat) -> Result<Reloc, Seq<char>> {
    match (field32("Mach-O"@, b, o), field32("Mach-O"@, b, o + 4)) {
        (Ok(addr), Ok(info)) => Ok(
            Reloc {
                addr,
                symbolnum: info & 0x00ff_ffff,
                pcrel: (info >> 24) & 1 == 1,
                length: ((info >> 25) & 3) as u8,
                external: (info >> 27) & 1 == 1,
                kind: ((info >> 28) & 0xf) as u8,
            },
        ),
        (Err(e), _) => Err(e),
        (_, Err(e)) => Err(e),
    }
}

/// The first `n` relocations from `offset` on, behind those in `before`.
pub open spec fn rels_of(before: Seq<Reloc>, b: Seq<u8>, offset: nat, n: int) -> Result<
    Seq<Reloc>,
    Seq<char>,
>
    decreases n,
{
    if n <= 0 {
        Ok(before)
    } else {
        match rels_of(before, b, offset, n - 1) {
            Err(e) => Err(e),
            Ok(v) => match rel_at(b, (offset + (n - 1) * 8) as nat) {
                Err(e) => Err(e),
                Ok(r) => Ok(v.push(r)),
            },
        }
    }
}

/// The symbol at `o`, with its name in the string table at `strings`.
pub open spec fn sym_at(b: Seq<u8>, o: nat, strings: nat) -> Result<Sv, Seq<char>> {
    match (field32("Mach-O"@, b, o), field8(b, o + 4), field8(b, o + 5)) {
        (Ok(at), Ok(kind), Ok(sect)) => match (
            field64("Mach-O"@, b, o + 8),
            name_at("Mach-O"@, b, strings + at as nat),
        ) {
            (Ok(value), Ok(name)) => Ok(
                Sv { name, sect, value, defined: kind & 0x0e == 0x0e },
            ),
            (Err(e), _) => Err(e),
            (_, Err(e)) => Err(e),
        },
        (Err(e), _, _) => Err(e),
        (_, Err(e), _) => Err(e),
        (_, _, Err(e)) => Err(e),
    }
}

/// The first `n` symbols from `offset` on, behind those in `before`.
pub open spec fn table_syms(
    before: Seq<Sv>,
    b: Seq<u8>,
    offset: nat,
    strings: nat,
    n: int,
) -> Result<Seq<Sv>, Seq<char>>
    decreases n,
{
    if n <= 0 {
        Ok(before)
    } else {
        match table_syms(before, b, offset, strings, n - 1) {
            Err(e) => Err(e),
            Ok(v) => match sym_at(b, (offset + (n - 1) * 16) as nat, strings) {
                Err(e) => Err(e),
                Ok(s) => Ok(v.push(s)),
            },
        }
    }
}

/// The header of a section.
pub struct Sect {
    pub name: Seq<char>,
    pub segment: Seq<char>,
    pub size: u64,
    pub offset: u32,
    pub rels: u32,
    pub count: u32,
}

/// The header of the section at `o`.
pub open spec fn sect_at(b: Seq<u8>, o: nat) -> Result<Sect, Seq<char>> {
    let w = "Mach-O"@;
    match (name16(b, o), name16(b, o + 16), field64(w, b, o + 40)) {
        (Ok(name), Ok(segment), Ok(size)) => match (
            field32(w, b, o + 48),
            field32(w, b, o + 56),
            field32(w, b, o + 60),
        ) {
            (Ok(offset), Ok(rels), Ok(count)) => Ok(
                Sect { name, segment, size, offset, rels, count },
            ),
            (Err(e), _, _) => Err(e),
            (_, Err(e), _) => Err(e),
            (_, _, Err(e)) => Err(e),
        },
        (Err(e), _, _) => Err(e),
        (_, Err(e), _) => Err(e),
        (_, _, Err(e)) => Err(e),
    }
}

impl ObjV {
    /// Nothing yet.
    pub open spec fn empty() -> ObjV {
        ObjV {
            text: Seq::empty(),
            text_relocs: Seq::empty(),
            syms: Seq::empty(),
            others: Seq::empty(),
            sect: 0,
        }
    }

    /// Section `i` of a segment, whose header is `h`.
    pub open spec fn section(self, b: Seq<u8>, h: Sect, i: int) -> Result<ObjV, Seq<char>> {
        if h.segment == "__TEXT"@ && h.name == "__text"@ {
            match span("Mach-O"@, b, h.offset as nat, h.size as nat) {
                Err(e) => Err(e),
                Ok(text) => match rels_of(self.text_relocs, b, h.rels as nat, h.count as int) {
                    Err(e) => Err(e),
                    Ok(text_relocs) => Ok(
                        ObjV { text, text_relocs, sect: (i + 1) as u8, ..self },
                    ),
                },
            }
        } else if h.size > 0 && h.name != "__compact_unwind"@ && h.name != "__eh_frame"@ {
            Ok(ObjV { others: self.others.push((h.segment + ","@ + h.name, h.size)), ..self })
        } else {
            Ok(self)
        }
    }

    /// The first `n` sections of the segment whose section headers start at `o`.
    pub open spec fn sections(self, b: Seq<u8>, o: nat, n: int) -> Result<ObjV, Seq<char>>
        decreases n,
    {
        if n <= 0 {
            Ok(self)
        } else {
            match self.sections(b, o, n - 1) {
                Err(e) => Err(e),
                Ok(v) => match sect_at(b, (o + (n - 1) * 80) as nat) {
                    Err(e) => Err(e),
                    Ok(h) => v.section(b, h, n - 1),
                },
            }
        }
    }

    /// The load command at `o`.
    #[verifier::opaque]
    pub open spec fn command(self, b: Seq<u8>, o: nat, cmd: u32) -> Result<ObjV, Seq<char>> {
        let w = "Mach-O"@;
        if cmd == LC_SEGMENT_64 {
            match field32(w, b, o + 64) {
                Err(e) => Err(e),
                Ok(n) => self.sections(b, o + 72, n as int),
            }
        } else if cmd == LC_SYMTAB {
            match (field32(w, b, o + 8), field32(w, b, o + 12), field32(w, b, o + 16)) {
                (Ok(offset), Ok(n), Ok(strings)) => match table_syms(
                    self.syms,
                    b,
                    offset as nat,
                    strings as nat,
                    n as int,
                ) {
                    Err(e) => Err(e),
                    Ok(syms) => Ok(ObjV { syms, ..self }),
                },
                (Err(e), _, _) => Err(e),
                (_, Err(e), _) => Err(e),
                (_, _, Err(e)) => Err(e),
            }
        } else {
            Ok(self)
        }
    }
}

/// The first `n` load commands, and where the next one starts.
pub open spec fn commands(b: Seq<u8>, n: int) -> Result<(ObjV, nat), Seq<char>>
    decreases n,
{
    if n <= 0 {
        Ok((ObjV::empty(), 32nat))
    } else {
        match commands(b, n - 1) {
            Err(e) => Err(e),
            Ok(p) => match (field32("Mach-O"@, b, p.1), field32("Mach-O"@, b, p.1 + 4)) {
                (Ok(cmd), Ok(size)) => match p.0.command(b, p.1, cmd) {
                    Err(e) => Err(e),
                    Ok(v) => Ok((v, p.1 + size as nat)),
                },
                (Err(e), _) => Err(e),
                (_, Err(e)) => Err(e),
            },
        }
    }
}

/// Whether a symbol is defined outside the code.
pub open spec fn stray(s: Sv, sect: u8) -> bool {
    s.defined && s.sect != sect && sect != 0
}

/// The first symbol that is defined outside the code, from symbol `i` on.
pub open spec fn first_stray(v: Seq<Sv>, sect: u8, i: int) -> Option<Seq<char>>
    decreases v.len() - i,
{
    if i >= v.len() {
        None
    } else if stray(v[i], sect) {
        Some("symbol "@ + v[i].name + " is defined outside __text"@)
    } else {
        first_stray(v, sect, i + 1)
    }
}

/// What an object's bytes hold, or why they cannot be read.
pub open spec fn read_of(b: Seq<u8>) -> Result<ObjV, Seq<char>> {
    if b.len() < 32 || crate::bytes::of32(b, 0) != 0xfeed_facf {
        Err("not a 64-bit little-endian Mach-O object"@)
    } else {
        match commands(b, crate::bytes::of32(b, 16) as int) {
            Err(e) => Err(e),
            Ok(p) => match first_stray(p.0.syms, p.0.sect, 0) {
                Some(e) => Err(e),
                None => Ok(p.0),
            },
        }
    }
}

fn read_name16(b: &[u8], o: u128) -> (r: Result<String, String>)
    requires
        o <= u128::MAX - 16,
    ensures
        match r {
            Ok(s) => name16(b@, o as nat) == Ok::<Seq<char>, Seq<char>>(s@),
            Err(e) => name16(b@, o as nat) == Err::<Seq<char>, Seq<char>>(e@),
        },
{
    if o + 16 > b.len() as u128 {
        return Err(truncated("Mach-O", o));
    }
    let at: usize = o as usize;
    let len: usize = b.len();
    let ghost field = b@.subrange(at as int, at + 16);
    let mut n: usize = 0;
    while n < 16
        invariant
            n <= 16,
            at + 16 <= len,
            len == b@.len(),
            field == b@.subrange(at as int, at + 16),
            first_zero(field, 0) == first_zero(field, n as int),
        ensures
            n <= 16,
            at + n == end16(b@, at as int),
        decreases 16 - n,
    {
        assert(field[n as int] == b@[at + n]);
        if b[at + n] == 0 {
            break;
        }
        n = n + 1;
    }
    let raw: Vec<u8> = part(b, at, at + n);
    Ok(lossy(raw.as_slice()))
}

fn read8(b: &[u8], o: u128) -> (r: Result<u8, String>)
    ensures
        agree(r, field8(b@, o as nat)),
{
    if o < b.len() as u128 {
        Ok(b[o as usize])
    } else {
        Err(truncated("Mach-O", o))
    }
}

fn read_rel(b: &[u8], o: u128) -> (r: Result<Reloc, String>)
    requires
        o <= u128::MAX - 64,
    ensures
        agree(r, rel_at(b@, o as nat)),
{
    let addr: u32 = match read32("Mach-O", b, o) {
        Ok(v) => v,
        Err(e) => return Err(e),
    };
    let info: u32 = match read32("Mach-O", b, o + 4) {
        Ok(v) => v,
        Err(e) => return Err(e),
    };
    Ok(
        Reloc {
            addr,
            symbolnum: info & 0x00ff_ffff,
            pcrel: (info >> 24) & 1 == 1,
            length: ((info >> 25) & 3) as u8,
            external: (info >> 27) & 1 == 1,
            kind: ((info >> 28) & 0xf) as u8,
        },
    )
}

/// An error in the first relocations is the error of all of them.
proof fn lemma_rels_err(before: Seq<Reloc>, b: Seq<u8>, offset: nat, i: int, n: int)
    requires
        0 < i <= n,
        rels_of(before, b, offset, i) is Err,
    ensures
        rels_of(before, b, offset, n) == rels_of(before, b, offset, i),
    decreases n - i,
{
    if i < n {
        lemma_rels_err(before, b, offset, i, n - 1);
    }
}

fn read_rels(b: &[u8], offset: u32, n: u32, out: &mut Vec<Reloc>) -> (r: Option<String>)
    ensures
        match r {
            Some(e) => rels_of(old(out)@, b@, offset as nat, n as int) == Err::<
                Seq<Reloc>,
                Seq<char>,
            >(e@),
            None => rels_of(old(out)@, b@, offset as nat, n as int) == Ok::<Seq<Reloc>, Seq<char>>(
                final(out)@,
            ),
        },
{
    let ghost start = out@;
    let mut i: u32 = 0;
    while i < n
        invariant
            i <= n,
            start == old(out)@,
            rels_of(start, b@, offset as nat, i as int) == Ok::<Seq<Reloc>, Seq<char>>(out@),
        decreases n - i,
    {
        match read_rel(b, offset as u128 + i as u128 * 8) {
            Err(e) => {
                proof {
                    lemma_rels_err(start, b@, offset as nat, i as int + 1, n as int);
                }
                return Some(e);
            },
            Ok(r) => out.push(r),
        }
        i = i + 1;
    }
    None
}

fn read_sym(b: &[u8], o: u128, strings: u32) -> (r: Result<Sym, String>)
    requires
        o <= u128::MAX - 64,
    ensures
        match r {
            Ok(s) => sym_at(b@, o as nat, strings as nat) == Ok::<Sv, Seq<char>>(s@),
            Err(e) => sym_at(b@, o as nat, strings as nat) == Err::<Sv, Seq<char>>(e@),
        },
{
    let at: u32 = match read32("Mach-O", b, o) {
        Ok(v) => v,
        Err(e) => return Err(e),
    };
    let kind: u8 = match read8(b, o + 4) {
        Ok(v) => v,
        Err(e) => return Err(e),
    };
    let sect: u8 = match read8(b, o + 5) {
        Ok(v) => v,
        Err(e) => return Err(e),
    };
    let value: u64 = match read64("Mach-O", b, o + 8) {
        Ok(v) => v,
        Err(e) => return Err(e),
    };
    let name: String = match read_name("Mach-O", b, strings as u128 + at as u128) {
        Ok(v) => v,
        Err(e) => return Err(e),
    };
    Ok(Sym { name, sect, value, defined: kind & 0x0e == 0x0e })
}

/// An error in the first symbols is the error of all of them.
proof fn lemma_syms_err(before: Seq<Sv>, b: Seq<u8>, offset: nat, strings: nat, i: int, n: int)
    requires
        0 < i <= n,
        table_syms(before, b, offset, strings, i) is Err,
    ensures
        table_syms(before, b, offset, strings, n) == table_syms(before, b, offset, strings, i),
    decreases n - i,
{
    if i < n {
        lemma_syms_err(before, b, offset, strings, i, n - 1);
    }
}

fn read_syms(b: &[u8], offset: u32, strings: u32, n: u32, out: &mut Vec<Sym>) -> (r: Option<String>)
    ensures
        match r {
            Some(e) => table_syms(
                syms_of(old(out)@),
                b@,
                offset as nat,
                strings as nat,
                n as int,
            ) == Err::<Seq<Sv>, Seq<char>>(e@),
            None => table_syms(
                syms_of(old(out)@),
                b@,
                offset as nat,
                strings as nat,
                n as int,
            ) == Ok::<Seq<Sv>, Seq<char>>(syms_of(final(out)@)),
        },
{
    let ghost start = syms_of(out@);
    let mut i: u32 = 0;
    while i < n
        invariant
            i <= n,
            start == syms_of(old(out)@),
            table_syms(start, b@, offset as nat, strings as nat, i as int) == Ok::<
                Seq<Sv>,
                Seq<char>,
            >(syms_of(out@)),
        decreases n - i,
    {
        match read_sym(b, offset as u128 + i as u128 * 16, strings) {
            Err(e) => {
                proof {
                    lemma_syms_err(
                        start,
                        b@,
                        offset as nat,
                        strings as nat,
                        i as int + 1,
                        n as int,
                    );
                }
                return Some(e);
            },
            Ok(s) => {
                let ghost before = out@;
                out.push(s);
                assert(syms_of(out@) =~= syms_of(before).push(s@));
            },
        }
        i = i + 1;
    }
    None
}

struct Found {
    obj: Obj,
    sect: u8,
}

impl View for Found {
    type V = ObjV;

    closed spec fn view(&self) -> ObjV {
        ObjV {
            text: self.obj.text@,
            text_relocs: self.obj.text_relocs@,
            syms: syms_of(self.obj.syms@),
            others: others_of(self.obj.other_sections@),
            sect: self.sect,
        }
    }
}

fn read_section(b: &[u8], o: u128, i: u32, found: &mut Found) -> (r: Option<String>)
    requires
        o <= u128::MAX - 128,
    ensures
        match sect_at(b@, o as nat) {
            Err(e) => r is Some && r->0@ == e,
            Ok(h) => match r {
                Some(e) => old(found)@.section(b@, h, i as int) == Err::<ObjV, Seq<char>>(e@),
                None => old(found)@.section(b@, h, i as int) == Ok::<ObjV, Seq<char>>(
                    final(found)@,
                ),
            },
        },
{
    let name: String = match read_name16(b, o) {
        Ok(v) => v,
        Err(e) => return Some(e),
    };
    let segment: String = match read_name16(b, o + 16) {
        Ok(v) => v,
        Err(e) => return Some(e),
    };
    let size: u64 = match read64("Mach-O", b, o + 40) {
        Ok(v) => v,
        Err(e) => return Some(e),
    };
    let offset: u32 = match read32("Mach-O", b, o + 48) {
        Ok(v) => v,
        Err(e) => return Some(e),
    };
    let rels: u32 = match read32("Mach-O", b, o + 56) {
        Ok(v) => v,
        Err(e) => return Some(e),
    };
    let count: u32 = match read32("Mach-O", b, o + 60) {
        Ok(v) => v,
        Err(e) => return Some(e),
    };
    if same(segment.as_str(), "__TEXT") && same(name.as_str(), "__text") {
        match read_span("Mach-O", b, offset as u64, size) {
            Err(e) => Some(e),
            Ok(text) => {
                found.obj.text = text;
                found.sect = (i as u64 + 1) as u8;
                read_rels(b, rels, count, &mut found.obj.text_relocs)
            },
        }
    } else {
        if size > 0 && !same(name.as_str(), "__compact_unwind") && !same(
            name.as_str(),
            "__eh_frame",
        ) {
            let ghost before = found.obj.other_sections@;
            let full: String = join3(segment.as_str(), ",", name.as_str());
            found.obj.other_sections.push((full, size));
            assert(others_of(found.obj.other_sections@) =~= others_of(before).push((full@, size)));
        }
        None
    }
}

/// An error in the first sections is the error of all of them.
proof fn lemma_sections_err(v: ObjV, b: Seq<u8>, o: nat, i: int, n: int)
    requires
        0 < i <= n,
        v.sections(b, o, i) is Err,
    ensures
        v.sections(b, o, n) == v.sections(b, o, i),
    decreases n - i,
{
    if i < n {
        lemma_sections_err(v, b, o, i, n - 1);
    }
}

fn read_sections(b: &[u8], o: u128, n: u32, found: &mut Found) -> (r: Option<String>)
    requires
        o <= 0x1_0000_0000_0000_0000_0000_0000,
    ensures
        match r {
            Some(e) => old(found)@.sections(b@, o as nat, n as int) == Err::<ObjV, Seq<char>>(e@),
            None => old(found)@.sections(b@, o as nat, n as int) == Ok::<ObjV, Seq<char>>(
                final(found)@,
            ),
        },
{
    let ghost start = found@;
    let mut i: u32 = 0;
    while i < n
        invariant
            i <= n,
            o <= 0x1_0000_0000_0000_0000_0000_0000,
            start == old(found)@,
            start.sections(b@, o as nat, i as int) == Ok::<ObjV, Seq<char>>(found@),
        decreases n - i,
    {
        match read_section(b, o + i as u128 * 80, i, found) {
            Some(e) => {
                proof {
                    lemma_sections_err(start, b@, o as nat, i as int + 1, n as int);
                }
                return Some(e);
            },
            None => {},
        }
        i = i + 1;
    }
    None
}

fn read_command(b: &[u8], o: u128, cmd: u32, found: &mut Found) -> (r: Option<String>)
    requires
        o <= 0x1_0000_0000_0000_0000_0000,
    ensures
        match r {
            Some(e) => old(found)@.command(b@, o as nat, cmd) == Err::<ObjV, Seq<char>>(e@),
            None => old(found)@.command(b@, o as nat, cmd) == Ok::<ObjV, Seq<char>>(final(found)@),
        },
{
    reveal(ObjV::command);
    if cmd == LC_SEGMENT_64 {
        match read32("Mach-O", b, o + 64) {
            Err(e) => Some(e),
            Ok(n) => read_sections(b, o + 72, n, found),
        }
    } else if cmd == LC_SYMTAB {
        let offset: u32 = match read32("Mach-O", b, o + 8) {
            Ok(v) => v,
            Err(e) => return Some(e),
        };
        let n: u32 = match read32("Mach-O", b, o + 12) {
            Ok(v) => v,
            Err(e) => return Some(e),
        };
        let strings: u32 = match read32("Mach-O", b, o + 16) {
            Ok(v) => v,
            Err(e) => return Some(e),
        };
        read_syms(b, offset, strings, n, &mut found.obj.syms)
    } else {
        None
    }
}

/// An error in the first commands is the error of all of them.
proof fn lemma_commands_err(b: Seq<u8>, i: int, n: int)
    requires
        0 < i <= n,
        commands(b, i) is Err,
    ensures
        commands(b, n) == commands(b, i),
    decreases n - i,
{
    if i < n {
        lemma_commands_err(b, i, n - 1);
    }
}

fn read_commands(b: &[u8], n: u32) -> (r: Result<Found, String>)
    ensures
        match r {
            Ok(f) => commands(b@, n as int) is Ok && commands(b@, n as int)->Ok_0.0 == f@,
            Err(e) => commands(b@, n as int) == Err::<(ObjV, nat), Seq<char>>(e@),
        },
{
    let mut found = Found {
        obj: Obj {
            text: Vec::new(),
            text_relocs: Vec::new(),
            syms: Vec::new(),
            other_sections: Vec::new(),
        },
        sect: 0,
    };
    let mut off: u128 = 32;
    let mut i: u32 = 0;
    assert(found@.text =~= Seq::empty());
    assert(found@.text_relocs =~= Seq::empty());
    assert(found@.syms =~= Seq::empty());
    assert(found@.others =~= Seq::empty());
    while i < n
        invariant
            i <= n,
            off <= 32 + i * 0x1_0000_0000,
            commands(b@, i as int) == Ok::<(ObjV, nat), Seq<char>>((found@, off as nat)),
        decreases n - i,
    {
        let cmd: u32 = match read32("Mach-O", b, off) {
            Ok(v) => v,
            Err(e) => {
                proof {
                    lemma_commands_err(b@, i as int + 1, n as int);
                }
                return Err(e);
            },
        };
        let size: u32 = match read32("Mach-O", b, off + 4) {
            Ok(v) => v,
            Err(e) => {
                proof {
                    lemma_commands_err(b@, i as int + 1, n as int);
                }
                return Err(e);
            },
        };
        match read_command(b, off, cmd, &mut found) {
            Some(e) => {
                proof {
                    lemma_commands_err(b@, i as int + 1, n as int);
                }
                return Err(e);
            },
            None => {},
        }
        off = off + size as u128;
        i = i + 1;
    }
    Ok(found)
}

/// What an object's bytes hold. A field that is not inside the bytes is an error that gives its
/// offset.
pub fn read(bytes: &[u8]) -> (r: Result<Obj, String>)
    ensures
        match r {
            Ok(o) => {
                &&& read_of(bytes@) is Ok
                &&& o.text@ == read_of(bytes@)->Ok_0.text
                &&& o.text_relocs@ == read_of(bytes@)->Ok_0.text_relocs
                &&& syms_of(o.syms@) == read_of(bytes@)->Ok_0.syms
                &&& others_of(o.other_sections@) == read_of(bytes@)->Ok_0.others
            },
            Err(e) => read_of(bytes@) == Err::<ObjV, Seq<char>>(e@),
        },
{
    if bytes.len() < 32 || crate::bytes::get32(bytes, 0) != 0xfeed_facf {
        return Err(own("not a 64-bit little-endian Mach-O object"));
    }
    let n: u32 = crate::bytes::get32(bytes, 16);
    let found: Found = match read_commands(bytes, n) {
        Err(e) => return Err(e),
        Ok(f) => f,
    };
    let mut i: usize = 0;
    while i < found.obj.syms.len()
        invariant
            i <= found.obj.syms.len(),
            first_stray(found@.syms, found@.sect, i as int) == first_stray(
                found@.syms,
                found@.sect,
                0,
            ),
            read_of(bytes@) == (match first_stray(found@.syms, found@.sect, 0) {
                Some(e) => Err::<ObjV, Seq<char>>(e),
                None => Ok::<ObjV, Seq<char>>(found@),
            }),
        decreases found.obj.syms.len() - i,
    {
        let s: &Sym = &found.obj.syms[i];
        assert(found@.syms[i as int] == s@);
        if s.defined && s.sect != found.sect && found.sect != 0 {
            return Err(join3("symbol ", s.name.as_str(), " is defined outside __text"));
        }
        i = i + 1;
    }
    Ok(found.obj)
}

/// Whether a symbol is a function's: it is defined and its name is no local label.
pub open spec fn is_function(s: Sv) -> bool {
    s.defined && !begins(s.name, "ltmp"@) && !begins(s.name, "L"@)
}

/// The functions among the first `n` symbols, in the order in which they stand in the code.
pub open spec fn starts(syms: Seq<Sv>, n: int) -> Seq<Ev>
    decreases n,
{
    if n <= 0 {
        Seq::empty()
    } else if is_function(syms[n - 1]) {
        let s = syms[n - 1];
        inserted(starts(syms, n - 1), Ev { name: s.name, start: s.value, end: 0 })
    } else {
        starts(syms, n - 1)
    }
}

/// The next start after `start`, from function `i` on, or the end of the code.
pub open spec fn next_start(v: Seq<Ev>, start: u64, i: int, text: nat) -> usize
    decreases v.len() - i,
{
    if i >= v.len() {
        text as usize
    } else if v[i].start != start {
        v[i].start as usize
    } else {
        next_start(v, start, i + 1, text)
    }
}

/// Every function with its end: the next distinct start, since two symbols may share one.
pub open spec fn ended(v: Seq<Ev>, text: nat) -> Seq<Ev> {
    Seq::new(
        v.len(),
        |i: int| Ev {
            name: v[i].name,
            start: v[i].start as usize as u64,
            end: next_start(v, v[i].start, i + 1, text) as u64,
        },
    )
}

/// The functions stand in the order of the code, and those that start at one place in the order of
/// their names.
pub proof fn functions_are_in_order(syms: Seq<Sv>, n: int)
    ensures
        in_order(starts(syms, n)),
    decreases n,
{
    if n > 0 {
        functions_are_in_order(syms, n - 1);
        if is_function(syms[n - 1]) {
            let s = syms[n - 1];
            an_insertion_keeps_the_order(
                starts(syms, n - 1),
                Ev { name: s.name, start: s.value, end: 0 },
            );
        }
    }
}

/// The functions of the code, as names with where they start and end, in order.
pub fn functions(o: &Obj) -> (r: Vec<(String, usize, usize)>)
    ensures
        triples(r@) == ended(starts(syms_of(o.syms@), o.syms.len() as int), o.text@.len()),
{
    let ghost syms = syms_of(o.syms@);
    let text: usize = o.text.len();
    let mut v: Vec<Extent> = Vec::new();
    let mut i: usize = 0;
    assert(extents(v@) =~= Seq::empty());
    while i < o.syms.len()
        invariant
            i <= o.syms.len(),
            syms == syms_of(o.syms@),
            extents(v@) == starts(syms, i as int),
        decreases o.syms.len() - i,
    {
        let s: &Sym = &o.syms[i];
        assert(syms[i as int] == s@);
        if s.defined && strip_prefix(s.name.as_str(), "ltmp").is_none() && strip_prefix(
            s.name.as_str(),
            "L",
        ).is_none() {
            insert_extent(&mut v, Extent { name: s.name.clone(), start: s.value, end: 0 });
        }
        i = i + 1;
    }
    let ghost all = extents(v@);
    let mut out: Vec<(String, usize, usize)> = Vec::new();
    let mut k: usize = 0;
    assert(triples(out@) =~= ended(all, text as nat).subrange(0, 0));
    while k < v.len()
        invariant
            k <= v.len(),
            all == extents(v@),
            triples(out@) == ended(all, text as nat).subrange(0, k as int),
        decreases v.len() - k,
    {
        let start: u64 = v[k].start;
        let mut j: usize = k + 1;
        assert(all[k as int] == v[k as int]@);
        while j < v.len() && v[j].start == start
            invariant
                k < j <= v.len(),
                all == extents(v@),
                next_start(all, start, j as int, text as nat) == next_start(
                    all,
                    start,
                    k + 1,
                    text as nat,
                ),
            decreases v.len() - j,
        {
            assert(all[j as int] == v[j as int]@);
            j = j + 1;
        }
        let end: usize = if j < v.len() {
            assert(all[j as int] == v[j as int]@);
            v[j].start as usize
        } else {
            text
        };
        let ghost before = out@;
        out.push((v[k].name.clone(), start as usize, end));
        assert(triples(out@) =~= triples(before).push(ended(all, text as nat)[k as int]));
        k = k + 1;
        assert(ended(all, text as nat).subrange(0, k as int) =~= ended(all, text as nat).subrange(
            0,
            k - 1,
        ).push(ended(all, text as nat)[k - 1]));
    }
    assert(ended(all, text as nat).subrange(0, k as int) =~= ended(all, text as nat));
    out
}

} // verus!
