//! What the reader of objects makes of what the writer wrote.

use crate::abi::Tgt;
use crate::bytes::{gap, le16, le32, le64, of16, of64, utf8, word_of, zeros};
use crate::elf::{
    code, file_header, file_of, filled, laid_out, machine_of, null_head, object_of, placed,
    placed_at, rank, rela_bytes, rela_head, rela_names, rela_table, rela_tables, section_head,
    section_names, shdr_bytes, shdrs_bytes, slot, sym_bytes, sym_info, sym_refusal, sym_section,
    sym_value, symtab_index, type_of, Lay, Shdr, Strt, Syms, SHF_ALLOC, SHF_EXECINSTR, SHT_NOBITS,
    SHT_PROGBITS, SHT_RELA, SHT_STRTAB, SHT_SYMTAB,
};
use crate::elfobj::{
    all_rels, all_syms, elf64, head_at, heads_of, names_of_table, parts_of, read_of, read_sections,
    rel_at, sym_at, table_rels, table_syms, ObjV, Ov, Parts, Sv,
};
use crate::fields::span;
use crate::found::{
    a_text_is_cut_at_its_null, cut, has, lemma_cut_stands, lemma_has, lemma_has16, lemma_has32, lemma_has64, lemma_has_split, lemma_has_within,
    lemma_name, no_null,
};
use crate::library::lemma_position_at;
use crate::object::{Reloc, Section, Symbol};
use crate::text::begins;
use vstd::prelude::*;

verus! {

/// Whether bytes are the start of others.
pub open spec fn grows(a: Seq<u8>, b: Seq<u8>) -> bool {
    has(b, 0, a)
}

proof fn lemma_grows(a: Seq<u8>, x: Seq<u8>)
    ensures
        grows(a, a + x),
{
    assert((a + x).subrange(0, a.len() as int) =~= a);
}

proof fn lemma_grows_on(a: Seq<u8>, b: Seq<u8>, c: Seq<u8>)
    requires
        grows(a, b),
        grows(b, c),
    ensures
        grows(a, c),
{
    lemma_has_within(c, 0, b, 0, a);
}

proof fn lemma_kept(a: Seq<u8>, b: Seq<u8>, at: int, p: Seq<u8>)
    requires
        grows(a, b),
        has(a, at, p),
    ensures
        has(b, at, p),
{
    lemma_has_within(b, 0, a, at, p);
}

// ---------------------------------------------------------------------------
// String tables
// ---------------------------------------------------------------------------

/// A name as it stands in a string table.
pub open spec fn entry(s: Seq<char>) -> Seq<u8> {
    utf8(s) + seq![0u8]
}

/// Whether every name of a table stands where the table says.
pub open spec fn sound(t: Strt) -> bool {
    &&& t.names.len() == t.ats.len()
    &&& has(t.bytes, 0, seq![0u8])
    &&& forall|i: int|
        0 <= i < t.names.len() ==> has(t.bytes, t.ats[i] as int, entry(#[trigger] t.names[i]))
}

proof fn lemma_put_grows(t: Strt, s: Seq<char>)
    ensures
        grows(t.bytes, t.put(s).0.bytes),
{
    assert(t.bytes + utf8(s) + seq![0u8] =~= t.bytes + (utf8(s) + seq![0u8]));
    lemma_grows(t.bytes, utf8(s) + seq![0u8]);
    lemma_grows(t.bytes, Seq::empty());
    assert(t.bytes + Seq::empty() =~= t.bytes);
}

proof fn lemma_put(t: Strt, s: Seq<char>)
    requires
        sound(t),
        t.put(s).0.bytes.len() <= u32::MAX,
    ensures
        sound(t.put(s).0),
        has(t.put(s).0.bytes, t.put(s).1 as int, entry(s)),
{
    lemma_put_grows(t, s);
    let n = t.put(s).0;
    lemma_position_at(t.names, s);
    if s.len() == 0 {
        assert(utf8(s) =~= Seq::<u8>::empty());
        assert(entry(s) =~= seq![0u8]);
    } else if crate::text::position(t.names, s) is None {
        let at = t.bytes.len() as int;
        assert(n.bytes =~= t.bytes + entry(s) + Seq::empty());
        lemma_has(t.bytes, entry(s), Seq::empty());
        assert(n.ats[t.names.len() as int] == at);
        assert forall|i: int| 0 <= i < n.names.len() implies has(
            n.bytes,
            n.ats[i] as int,
            entry(#[trigger] n.names[i]),
        ) by {
            if i < t.names.len() {
                assert(n.names[i] == t.names[i]);
                lemma_kept(t.bytes, n.bytes, t.ats[i] as int, entry(t.names[i]));
            }
        }
        lemma_kept(t.bytes, n.bytes, 0, seq![0u8]);
    }
}

proof fn lemma_new_table()
    ensures
        sound(Strt::new()),
{
    assert(seq![0u8].subrange(0, 1) =~= seq![0u8]);
}

/// The names of the first `n` sections stand in the table.
proof fn lemma_section_names(sections: Seq<Section>, n: int)
    requires
        0 <= n <= sections.len(),
        section_names(sections, n).table.bytes.len() <= u32::MAX,
    ensures
        sound(section_names(sections, n).table),
        section_names(sections, n).at.len() == n,
        forall|i: int|
            0 <= i < n ==> has(
                section_names(sections, n).table.bytes,
                section_names(sections, n).at[i] as int,
                entry((#[trigger] sections[i]).name@),
            ),
    decreases n,
{
    lemma_new_table();
    if n > 0 {
        let before = section_names(sections, n - 1);
        let now = section_names(sections, n);
        lemma_put_grows(before.table, sections[n - 1].name@);
        lemma_section_names(sections, n - 1);
        lemma_put(before.table, sections[n - 1].name@);
        assert forall|i: int| 0 <= i < n implies has(
            now.table.bytes,
            now.at[i] as int,
            entry((#[trigger] sections[i]).name@),
        ) by {
            if i < n - 1 {
                lemma_kept(
                    before.table.bytes,
                    now.table.bytes,
                    before.at[i] as int,
                    entry(sections[i].name@),
                );
            }
        }
    }
}

/// The names of the relocation tables of the first `n` sections stand in the table.
proof fn lemma_rela_names(start: Strt, sections: Seq<Section>, tables: Seq<Seq<u8>>, n: int)
    requires
        0 <= n <= sections.len(),
        sound(start),
        rela_names(start, sections, tables, n).table.bytes.len() <= u32::MAX,
    ensures
        sound(rela_names(start, sections, tables, n).table),
        grows(start.bytes, rela_names(start, sections, tables, n).table.bytes),
        rela_names(start, sections, tables, n).at.len() == n,
        forall|i: int|
            0 <= i < n && (#[trigger] tables[i]).len() > 0 ==> has(
                rela_names(start, sections, tables, n).table.bytes,
                rela_names(start, sections, tables, n).at[i] as int,
                entry(".rela"@ + sections[i].name@),
            ),
    decreases n,
{
    if n <= 0 {
        lemma_grows(start.bytes, Seq::empty());
        assert(start.bytes + Seq::empty() =~= start.bytes);
    } else {
        let before = rela_names(start, sections, tables, n - 1);
        let now = rela_names(start, sections, tables, n);
        let name = ".rela"@ + sections[n - 1].name@;
        lemma_put_grows(before.table, name);
        lemma_rela_names(start, sections, tables, n - 1);
        if tables[n - 1].len() > 0 {
            lemma_put(before.table, name);
            lemma_grows_on(start.bytes, before.table.bytes, now.table.bytes);
            assert forall|i: int| 0 <= i < n && (#[trigger] tables[i]).len() > 0 implies has(
                now.table.bytes,
                now.at[i] as int,
                entry(".rela"@ + sections[i].name@),
            ) by {
                if i < n - 1 {
                    lemma_kept(
                        before.table.bytes,
                        now.table.bytes,
                        before.at[i] as int,
                        entry(".rela"@ + sections[i].name@),
                    );
                }
            }
        }
    }
}

// ---------------------------------------------------------------------------
// The layout
// ---------------------------------------------------------------------------

/// Whether a layout is the start of another.
pub open spec fn sub_layout(l: Lay, m: Lay) -> bool {
    &&& l.heads.len() <= m.heads.len()
    &&& forall|i: int| 0 <= i < l.heads.len() ==> #[trigger] m.heads[i] == l.heads[i]
    &&& grows(l.file, m.file)
}

proof fn lemma_sub_on(a: Lay, b: Lay, c: Lay)
    requires
        sub_layout(a, b),
        sub_layout(b, c),
    ensures
        sub_layout(a, c),
{
    lemma_grows_on(a.file, b.file, c.file);
    assert forall|i: int| 0 <= i < a.heads.len() implies #[trigger] c.heads[i] == a.heads[i] by {
        assert(b.heads[i] == a.heads[i]);
    }
}

proof fn lemma_sub_self(l: Lay)
    ensures
        sub_layout(l, l),
{
    lemma_grows(l.file, Seq::empty());
    assert(l.file + Seq::empty() =~= l.file);
}

proof fn lemma_placed(file: Seq<u8>, align: nat, data: Seq<u8>)
    ensures
        grows(file, placed(file, align, data)),
        has(placed(file, align, data), placed_at(file, align) as int, data),
        placed(file, align, data).len() == placed_at(file, align) + data.len(),
{
    let z = zeros(gap(file.len(), align));
    assert(placed(file, align, data) =~= file + (z + data));
    lemma_grows(file, z + data);
    assert(placed(file, align, data) =~= (file + z) + data + Seq::empty());
    lemma_has(file + z, data, Seq::empty());
}

proof fn lemma_lay_section(l: Lay, s: Section, name: u32)
    ensures
        sub_layout(l, l.section(s, name)),
        l.section(s, name).file.len() <= u64::MAX && s.zerofill == 0 ==> has(
            l.section(s, name).file,
            section_head(s, name, l.file).offset as int,
            s.data@,
        ) && section_head(s, name, l.file).offset >= l.file.len(),
        l.section(s, name).file.len() >= l.file.len(),
{
    lemma_placed(l.file, (1u64 << s.align) as nat, s.data@);
    lemma_sub_self(l);
}

proof fn lemma_lay_sections(l: Lay, sections: Seq<Section>, names: Seq<u32>, n: int)
    requires
        0 <= n <= sections.len(),
    ensures
        sub_layout(l, l.sections(sections, names, n)),
        l.sections(sections, names, n).heads.len() == l.heads.len() + n,
        forall|i: int|
            0 <= i < n ==> l.sections(sections, names, n).heads[l.heads.len() + i] == section_head(
                #[trigger] sections[i],
                names[i],
                l.sections(sections, names, i).file,
            ),
        l.sections(sections, names, n).file.len() <= u64::MAX ==> forall|i: int|
            0 <= i < n && (#[trigger] sections[i]).zerofill == 0 ==> has(
                l.sections(sections, names, n).file,
                l.sections(sections, names, n).heads[l.heads.len() + i].offset as int,
                sections[i].data@,
            ) && l.sections(sections, names, n).heads[l.heads.len() + i].offset >= l.file.len(),
    decreases n,
{
    if n <= 0 {
        lemma_sub_self(l);
    } else {
        let m = l.sections(sections, names, n - 1);
        let now = l.sections(sections, names, n);
        lemma_lay_sections(l, sections, names, n - 1);
        lemma_lay_section(m, sections[n - 1], names[n - 1]);
        lemma_sub_on(l, m, now);
        assert forall|i: int| 0 <= i < n implies now.heads[l.heads.len() + i] == section_head(
            #[trigger] sections[i],
            names[i],
            l.sections(sections, names, i).file,
        ) by {
            if i < n - 1 {
                assert(now.heads[l.heads.len() + i] == m.heads[l.heads.len() + i]);
            }
        }
        if now.file.len() <= u64::MAX {
            assert forall|i: int| 0 <= i < n && (#[trigger] sections[i]).zerofill == 0 implies has(
                now.file,
                now.heads[l.heads.len() + i].offset as int,
                sections[i].data@,
            ) && now.heads[l.heads.len() + i].offset >= l.file.len() by {
                if i < n - 1 {
                    assert(now.heads[l.heads.len() + i] == m.heads[l.heads.len() + i]);
                    lemma_kept(
                        m.file,
                        now.file,
                        m.heads[l.heads.len() + i].offset as int,
                        sections[i].data@,
                    );
                }
            }
        }
    }
}

proof fn lemma_filled_grows(tables: Seq<Seq<u8>>, i: int, n: int)
    requires
        0 <= i <= n,
    ensures
        filled(tables, i) <= filled(tables, n),
        i < n && tables[i].len() > 0 ==> filled(tables, i) < filled(tables, n),
        filled(tables, n) <= n,
    decreases n,
{
    if i < n {
        lemma_filled_grows(tables, i, n - 1);
    } else if n > 0 {
        lemma_filled_grows(tables, n - 1, n - 1);
    }
}

proof fn lemma_lay_relas(l: Lay, tables: Seq<Seq<u8>>, names: Seq<u32>, symtab: u32, n: int)
    requires
        0 <= n <= tables.len(),
    ensures
        sub_layout(l, l.relas(tables, names, symtab, n)),
        l.relas(tables, names, symtab, n).heads.len() == l.heads.len() + filled(tables, n),
        l.relas(tables, names, symtab, n).file.len() <= u64::MAX ==> forall|i: int|
            0 <= i < n && (#[trigger] tables[i]).len() > 0 ==> {
                let h = l.relas(tables, names, symtab, n).heads[l.heads.len() as int + filled(tables, i)];
                &&& h == rela_head(i, names[i], tables[i].len() as u64, h.offset, symtab)
                &&& has(l.relas(tables, names, symtab, n).file, h.offset as int, tables[i])
                &&& h.offset >= l.file.len()
            },
    decreases n,
{
    if n <= 0 {
        lemma_sub_self(l);
    } else {
        let m = l.relas(tables, names, symtab, n - 1);
        let now = l.relas(tables, names, symtab, n);
        let t = tables[n - 1];
        lemma_lay_relas(l, tables, names, symtab, n - 1);
        lemma_placed(m.file, 8, t);
        lemma_sub_self(m);
        assert(sub_layout(m, now));
        lemma_sub_on(l, m, now);
        if now.file.len() <= u64::MAX {
            assert forall|i: int| 0 <= i < n && (#[trigger] tables[i]).len() > 0 implies {
                let h = now.heads[l.heads.len() as int + filled(tables, i)];
                &&& h == rela_head(i, names[i], tables[i].len() as u64, h.offset, symtab)
                &&& has(now.file, h.offset as int, tables[i])
                &&& h.offset >= l.file.len()
            } by {
                if i < n - 1 {
                    lemma_filled_grows(tables, i, n - 1);
                    let k = l.heads.len() + filled(tables, i);
                    assert(now.heads[k as int] == m.heads[k as int]);
                    lemma_kept(m.file, now.file, m.heads[k as int].offset as int, tables[i]);
                }
            }
        }
    }
}

// ---------------------------------------------------------------------------
// The file
// ---------------------------------------------------------------------------

proof fn lemma_lens()
    ensures
        forall|w: u16| #[trigger] le16(w).len() == 2,
        forall|w: u32| #[trigger] le32(w).len() == 4,
        forall|w: u64| #[trigger] le64(w).len() == 8,
        forall|n: nat| #[trigger] zeros(n).len() == n,
{
}

/// A section header is read where it was written.
proof fn lemma_head(b: Seq<u8>, o: nat, h: Shdr)
    requires
        has(b, o as int, shdr_bytes(h)),
    ensures
        head_at(b, o) == Ok::<Shdr, Seq<char>>(h),
        shdr_bytes(h).len() == 64,
{
    lemma_lens();
    let p1 = le32(h.name);
    let p2 = p1 + le32(h.kind);
    let p3 = p2 + le64(h.flags);
    let p4 = p3 + le64(0);
    let p5 = p4 + le64(h.offset);
    let p6 = p5 + le64(h.size);
    let p7 = p6 + le32(h.link);
    let p8 = p7 + le32(h.info);
    let p9 = p8 + le64(h.align);
    let at = o as int;
    lemma_has_split(b, at, p9, le64(h.entsize));
    lemma_has_split(b, at, p8, le64(h.align));
    lemma_has_split(b, at, p7, le32(h.info));
    lemma_has_split(b, at, p6, le32(h.link));
    lemma_has_split(b, at, p5, le64(h.size));
    lemma_has_split(b, at, p4, le64(h.offset));
    lemma_has_split(b, at, p3, le64(0));
    lemma_has_split(b, at, p2, le64(h.flags));
    lemma_has_split(b, at, p1, le32(h.kind));
    lemma_has32(b, at, h.name);
    lemma_has32(b, at + 4, h.kind);
    lemma_has64(b, at + 8, h.flags);
    lemma_has64(b, at + 24, h.offset);
    lemma_has64(b, at + 32, h.size);
    lemma_has32(b, at + 40, h.link);
    lemma_has32(b, at + 44, h.info);
    lemma_has64(b, at + 48, h.align);
    lemma_has64(b, at + 56, h.entsize);
}

proof fn lemma_heads(b: Seq<u8>, shoff: nat, heads: Seq<Shdr>, n: int)
    requires
        0 <= n <= heads.len(),
        has(b, shoff as int, shdrs_bytes(heads, n)),
    ensures
        heads_of(b, shoff, n) == Ok::<Seq<Shdr>, Seq<char>>(heads.subrange(0, n)),
        shdrs_bytes(heads, n).len() == 64 * n,
    decreases n,
{
    if n <= 0 {
        assert(heads.subrange(0, n) =~= Seq::empty());
    } else {
        lemma_has_split(b, shoff as int, shdrs_bytes(heads, n - 1), shdr_bytes(heads[n - 1]));
        lemma_heads(b, shoff, heads, n - 1);
        lemma_head(b, (shoff + (n - 1) * 64) as nat, heads[n - 1]);
        assert(heads.subrange(0, n - 1).push(heads[n - 1]) =~= heads.subrange(0, n));
    }
}

/// The body of a file: what was laid out, up to a multiple of eight.
pub open spec fn body_of(l: Lay) -> Seq<u8> {
    l.file + zeros(gap(l.file.len(), 8))
}

proof fn lemma_file_header(b: Seq<u8>, machine: u16, shoff: u64, heads: nat)
    requires
        has(b, 0, file_header(machine, shoff, heads)),
        0 < heads <= u16::MAX,
    ensures
        file_header(machine, shoff, heads).len() == 64,
        elf64(b),
        of16(b, 18) == machine,
        of64(b, 40) == shoff,
        of16(b, 58) == 64,
        of16(b, 60) == heads,
        of16(b, 62) == heads - 1,
{
    lemma_lens();
    let magic = seq![0x7fu8, 0x45u8, 0x4cu8, 0x46u8, 2u8, 1u8, 1u8, 0u8];
    let q2 = magic + zeros(8);
    let q3 = q2 + le16(crate::elf::ET_REL);
    let q4 = q3 + le16(machine);
    let q5 = q4 + le32(1);
    let q6 = q5 + le64(0);
    let q7 = q6 + le64(0);
    let q8 = q7 + le64(shoff);
    let q9 = q8 + le32(0);
    let q10 = q9 + le16(64);
    let q11 = q10 + le16(0);
    let q12 = q11 + le16(0);
    let q13 = q12 + le16(64);
    let q14 = q13 + le16(heads as u16);
    lemma_has_split(b, 0, q14, le16((heads - 1) as u16));
    lemma_has_split(b, 0, q13, le16(heads as u16));
    lemma_has_split(b, 0, q12, le16(64));
    lemma_has_split(b, 0, q11, le16(0));
    lemma_has_split(b, 0, q10, le16(0));
    lemma_has_split(b, 0, q9, le16(64));
    lemma_has_split(b, 0, q8, le32(0));
    lemma_has_split(b, 0, q7, le64(shoff));
    lemma_has_split(b, 0, q6, le64(0));
    lemma_has_split(b, 0, q5, le64(0));
    lemma_has_split(b, 0, q4, le32(1));
    lemma_has_split(b, 0, q3, le16(machine));
    lemma_has_split(b, 0, q2, le16(crate::elf::ET_REL));
    lemma_has_split(b, 0, magic, zeros(8));
    lemma_has16(b, 18, machine);
    lemma_has64(b, 40, shoff);
    lemma_has16(b, 58, 64);
    lemma_has16(b, 60, heads as u16);
    lemma_has16(b, 62, (heads - 1) as u16);
    let m = b.subrange(0, 8);
    assert(m[0] == 0x7f && m[1] == 0x45 && m[2] == 0x4c && m[3] == 0x46 && m[4] == 2 && m[5] == 1);
}

proof fn lemma_file(machine: u16, l: Lay)
    requires
        l.file.len() >= 64,
        0 < l.heads.len() <= u16::MAX,
        body_of(l).len() <= u64::MAX,
    ensures
        ({
            let b = file_of(machine, l);
            &&& elf64(b)
            &&& of16(b, 18) == machine
            &&& of64(b, 40) == body_of(l).len()
            &&& of16(b, 58) == 64
            &&& of16(b, 60) == l.heads.len()
            &&& of16(b, 62) == l.heads.len() - 1
            &&& heads_of(b, body_of(l).len(), l.heads.len() as int) == Ok::<Seq<Shdr>, Seq<char>>(
                l.heads,
            )
            &&& forall|o: int, p: Seq<u8>| #![trigger has(b, o, p)]
                o >= 64 && has(l.file, o, p) ==> has(b, o, p)
        }),
{
    lemma_lens();
    let b = file_of(machine, l);
    let body = body_of(l);
    let hdr = file_header(machine, body.len() as u64, l.heads.len());
    let mid = body.subrange(64, body.len() as int);
    let tail = shdrs_bytes(l.heads, l.heads.len() as int);
    assert(b =~= Seq::empty() + hdr + (mid + tail));
    lemma_has(Seq::empty(), hdr, mid + tail);
    lemma_file_header(b, machine, body.len() as u64, l.heads.len());
    assert(b =~= (hdr + mid) + tail + Seq::empty());
    lemma_has(hdr + mid, tail, Seq::empty());
    lemma_heads(b, body.len(), l.heads, l.heads.len() as int);
    assert(l.heads.subrange(0, l.heads.len() as int) =~= l.heads);
    assert forall|o: int, p: Seq<u8>| #![trigger has(b, o, p)] o >= 64 && has(
        l.file,
        o,
        p,
    ) implies has(b, o, p) by {
        lemma_grows(l.file, zeros(gap(l.file.len(), 8)));
        lemma_kept(l.file, body, o, p);
        let x = b.subrange(o, o + p.len());
        assert(x =~= p) by {
            assert forall|i: int| 0 <= i < p.len() implies #[trigger] x[i] == p[i] by {
                assert(b[o + i] == body[o + i]);
                assert(body.subrange(o, o + p.len())[i] == body[o + i]);
            }
        }
    }
}

// ---------------------------------------------------------------------------
// Symbols
// ---------------------------------------------------------------------------

/// What the reader makes of a symbol.
pub open spec fn seen_symbol(s: Symbol) -> Sv {
    Sv {
        name: cut(s.name@),
        sect: sym_section(s),
        value: sym_value(s),
        size: 0,
        defined: s.defined is Some,
    }
}

/// What the reader makes of the null symbol.
pub open spec fn null_symbol() -> Sv {
    Sv { name: Seq::empty(), sect: 0, value: 0, size: 0, defined: false }
}

/// What the reader makes of the symbols of one binding, from symbol `i` on.
pub open spec fn seen_binding(symbols: Seq<Symbol>, global: bool, i: int) -> Seq<Sv>
    decreases symbols.len() - i,
{
    if i >= symbols.len() {
        Seq::empty()
    } else if symbols[i].global == global {
        seq![seen_symbol(symbols[i])] + seen_binding(symbols, global, i + 1)
    } else {
        seen_binding(symbols, global, i + 1)
    }
}

/// What the reader makes of the symbols: the null symbol, the local ones, and the global ones.
pub open spec fn seen_symbols(symbols: Seq<Symbol>) -> Seq<Sv> {
    seq![null_symbol()] + seen_binding(symbols, false, 0) + seen_binding(symbols, true, 0)
}

/// Whether symbol `k` of a table stands for `e`.
pub open spec fn stands_for(s: Syms, k: int, e: Sv) -> bool {
    &&& no_null(e.name)
    &&& e.size == 0
    &&& e.defined == (e.sect != 0)
    &&& exists|a: u32, info: u8|
        has(s.bytes, 24 * k, #[trigger] sym_bytes(a, info, e.sect, e.value)) && has(
            s.names.bytes,
            a as int,
            entry(e.name),
        )
}

/// Whether a symbol table stands for these symbols.
pub open spec fn table_of(s: Syms, exp: Seq<Sv>) -> bool {
    &&& sound(s.names)
    &&& s.bytes.len() == 24 * exp.len()
    &&& forall|k: int| 0 <= k < exp.len() ==> stands_for(s, k, #[trigger] exp[k])
}

proof fn lemma_zero_bytes()
    ensures
        sym_bytes(0, 0, 0, 0) == zeros(24),
{
    lemma_lens();
    assert((0u16 & 0xff) as u8 == 0 && ((0u16 >> 8) & 0xff) as u8 == 0 && (0u32 & 0xff) as u8 == 0
        && ((0u32 >> 8) & 0xff) as u8 == 0 && ((0u32 >> 16) & 0xff) as u8 == 0 && ((0u32 >> 24)
        & 0xff) as u8 == 0 && (0u64 & 0xffff_ffff) as u32 == 0 && (0u64 >> 32) as u32 == 0)
        by (bit_vector);
    assert(sym_bytes(0, 0, 0, 0) =~= zeros(24));
}

proof fn lemma_new_symbols()
    ensures
        table_of(Syms::new(), seq![null_symbol()]),
{
    lemma_new_table();
    lemma_zero_bytes();
    lemma_lens();
    let s = Syms::new();
    assert(s.bytes.subrange(0, 24) =~= s.bytes);
    assert(has(s.bytes, 0, sym_bytes(0, 0, 0, 0)));
    assert(utf8(Seq::<char>::empty()) =~= Seq::<u8>::empty());
    assert(entry(Seq::<char>::empty()) =~= seq![0u8]);
    let e = null_symbol();
    assert(has(s.bytes, 0, sym_bytes(0u32, 0u8, e.sect, e.value)) && has(
        s.names.bytes,
        0u32 as int,
        entry(e.name),
    ));
    assert(stands_for(s, 0, e));
}

proof fn lemma_symbol_put(s: Syms, exp: Seq<Sv>, sections: Seq<Section>, y: Symbol)
    requires
        table_of(s, exp),
        s.put(sections, y).names.bytes.len() <= u32::MAX,
        sym_refusal(sections, y) is None,
        sections.len() < u16::MAX,
    ensures
        table_of(s.put(sections, y), exp.push(seen_symbol(y))),
{
    lemma_lens();
    let n = s.put(sections, y);
    let all = exp.push(seen_symbol(y));
    let at = s.names.put(y.name@).1;
    let p = sym_bytes(at, sym_info(sections, y), sym_section(y), sym_value(y));
    lemma_put(s.names, y.name@);
    lemma_put_grows(s.names, y.name@);
    assert(n.bytes =~= s.bytes + p + Seq::empty());
    lemma_has(s.bytes, p, Seq::empty());
    lemma_grows(s.bytes, p);
    assert forall|k: int| 0 <= k < all.len() implies stands_for(n, k, #[trigger] all[k]) by {
        if k < exp.len() {
            let e = exp[k];
            assert(all[k] == e);
            assert(stands_for(s, k, e));
            let (a, info) = choose|a: u32, info: u8|
                has(s.bytes, 24 * k, #[trigger] sym_bytes(a, info, e.sect, e.value)) && has(
                    s.names.bytes,
                    a as int,
                    entry(e.name),
                );
            lemma_kept(s.bytes, n.bytes, 24 * k, sym_bytes(a, info, e.sect, e.value));
            lemma_kept(s.names.bytes, n.names.bytes, a as int, entry(e.name));
        } else {
            let e = seen_symbol(y);
            a_text_is_cut_at_its_null(y.name@);
            lemma_cut_stands(n.names.bytes, at as int, y.name@);
            assert(has(n.bytes, 24 * k, sym_bytes(at, sym_info(sections, y), e.sect, e.value)));
        }
    }
}

proof fn lemma_pass_grows(
    s: Syms,
    sections: Seq<Section>,
    symbols: Seq<Symbol>,
    global: bool,
    i: int,
)
    ensures
        grows(s.names.bytes, s.pass(sections, symbols, global, i).0.names.bytes),
    decreases symbols.len() - i,
{
    lemma_grows(s.names.bytes, Seq::empty());
    assert(s.names.bytes + Seq::empty() =~= s.names.bytes);
    if i >= symbols.len() {
    } else if symbols[i].global != global {
        lemma_pass_grows(s, sections, symbols, global, i + 1);
    } else if sym_refusal(sections, symbols[i]) is None {
        let n = s.put(sections, symbols[i]);
        lemma_put_grows(s.names, symbols[i].name@);
        lemma_pass_grows(n, sections, symbols, global, i + 1);
        lemma_grows_on(
            s.names.bytes,
            n.names.bytes,
            s.pass(sections, symbols, global, i).0.names.bytes,
        );
    }
}

proof fn lemma_pass(
    s: Syms,
    exp: Seq<Sv>,
    sections: Seq<Section>,
    symbols: Seq<Symbol>,
    global: bool,
    i: int,
)
    requires
        0 <= i <= symbols.len(),
        table_of(s, exp),
        s.pass(sections, symbols, global, i).1 is None,
        s.pass(sections, symbols, global, i).0.names.bytes.len() <= u32::MAX,
        sections.len() < u16::MAX,
    ensures
        table_of(
            s.pass(sections, symbols, global, i).0,
            exp + seen_binding(symbols, global, i),
        ),
    decreases symbols.len() - i,
{
    if i >= symbols.len() {
        assert(exp + Seq::empty() =~= exp);
    } else if symbols[i].global != global {
        lemma_pass(s, exp, sections, symbols, global, i + 1);
    } else {
        let y = symbols[i];
        let n = s.put(sections, y);
        lemma_pass_grows(n, sections, symbols, global, i + 1);
        lemma_symbol_put(s, exp, sections, y);
        lemma_pass(n, exp.push(seen_symbol(y)), sections, symbols, global, i + 1);
        assert(exp.push(seen_symbol(y)) + seen_binding(symbols, global, i + 1) =~= exp
            + seen_binding(symbols, global, i));
    }
}

proof fn lemma_symbol_at(b: Seq<u8>, names: Seq<u8>, o: nat, a: u32, info: u8, e: Sv)
    requires
        has(b, o as int, sym_bytes(a, info, e.sect, e.value)),
        has(names, a as int, entry(e.name)),
        no_null(e.name),
        e.size == 0,
        e.defined == (e.sect != 0),
    ensures
        sym_at(b, names, o) == Ok::<Sv, Seq<char>>(e),
{
    lemma_lens();
    let at = o as int;
    let two = seq![info, 0u8];
    let p1 = le32(a);
    let p2 = p1 + two;
    let p3 = p2 + le16(e.sect);
    let p4 = p3 + le64(e.value);
    lemma_has_split(b, at, p4, le64(0));
    lemma_has_split(b, at, p3, le64(e.value));
    lemma_has_split(b, at, p2, le16(e.sect));
    lemma_has_split(b, at, p1, two);
    lemma_has32(b, at, a);
    lemma_has16(b, at + 6, e.sect);
    lemma_has64(b, at + 8, e.value);
    lemma_has64(b, at + 16, 0);
    lemma_name("ELF"@, names, a as nat, e.name);
}

proof fn lemma_symbols_read(b: Seq<u8>, offset: nat, s: Syms, exp: Seq<Sv>, n: int)
    requires
        0 <= n <= exp.len(),
        has(b, offset as int, s.bytes),
        table_of(s, exp),
    ensures
        table_syms(Seq::empty(), b, s.names.bytes, offset, n) == Ok::<Seq<Sv>, Seq<char>>(
            exp.subrange(0, n),
        ),
    decreases n,
{
    if n <= 0 {
        assert(exp.subrange(0, n) =~= Seq::empty());
    } else {
        let e = exp[n - 1];
        lemma_symbols_read(b, offset, s, exp, n - 1);
        assert(stands_for(s, n - 1, e));
        let (a, info) = choose|a: u32, info: u8|
            has(s.bytes, 24 * (n - 1), #[trigger] sym_bytes(a, info, e.sect, e.value)) && has(
                s.names.bytes,
                a as int,
                entry(e.name),
            );
        lemma_has_within(
            b,
            offset as int,
            s.bytes,
            24 * (n - 1),
            sym_bytes(a, info, e.sect, e.value),
        );
        lemma_symbol_at(b, s.names.bytes, (offset + (n - 1) * 24) as nat, a, info, e);
        assert(exp.subrange(0, n - 1).push(e) =~= exp.subrange(0, n));
    }
}

// ---------------------------------------------------------------------------
// Relocations
// ---------------------------------------------------------------------------

/// What the reader makes of a relocation of section `i`.
pub open spec fn seen_reloc(
    target: Tgt,
    sections: Seq<Section>,
    symbols: Seq<Symbol>,
    r: Reloc,
) -> crate::elfobj::Reloc {
    let w = word_of(sections[r.section as int].data@, r.offset as int);
    crate::elfobj::Reloc {
        addr: r.offset as u32,
        kind: type_of(
            target,
            r.kind,
            w,
            crate::elf::place_name(sections[r.section as int], r.offset),
        )->Ok_0,
        symbolnum: slot(symbols, r.symbol as int) as u32,
        addend: r.addend,
    }
}

/// What the reader makes of the relocations of section `i`, from relocation `j` on.
pub open spec fn seen_relocs(
    target: Tgt,
    sections: Seq<Section>,
    symbols: Seq<Symbol>,
    relocs: Seq<Reloc>,
    i: int,
    j: int,
) -> Seq<crate::elfobj::Reloc>
    decreases relocs.len() - j,
{
    if j >= relocs.len() {
        Seq::empty()
    } else if relocs[j].section != i {
        seen_relocs(target, sections, symbols, relocs, i, j + 1)
    } else {
        seq![seen_reloc(target, sections, symbols, relocs[j])] + seen_relocs(
            target,
            sections,
            symbols,
            relocs,
            i,
            j + 1,
        )
    }
}

/// Whether relocation `k` of a table stands for `e`.
pub open spec fn relocates(t: Seq<u8>, k: int, e: crate::elfobj::Reloc) -> bool {
    exists|offset: u64, symbol: u64|
        has(t, 24 * k, #[trigger] rela_bytes(offset, symbol, e.kind, e.addend)) && offset as u32
            == e.addr && symbol == e.symbolnum
}

/// Whether a relocation table stands for these relocations.
pub open spec fn rela_table_of(t: Seq<u8>, exp: Seq<crate::elfobj::Reloc>) -> bool {
    &&& t.len() == 24 * exp.len()
    &&& forall|k: int| 0 <= k < exp.len() ==> relocates(t, k, #[trigger] exp[k])
}

proof fn lemma_rank_bound(symbols: Seq<Symbol>, n: int)
    requires
        0 <= n <= symbols.len(),
    ensures
        rank(symbols, false, n) + rank(symbols, true, n) == n,
    decreases n,
{
    if n > 0 {
        lemma_rank_bound(symbols, n - 1);
    }
}

proof fn lemma_rank_grows(symbols: Seq<Symbol>, global: bool, k: int, n: int)
    requires
        0 <= k <= n <= symbols.len(),
    ensures
        rank(symbols, global, k) <= rank(symbols, global, n),
    decreases n - k,
{
    if k < n {
        lemma_rank_grows(symbols, global, k, n - 1);
    }
}

proof fn lemma_seen_binding(symbols: Seq<Symbol>, global: bool, i: int, k: int)
    requires
        0 <= i <= k <= symbols.len(),
    ensures
        seen_binding(symbols, global, i).len() == rank(symbols, global, symbols.len() as int) - rank(
            symbols,
            global,
            i,
        ),
        k < symbols.len() && symbols[k].global == global ==> seen_binding(symbols, global, i)[rank(
            symbols,
            global,
            k,
        ) - rank(symbols, global, i)] == seen_symbol(symbols[k]),
    decreases symbols.len() - i,
{
    if i < symbols.len() {
        lemma_rank_grows(symbols, global, i + 1, symbols.len() as int);
        if i < k {
            lemma_rank_grows(symbols, global, i + 1, k);
            lemma_seen_binding(symbols, global, i + 1, k);
            let next = seen_binding(symbols, global, i + 1);
            let at = rank(symbols, global, k) - rank(symbols, global, i);
            if k < symbols.len() && symbols[k].global == global {
                lemma_rank_grows(symbols, global, k + 1, symbols.len() as int);
                if symbols[i].global == global {
                    assert((seq![seen_symbol(symbols[i])] + next)[at] == next[at - 1]);
                }
            }
        } else {
            lemma_seen_binding(symbols, global, i + 1, i + 1);
        }
    }
}

/// A symbol's place in the table is past the null symbol and within the table, and the symbol is what
/// the reader finds there.
pub proof fn a_slot_is_in_the_table(symbols: Seq<Symbol>, k: int)
    requires
        0 <= k < symbols.len(),
    ensures
        1 <= slot(symbols, k) <= symbols.len(),
        seen_symbols(symbols).len() == symbols.len() + 1,
        seen_symbols(symbols)[slot(symbols, k) as int] == seen_symbol(symbols[k]),
{
    let n = symbols.len() as int;
    lemma_rank_bound(symbols, n);
    lemma_rank_grows(symbols, true, k + 1, n);
    lemma_rank_grows(symbols, false, k + 1, n);
    lemma_seen_binding(symbols, false, 0, k);
    lemma_seen_binding(symbols, true, 0, k);
}

proof fn lemma_rela(
    target: Tgt,
    sections: Seq<Section>,
    symbols: Seq<Symbol>,
    relocs: Seq<Reloc>,
    i: int,
    j: int,
    t: Seq<u8>,
    exp: Seq<crate::elfobj::Reloc>,
)
    requires
        0 <= j <= relocs.len(),
        0 <= i < sections.len(),
        rela_table_of(t, exp),
        rela_table(target, sections, symbols, relocs, i, j, t) is Ok,
        forall|k: int| 0 <= k < relocs.len() ==> (#[trigger] relocs[k]).symbol < symbols.len(),
        symbols.len() < u32::MAX,
    ensures
        rela_table_of(
            rela_table(target, sections, symbols, relocs, i, j, t)->Ok_0,
            exp + seen_relocs(target, sections, symbols, relocs, i, j),
        ),
    decreases relocs.len() - j,
{
    lemma_lens();
    if j >= relocs.len() {
        assert(exp + Seq::empty() =~= exp);
    } else if relocs[j].section != i {
        lemma_rela(target, sections, symbols, relocs, i, j + 1, t, exp);
    } else {
        let r = relocs[j];
        let e = seen_reloc(target, sections, symbols, r);
        let sym = slot(symbols, r.symbol as int) as u64;
        a_slot_is_in_the_table(symbols, r.symbol as int);
        let p = rela_bytes(r.offset, sym, e.kind, r.addend);
        let n = t + p;
        let all = exp.push(e);
        assert(n =~= t + p + Seq::empty());
        lemma_has(t, p, Seq::empty());
        lemma_grows(t, p);
        assert forall|k: int| 0 <= k < all.len() implies relocates(n, k, #[trigger] all[k]) by {
            if k < exp.len() {
                let x = exp[k];
                assert(all[k] == x);
                assert(relocates(t, k, x));
                let (offset, symbol) = choose|offset: u64, symbol: u64|
                    has(t, 24 * k, #[trigger] rela_bytes(offset, symbol, x.kind, x.addend))
                        && offset as u32 == x.addr && symbol == x.symbolnum;
                lemma_kept(t, n, 24 * k, rela_bytes(offset, symbol, x.kind, x.addend));
            } else {
                assert(has(n, 24 * k, rela_bytes(r.offset, sym, e.kind, e.addend)));
            }
        }
        lemma_rela(target, sections, symbols, relocs, i, j + 1, n, all);
        assert(all + seen_relocs(target, sections, symbols, relocs, i, j + 1) =~= exp
            + seen_relocs(target, sections, symbols, relocs, i, j));
    }
}

proof fn lemma_rel_at(b: Seq<u8>, o: nat, offset: u64, symbol: u64, e: crate::elfobj::Reloc)
    requires
        has(b, o as int, rela_bytes(offset, symbol, e.kind, e.addend)),
        offset as u32 == e.addr,
        symbol == e.symbolnum,
    ensures
        rel_at(b, o) == Ok::<crate::elfobj::Reloc, Seq<char>>(e),
{
    lemma_lens();
    let at = o as int;
    let kind = e.kind;
    let info = (symbol << 32) | kind as u64;
    let add = e.addend as u64;
    let p1 = le64(offset);
    let p2 = p1 + le64(info);
    lemma_has_split(b, at, p2, le64(add));
    lemma_has_split(b, at, p1, le64(info));
    lemma_has64(b, at, offset);
    lemma_has64(b, at + 8, info);
    lemma_has64(b, at + 16, add);
    assert(symbol <= 0xffff_ffff ==> ((((symbol << 32) | kind as u64) & 0xffff_ffff) as u32 == kind
        && (((symbol << 32) | kind as u64) >> 32) == symbol)) by (bit_vector);
    let addend = e.addend;
    assert((addend as u64) as i64 == addend) by (bit_vector);
}

proof fn lemma_rels_read(
    b: Seq<u8>,
    offset: nat,
    t: Seq<u8>,
    exp: Seq<crate::elfobj::Reloc>,
    n: int,
)
    requires
        0 <= n <= exp.len(),
        has(b, offset as int, t),
        rela_table_of(t, exp),
    ensures
        table_rels(Seq::empty(), b, offset, n) == Ok::<Seq<crate::elfobj::Reloc>, Seq<char>>(
            exp.subrange(0, n),
        ),
    decreases n,
{
    if n <= 0 {
        assert(exp.subrange(0, n) =~= Seq::empty());
    } else {
        let e = exp[n - 1];
        lemma_rels_read(b, offset, t, exp, n - 1);
        assert(relocates(t, n - 1, e));
        let (addr, symbol) = choose|addr: u64, symbol: u64|
            has(t, 24 * (n - 1), #[trigger] rela_bytes(addr, symbol, e.kind, e.addend))
                && addr as u32 == e.addr && symbol == e.symbolnum;
        lemma_has_within(
            b,
            offset as int,
            t,
            24 * (n - 1),
            rela_bytes(addr, symbol, e.kind, e.addend),
        );
        lemma_rel_at(b, (offset + (n - 1) * 24) as nat, addr, symbol, e);
        assert(exp.subrange(0, n - 1).push(e) =~= exp.subrange(0, n));
    }
}

// ---------------------------------------------------------------------------
// The whole layout
// ---------------------------------------------------------------------------

/// The names of the sections of an object.
pub open spec fn all_names(sections: Seq<Section>, tables: Seq<Seq<u8>>) -> Strt {
    let n = sections.len() as int;
    rela_names(section_names(sections, n).table, sections, tables, n).table.put(
        ".note.GNU-stack"@,
    ).0.put(".symtab"@).0.put(".strtab"@).0.put(".shstrtab"@).0
}

/// Whether header `k` names `name`.
pub open spec fn named(t: Seq<u8>, h: Shdr, name: Seq<char>) -> bool {
    has(t, h.name as int, entry(name))
}

/// Whether header `h` is of these bytes of the file.
pub open spec fn covers(file: Seq<u8>, h: Shdr, data: Seq<u8>) -> bool {
    has(file, h.offset as int, data) && h.offset >= 64 && h.size == data.len()
}

/// What a layout is made of.
pub open spec fn arranged(l: Lay, sections: Seq<Section>, tables: Seq<Seq<u8>>, syms: Syms) -> bool {
    let n = sections.len() as int;
    let t = all_names(sections, tables).bytes;
    let x = 1 + n + filled(tables, n);
    &&& l.file.len() >= 64
    &&& l.heads.len() == x + 4
    &&& l.heads[0] == null_head()
    &&& has(t, 0, seq![0u8])
    &&& forall|i: int|
        0 <= i < n ==> {
            let h = l.heads[1 + i];
            let s = #[trigger] sections[i];
            &&& named(t, h, s.name@)
            &&& h.kind == (if s.zerofill > 0 {
                SHT_NOBITS
            } else {
                SHT_PROGBITS
            })
            &&& h.flags == (if code(s) {
                6u64
            } else {
                3u64
            })
            &&& h.align == 1u64 << s.align
            &&& s.zerofill > 0 ==> h.size == s.zerofill
            &&& s.zerofill == 0 ==> covers(l.file, h, s.data@)
        }
    &&& forall|i: int|
        0 <= i < n && (#[trigger] tables[i]).len() > 0 ==> {
            let h = l.heads[1 + n + filled(tables, i)];
            &&& named(t, h, ".rela"@ + sections[i].name@)
            &&& h.kind == SHT_RELA
            &&& h.flags == 0x40
            &&& h.entsize == 24
            &&& h.info == ((i + 1) as u16) as u32
            &&& covers(l.file, h, tables[i])
        }
    &&& named(t, l.heads[x], ".note.GNU-stack"@)
    &&& l.heads[x].kind == SHT_PROGBITS
    &&& l.heads[x].flags == 0
    &&& named(t, l.heads[x + 1], ".symtab"@)
    &&& l.heads[x + 1].kind == SHT_SYMTAB
    &&& l.heads[x + 1].flags == 0
    &&& l.heads[x + 1].entsize == 24
    &&& l.heads[x + 1].link == x + 2
    &&& covers(l.file, l.heads[x + 1], syms.bytes)
    &&& named(t, l.heads[x + 2], ".strtab"@)
    &&& l.heads[x + 2].kind == SHT_STRTAB
    &&& l.heads[x + 2].flags == 0
    &&& covers(l.file, l.heads[x + 2], syms.names.bytes)
    &&& named(t, l.heads[x + 3], ".shstrtab"@)
    &&& l.heads[x + 3].kind == SHT_STRTAB
    &&& l.heads[x + 3].flags == 0
    &&& covers(l.file, l.heads[x + 3], t)
}

proof fn lemma_lay_table(
    l: Lay,
    name: u32,
    kind: u32,
    data: Seq<u8>,
    link: u32,
    info: u32,
    align: u64,
    entsize: u64,
)
    requires
        l.table(name, kind, data, link, info, align, entsize).file.len() <= u64::MAX,
        l.file.len() >= 64,
    ensures
        sub_layout(l, l.table(name, kind, data, link, info, align, entsize)),
        l.table(name, kind, data, link, info, align, entsize).heads.len() == l.heads.len() + 1,
        covers(
            l.table(name, kind, data, link, info, align, entsize).file,
            l.table(name, kind, data, link, info, align, entsize).heads[l.heads.len() as int],
            data,
        ),
{
    lemma_placed(l.file, align as nat, data);
    lemma_sub_self(l);
}

proof fn lemma_names(sections: Seq<Section>, tables: Seq<Seq<u8>>)
    requires
        tables.len() == sections.len(),
        all_names(sections, tables).bytes.len() <= u32::MAX,
    ensures
        ({
            let n = sections.len() as int;
            let s = section_names(sections, n);
            let r = rela_names(s.table, sections, tables, n);
            let n1 = r.table.put(".note.GNU-stack"@);
            let n2 = n1.0.put(".symtab"@);
            let n3 = n2.0.put(".strtab"@);
            let n4 = n3.0.put(".shstrtab"@);
            let t = n4.0.bytes;
            &&& s.at.len() == n
            &&& r.at.len() == n
            &&& has(t, 0, seq![0u8])
            &&& forall|i: int|
                0 <= i < n ==> has(t, s.at[i] as int, entry((#[trigger] sections[i]).name@))
            &&& forall|i: int|
                0 <= i < n && (#[trigger] tables[i]).len() > 0 ==> has(
                    t,
                    r.at[i] as int,
                    entry(".rela"@ + sections[i].name@),
                )
            &&& has(t, n1.1 as int, entry(".note.GNU-stack"@))
            &&& has(t, n2.1 as int, entry(".symtab"@))
            &&& has(t, n3.1 as int, entry(".strtab"@))
            &&& has(t, n4.1 as int, entry(".shstrtab"@))
        }),
{
    let n = sections.len() as int;
    let s = section_names(sections, n);
    let r = rela_names(s.table, sections, tables, n);
    let n1 = r.table.put(".note.GNU-stack"@);
    let n2 = n1.0.put(".symtab"@);
    let n3 = n2.0.put(".strtab"@);
    let n4 = n3.0.put(".shstrtab"@);
    let t = n4.0.bytes;
    lemma_put_grows(r.table, ".note.GNU-stack"@);
    lemma_put_grows(n1.0, ".symtab"@);
    lemma_put_grows(n2.0, ".strtab"@);
    lemma_put_grows(n3.0, ".shstrtab"@);
    lemma_grows_on(n2.0.bytes, n3.0.bytes, t);
    lemma_grows_on(n1.0.bytes, n2.0.bytes, t);
    lemma_grows_on(r.table.bytes, n1.0.bytes, t);
    lemma_rela_table_grows(s.table, sections, tables, n);
    lemma_grows_on(s.table.bytes, r.table.bytes, t);
    lemma_section_names(sections, n);
    lemma_rela_names(s.table, sections, tables, n);
    lemma_put(r.table, ".note.GNU-stack"@);
    lemma_put(n1.0, ".symtab"@);
    lemma_put(n2.0, ".strtab"@);
    lemma_put(n3.0, ".shstrtab"@);
    lemma_kept(n1.0.bytes, t, n1.1 as int, entry(".note.GNU-stack"@));
    lemma_kept(n2.0.bytes, t, n2.1 as int, entry(".symtab"@));
    lemma_kept(n3.0.bytes, t, n3.1 as int, entry(".strtab"@));
    assert forall|i: int| 0 <= i < n implies has(
        t,
        s.at[i] as int,
        entry((#[trigger] sections[i]).name@),
    ) by {
        lemma_kept(s.table.bytes, t, s.at[i] as int, entry(sections[i].name@));
    }
    assert forall|i: int| 0 <= i < n && (#[trigger] tables[i]).len() > 0 implies has(
        t,
        r.at[i] as int,
        entry(".rela"@ + sections[i].name@),
    ) by {
        lemma_kept(r.table.bytes, t, r.at[i] as int, entry(".rela"@ + sections[i].name@));
    }
}

proof fn lemma_rela_table_grows(start: Strt, sections: Seq<Section>, tables: Seq<Seq<u8>>, n: int)
    ensures
        grows(start.bytes, rela_names(start, sections, tables, n).table.bytes),
    decreases n,
{
    if n <= 0 {
        lemma_grows(start.bytes, Seq::empty());
        assert(start.bytes + Seq::empty() =~= start.bytes);
    } else {
        let before = rela_names(start, sections, tables, n - 1);
        lemma_rela_table_grows(start, sections, tables, n - 1);
        if tables[n - 1].len() > 0 {
            lemma_put_grows(before.table, ".rela"@ + sections[n - 1].name@);
            lemma_grows_on(
                start.bytes,
                before.table.bytes,
                rela_names(start, sections, tables, n).table.bytes,
            );
        }
    }
}

proof fn lemma_arranged(sections: Seq<Section>, tables: Seq<Seq<u8>>, syms: Syms, locals: nat)
    requires
        tables.len() == sections.len(),
        all_names(sections, tables).bytes.len() <= u32::MAX,
        laid_out(sections, tables, syms, locals).file.len() <= u64::MAX,
        laid_out(sections, tables, syms, locals).heads.len() <= u16::MAX,
    ensures
        arranged(laid_out(sections, tables, syms, locals), sections, tables, syms),
{
    let n = sections.len() as int;
    let f = filled(tables, n);
    lemma_names(sections, tables);
    let s = section_names(sections, n);
    let r = rela_names(s.table, sections, tables, n);
    let n1 = r.table.put(".note.GNU-stack"@);
    let n2 = n1.0.put(".symtab"@);
    let n3 = n2.0.put(".strtab"@);
    let n4 = n3.0.put(".shstrtab"@);
    let t = n4.0.bytes;
    let index = symtab_index(sections.len(), f);
    let l0 = Lay::new();
    let l1 = l0.sections(sections, s.at, n);
    let l2 = l1.relas(tables, r.at, index, n);
    let l3 = l2.note(n1.1);
    let l4 = l3.table(
        n2.1,
        SHT_SYMTAB,
        syms.bytes,
        (index + 1) as u32,
        (locals + 1) as u32,
        8,
        24,
    );
    let l5 = l4.table(n3.1, SHT_STRTAB, syms.names.bytes, 0, 0, 1, 0);
    let l6 = l5.table(n4.1, SHT_STRTAB, t, 0, 0, 1, 0);
    assert(l6 == laid_out(sections, tables, syms, locals));
    lemma_lens();
    lemma_lay_sections(l0, sections, s.at, n);
    lemma_lay_relas(l1, tables, r.at, index, n);
    lemma_sub_self(l2);
    assert(sub_layout(l2, l3));
    lemma_placed(l3.file, 8, syms.bytes);
    lemma_placed(l4.file, 1, syms.names.bytes);
    lemma_placed(l5.file, 1, t);
    lemma_lay_table(
        l3,
        n2.1,
        SHT_SYMTAB,
        syms.bytes,
        (index + 1) as u32,
        (locals + 1) as u32,
        8,
        24,
    );
    lemma_lay_table(l4, n3.1, SHT_STRTAB, syms.names.bytes, 0, 0, 1, 0);
    lemma_lay_table(l5, n4.1, SHT_STRTAB, t, 0, 0, 1, 0);
    lemma_sub_on(l4, l5, l6);
    lemma_sub_on(l3, l4, l6);
    lemma_sub_on(l2, l3, l6);
    lemma_sub_on(l1, l2, l6);
    lemma_sub_on(l0, l1, l6);
    let x = 1 + n + f;
    assert(l6.heads[0] == l0.heads[0]);
    assert forall|i: int| 0 <= i < n implies {
        let h = l6.heads[1 + i];
        let y = #[trigger] sections[i];
        &&& named(t, h, y.name@)
        &&& h.kind == (if y.zerofill > 0 {
            SHT_NOBITS
        } else {
            SHT_PROGBITS
        })
        &&& h.flags == (if code(y) {
            6u64
        } else {
            3u64
        })
        &&& h.align == 1u64 << y.align
        &&& y.zerofill > 0 ==> h.size == y.zerofill
        &&& y.zerofill == 0 ==> covers(l6.file, h, y.data@)
    } by {
        assert(l6.heads[1 + i] == l1.heads[1 + i]);
        assert(l1.heads[l0.heads.len() + i] == section_head(
            sections[i],
            s.at[i],
            l0.sections(sections, s.at, i).file,
        ));
        if sections[i].zerofill == 0 {
            lemma_kept(l1.file, l6.file, l1.heads[1 + i].offset as int, sections[i].data@);
        }
    }
    assert forall|i: int| 0 <= i < n && (#[trigger] tables[i]).len() > 0 implies {
        let h = l6.heads[1 + n + filled(tables, i)];
        &&& named(t, h, ".rela"@ + sections[i].name@)
        &&& h.kind == SHT_RELA
        &&& h.flags == 0x40
        &&& h.entsize == 24
        &&& h.info == ((i + 1) as u16) as u32
        &&& covers(l6.file, h, tables[i])
    } by {
        lemma_filled_grows(tables, i, n);
        let k = 1 + n + filled(tables, i);
        assert(l6.heads[k] == l2.heads[k]);
        assert(k == l1.heads.len() as int + filled(tables, i));
        lemma_kept(l2.file, l6.file, l2.heads[k].offset as int, tables[i]);
    }
    assert(l6.heads[x] == l3.heads[x]);
    assert(l6.heads[x + 1] == l4.heads[x + 1]);
    assert(l6.heads[x + 2] == l5.heads[x + 2]);
    lemma_kept(l4.file, l6.file, l4.heads[x + 1].offset as int, syms.bytes);
    lemma_kept(l5.file, l6.file, l5.heads[x + 2].offset as int, syms.names.bytes);
}

// ---------------------------------------------------------------------------
// What is read
// ---------------------------------------------------------------------------

/// The last of the first `n` sections that is called `.text`, or none.
pub open spec fn text_of(sections: Seq<Section>, n: int) -> Option<int>
    decreases n,
{
    if n <= 0 {
        None
    } else if cut(sections[n - 1].name@) == ".text"@ {
        Some(n - 1)
    } else {
        text_of(sections, n - 1)
    }
}

/// Whether a section that is not the code is kept: it has bytes, or stands for some.
pub open spec fn keeps(s: Section) -> bool {
    let name = cut(s.name@);
    name != ".text"@ && !begins(name, ".eh_frame"@) && (s.zerofill > 0 || s.data.len() > 0)
}

/// What the reader makes of the sections that are not the code, among the first `n`.
pub open spec fn seen_sections(sections: Seq<Section>, n: int) -> Seq<Ov>
    decreases n,
{
    if n <= 0 {
        Seq::empty()
    } else {
        let s = sections[n - 1];
        let before = seen_sections(sections, n - 1);
        if keeps(s) {
            before.push(
                Ov {
                    name: cut(s.name@),
                    index: n as u16,
                    align: 1u64 << s.align,
                    data: s.data@,
                    executable: code(s),
                },
            )
        } else {
            before
        }
    }
}

/// What the reader makes of the sections.
pub open spec fn seen_parts(sections: Seq<Section>, n: int) -> Parts {
    Parts {
        text: match text_of(sections, n) {
            None => Seq::empty(),
            Some(i) => sections[i].data@,
        },
        index: match text_of(sections, n) {
            None => 0,
            Some(i) => (i + 1) as u16,
        },
        others: seen_sections(sections, n),
    }
}

/// What the reader makes of an object that was written.
pub open spec fn seen(
    target: Tgt,
    sections: Seq<Section>,
    symbols: Seq<Symbol>,
    relocs: Seq<Reloc>,
) -> ObjV {
    let n = sections.len() as int;
    let t = text_of(sections, n)->0;
    ObjV {
        machine: machine_of(target),
        text: sections[t].data@,
        text_relocs: seen_relocs(target, sections, symbols, relocs, t, 0),
        syms: seen_symbols(symbols),
        other_sections: seen_sections(sections, n),
    }
}

proof fn lemma_flags()
    ensures
        0u64 & SHF_ALLOC == 0,
        0x40u64 & SHF_ALLOC == 0,
        6u64 & SHF_ALLOC != 0,
        3u64 & SHF_ALLOC != 0,
        6u64 & SHF_EXECINSTR != 0,
        3u64 & SHF_EXECINSTR == 0,
{
    assert(0u64 & 0x2 == 0 && 0x40u64 & 0x2 == 0 && 6u64 & 0x2 != 0 && 3u64 & 0x2 != 0 && 6u64 & 0x4
        != 0 && 3u64 & 0x4 == 0) by (bit_vector);
}

/// A text whose second character is another than that of `.text` is not cut to that name.
proof fn lemma_not_text(name: Seq<char>)
    requires
        name.len() < 2 || name[1] != 't',
    ensures
        cut(name) != ".text"@,
{
    reveal_strlit(".text");
    a_text_is_cut_at_its_null(name);
    if cut(name) == ".text"@ {
        assert(name.subrange(0, 5)[1] == name[1]);
        assert(".text"@[1] == 't');
    }
}

proof fn lemma_own_names(name: Seq<char>)
    ensures
        cut(".rela"@ + name) != ".text"@,
        cut(""@) != ".text"@,
        cut(".note.GNU-stack"@) != ".text"@,
        cut(".symtab"@) != ".text"@,
        cut(".strtab"@) != ".text"@,
        cut(".shstrtab"@) != ".text"@,
{
    reveal_strlit(".rela");
    reveal_strlit("");
    reveal_strlit(".note.GNU-stack");
    reveal_strlit(".symtab");
    reveal_strlit(".strtab");
    reveal_strlit(".shstrtab");
    assert((".rela"@ + name)[1] == 'r');
    lemma_not_text(".rela"@ + name);
    lemma_not_text(""@);
    lemma_not_text(".note.GNU-stack"@);
    lemma_not_text(".symtab"@);
    lemma_not_text(".strtab"@);
    lemma_not_text(".shstrtab"@);
}

/// A name that stands in a table is read back, as far as its first null character.
proof fn lemma_cut_name(b: Seq<u8>, at: nat, name: Seq<char>)
    requires
        has(b, at as int, entry(name)),
    ensures
        crate::fields::name_at("ELF"@, b, at) == Ok::<Seq<char>, Seq<char>>(cut(name)),
{
    a_text_is_cut_at_its_null(name);
    lemma_cut_stands(b, at as int, name);
    lemma_name("ELF"@, b, at, cut(name));
}

/// A section that is not loaded is passed over.
proof fn lemma_passed(p: Parts, b: Seq<u8>, t: Seq<u8>, h: Shdr, i: int, name: Seq<char>)
    requires
        named(t, h, name),
        cut(name) != ".text"@,
        h.flags & SHF_ALLOC == 0,
    ensures
        p.section(b, t, h, i) == Ok::<Parts, Seq<char>>(p),
{
    lemma_cut_name(t, h.name as nat, name);
}

proof fn lemma_span(b: Seq<u8>, h: Shdr, data: Seq<u8>)
    requires
        has(b, h.offset as int, data),
        h.size == data.len(),
    ensures
        span("ELF"@, b, h.offset as nat, h.size as nat) == Ok::<Seq<u8>, Seq<char>>(data),
{
}

/// Whether bytes are the file of a layout.
pub open spec fn carries(b: Seq<u8>, l: Lay) -> bool {
    forall|o: int, p: Seq<u8>| #![trigger has(b, o, p)] o >= 64 && has(l.file, o, p) ==> has(b, o, p)
}

/// Whether sections can be read back: a section that is read as the code has bytes.
pub open spec fn readable(sections: Seq<Section>) -> bool {
    forall|i: int|
        0 <= i < sections.len() ==> (cut((#[trigger] sections[i]).name@) == ".text"@
            ==> sections[i].zerofill == 0) && (sections[i].zerofill > 0 ==> sections[i].data.len()
            == 0)
}

proof fn lemma_parts(
    b: Seq<u8>,
    l: Lay,
    sections: Seq<Section>,
    tables: Seq<Seq<u8>>,
    syms: Syms,
    k: int,
)
    requires
        tables.len() == sections.len(),
        arranged(l, sections, tables, syms),
        carries(b, l),
        readable(sections),
        0 <= k <= sections.len(),
        sections.len() < u16::MAX,
    ensures
        parts_of(b, all_names(sections, tables).bytes, l.heads, 1 + k) == Ok::<Parts, Seq<char>>(
            seen_parts(sections, k),
        ),
    decreases k,
{
    let t = all_names(sections, tables).bytes;
    lemma_flags();
    if k == 0 {
        lemma_own_names(Seq::empty());
        assert(utf8(""@) =~= Seq::<u8>::empty()) by {
            reveal_strlit("");
        }
        assert(entry(""@) =~= seq![0u8]);
        let none = Parts { text: Seq::empty(), index: 0, others: Seq::empty() };
        lemma_passed(none, b, t, l.heads[0], 0, ""@);
        assert(parts_of(b, t, l.heads, 0) == Ok::<Parts, Seq<char>>(none));
        assert(seen_parts(sections, 0) == none);
    } else {
        lemma_parts(b, l, sections, tables, syms, k - 1);
        let s = sections[k - 1];
        let h = l.heads[k];
        assert(h == l.heads[1 + (k - 1)]);
        lemma_cut_name(t, h.name as nat, s.name@);
        if s.zerofill == 0 {
            assert(has(b, h.offset as int, s.data@));
            lemma_span(b, h, s.data@);
        } else {
            assert(s.data@ =~= Seq::empty());
        }
    }
}

proof fn lemma_rela_parts(
    b: Seq<u8>,
    l: Lay,
    sections: Seq<Section>,
    tables: Seq<Seq<u8>>,
    syms: Syms,
    k: int,
)
    requires
        tables.len() == sections.len(),
        arranged(l, sections, tables, syms),
        carries(b, l),
        readable(sections),
        0 <= k <= sections.len(),
        sections.len() < u16::MAX,
    ensures
        parts_of(
            b,
            all_names(sections, tables).bytes,
            l.heads,
            1 + sections.len() as int + filled(tables, k),
        ) == Ok::<Parts, Seq<char>>(seen_parts(sections, sections.len() as int)),
    decreases k,
{
    let n = sections.len() as int;
    lemma_flags();
    if k == 0 {
        lemma_parts(b, l, sections, tables, syms, n);
    } else {
        lemma_rela_parts(b, l, sections, tables, syms, k - 1);
        if tables[k - 1].len() > 0 {
            let h = l.heads[1 + n + filled(tables, k - 1)];
            lemma_own_names(sections[k - 1].name@);
            lemma_passed(
                seen_parts(sections, n),
                b,
                all_names(sections, tables).bytes,
                h,
                1 + n + filled(tables, k - 1),
                ".rela"@ + sections[k - 1].name@,
            );
        }
    }
}

proof fn lemma_all_parts(
    b: Seq<u8>,
    l: Lay,
    sections: Seq<Section>,
    tables: Seq<Seq<u8>>,
    syms: Syms,
)
    requires
        tables.len() == sections.len(),
        arranged(l, sections, tables, syms),
        carries(b, l),
        readable(sections),
        sections.len() < u16::MAX,
    ensures
        parts_of(b, all_names(sections, tables).bytes, l.heads, l.heads.len() as int) == Ok::<
            Parts,
            Seq<char>,
        >(seen_parts(sections, sections.len() as int)),
{
    let n = sections.len() as int;
    let t = all_names(sections, tables).bytes;
    let x = 1 + n + filled(tables, n);
    let p = seen_parts(sections, n);
    lemma_flags();
    lemma_own_names(Seq::empty());
    lemma_rela_parts(b, l, sections, tables, syms, n);
    lemma_passed(p, b, t, l.heads[x], x, ".note.GNU-stack"@);
    assert(parts_of(b, t, l.heads, x + 1) == Ok::<Parts, Seq<char>>(p));
    lemma_passed(p, b, t, l.heads[x + 1], x + 1, ".symtab"@);
    assert(parts_of(b, t, l.heads, x + 2) == Ok::<Parts, Seq<char>>(p));
    lemma_passed(p, b, t, l.heads[x + 2], x + 2, ".strtab"@);
    assert(parts_of(b, t, l.heads, x + 3) == Ok::<Parts, Seq<char>>(p));
    lemma_passed(p, b, t, l.heads[x + 3], x + 3, ".shstrtab"@);
}

/// What header `k` is, by where it stands.
proof fn lemma_which(l: Lay, sections: Seq<Section>, tables: Seq<Seq<u8>>, syms: Syms, k: int, m: int)
    requires
        tables.len() == sections.len(),
        arranged(l, sections, tables, syms),
        0 <= m <= sections.len(),
        1 + sections.len() <= k < 1 + sections.len() + filled(tables, m),
    ensures
        exists|i: int|
            0 <= i < m && (#[trigger] tables[i]).len() > 0 && k == 1 + sections.len() + filled(
                tables,
                i,
            ),
    decreases m,
{
    if m > 0 {
        if k < 1 + sections.len() + filled(tables, m - 1) {
            lemma_which(l, sections, tables, syms, k, m - 1);
        } else {
            assert(tables[m - 1].len() > 0);
        }
    }
}

proof fn lemma_no_symbols(b: Seq<u8>, heads: Seq<Shdr>, n: int)
    requires
        forall|k: int| 0 <= k < n ==> (#[trigger] heads[k]).kind != SHT_SYMTAB,
    ensures
        all_syms(b, heads, n) == Ok::<Seq<Sv>, Seq<char>>(Seq::empty()),
    decreases n,
{
    if n > 0 {
        lemma_no_symbols(b, heads, n - 1);
        assert(heads[n - 1].kind != SHT_SYMTAB);
    }
}

proof fn lemma_kinds(l: Lay, sections: Seq<Section>, tables: Seq<Seq<u8>>, syms: Syms, k: int)
    requires
        tables.len() == sections.len(),
        arranged(l, sections, tables, syms),
        0 <= k < 1 + sections.len() + filled(tables, sections.len() as int),
    ensures
        l.heads[k].kind != SHT_SYMTAB,
        k < 1 + sections.len() ==> l.heads[k].kind != SHT_RELA,
{
    let n = sections.len() as int;
    if k == 0 {
    } else if k < 1 + n {
        assert(l.heads[k] == l.heads[1 + (k - 1)]);
        let s = sections[k - 1];
        assert(l.heads[1 + (k - 1)].kind == (if s.zerofill > 0 {
            SHT_NOBITS
        } else {
            SHT_PROGBITS
        }));
    } else {
        lemma_which(l, sections, tables, syms, k, n);
        let i = choose|i: int|
            0 <= i < n && (#[trigger] tables[i]).len() > 0 && k == 1 + sections.len() + filled(
                tables,
                i,
            );
        assert(tables[i].len() > 0);
    }
}

/// A header that is not of a symbol table adds no symbols.
proof fn lemma_skip_header(b: Seq<u8>, heads: Seq<Shdr>, k: int, exp: Seq<Sv>)
    requires
        0 <= k,
        heads[k].kind != SHT_SYMTAB,
        all_syms(b, heads, k) == Ok::<Seq<Sv>, Seq<char>>(exp),
    ensures
        all_syms(b, heads, k + 1) == Ok::<Seq<Sv>, Seq<char>>(exp),
{
}

/// The symbols up to the header of the symbol table.
#[verifier::spinoff_prover]
#[verifier::rlimit(60)]
proof fn lemma_symbols_so_far(
    b: Seq<u8>,
    l: Lay,
    sections: Seq<Section>,
    tables: Seq<Seq<u8>>,
    syms: Syms,
    exp: Seq<Sv>,
)
    requires
        tables.len() == sections.len(),
        arranged(l, sections, tables, syms),
        carries(b, l),
        table_of(syms, exp),
    ensures
        all_syms(b, l.heads, 1 + sections.len() as int + filled(tables, sections.len() as int) + 2)
            == Ok::<Seq<Sv>, Seq<char>>(exp),
{
    let n = sections.len() as int;
    let x = 1 + n + filled(tables, n);
    assert forall|k: int| 0 <= k < x + 1 implies (#[trigger] l.heads[k]).kind != SHT_SYMTAB by {
        if k < x {
            lemma_kinds(l, sections, tables, syms, k);
        }
    }
    lemma_no_symbols(b, l.heads, x + 1);
    let h = l.heads[x + 1];
    let g = l.heads[x + 2];
    assert(has(b, h.offset as int, syms.bytes));
    assert(has(b, g.offset as int, syms.names.bytes));
    lemma_span(b, g, syms.names.bytes);
    assert(names_of_table(b, l.heads, h.link) == Ok::<Seq<u8>, Seq<char>>(syms.names.bytes));
    assert(h.size / 24 == exp.len());
    lemma_symbols_read(b, h.offset as nat, syms, exp, exp.len() as int);
    assert(exp.subrange(0, exp.len() as int) =~= exp);
    assert(all_syms(b, l.heads, x + 2) == Ok::<Seq<Sv>, Seq<char>>(exp));
}

#[verifier::spinoff_prover]
#[verifier::rlimit(60)]
proof fn lemma_all_symbols(
    b: Seq<u8>,
    l: Lay,
    sections: Seq<Section>,
    tables: Seq<Seq<u8>>,
    syms: Syms,
    exp: Seq<Sv>,
)
    requires
        tables.len() == sections.len(),
        arranged(l, sections, tables, syms),
        carries(b, l),
        table_of(syms, exp),
    ensures
        all_syms(b, l.heads, l.heads.len() as int) == Ok::<Seq<Sv>, Seq<char>>(exp),
{
    let n = sections.len() as int;
    let x = 1 + n + filled(tables, n);
    lemma_symbols_so_far(b, l, sections, tables, syms, exp);
    lemma_skip_header(b, l.heads, x + 2, exp);
    lemma_skip_header(b, l.heads, x + 3, exp);
    assert(l.heads.len() == x + 4);
}

proof fn lemma_no_rels(b: Seq<u8>, heads: Seq<Shdr>, text: u16, n: int)
    requires
        forall|k: int| 0 <= k < n ==> (#[trigger] heads[k]).kind != SHT_RELA,
    ensures
        all_rels(b, heads, text, n) == Ok::<Seq<crate::elfobj::Reloc>, Seq<char>>(Seq::empty()),
    decreases n,
{
    if n > 0 {
        lemma_no_rels(b, heads, text, n - 1);
        assert(heads[n - 1].kind != SHT_RELA);
    }
}

proof fn lemma_rela_rels(
    b: Seq<u8>,
    l: Lay,
    sections: Seq<Section>,
    tables: Seq<Seq<u8>>,
    syms: Syms,
    t: int,
    exp: Seq<crate::elfobj::Reloc>,
    k: int,
)
    requires
        tables.len() == sections.len(),
        arranged(l, sections, tables, syms),
        carries(b, l),
        sections.len() < u16::MAX,
        0 <= t < sections.len(),
        0 <= k <= sections.len(),
        rela_table_of(tables[t], exp),
    ensures
        all_rels(b, l.heads, (t + 1) as u16, 1 + sections.len() as int + filled(tables, k)) == Ok::<
            Seq<crate::elfobj::Reloc>,
            Seq<char>,
        >(if k > t {
            exp
        } else {
            Seq::empty()
        }),
    decreases k,
{
    let n = sections.len() as int;
    let text = (t + 1) as u16;
    if k == 0 {
        assert forall|j: int| 0 <= j < 1 + n implies (#[trigger] l.heads[j]).kind != SHT_RELA by {
            lemma_kinds(l, sections, tables, syms, j);
        }
        lemma_no_rels(b, l.heads, text, 1 + n);
    } else {
        lemma_rela_rels(b, l, sections, tables, syms, t, exp, k - 1);
        let i = k - 1;
        if tables[i].len() > 0 {
            let h = l.heads[1 + n + filled(tables, i)];
            assert(h.kind == SHT_RELA);
            if i == t {
                assert(has(b, h.offset as int, tables[t]));
                lemma_rels_read(b, h.offset as nat, tables[t], exp, exp.len() as int);
                assert(exp.subrange(0, exp.len() as int) =~= exp);
                assert(h.size / 24 == exp.len());
            }
        } else if i == t {
            assert(exp =~= Seq::empty());
        }
    }
}

proof fn lemma_all_rels(
    b: Seq<u8>,
    l: Lay,
    sections: Seq<Section>,
    tables: Seq<Seq<u8>>,
    syms: Syms,
    t: int,
    exp: Seq<crate::elfobj::Reloc>,
)
    requires
        tables.len() == sections.len(),
        arranged(l, sections, tables, syms),
        carries(b, l),
        sections.len() < u16::MAX,
        0 <= t < sections.len(),
        rela_table_of(tables[t], exp),
    ensures
        all_rels(b, l.heads, (t + 1) as u16, l.heads.len() as int) == Ok::<
            Seq<crate::elfobj::Reloc>,
            Seq<char>,
        >(exp),
{
    let n = sections.len() as int;
    let x = 1 + n + filled(tables, n);
    let text = (t + 1) as u16;
    lemma_rela_rels(b, l, sections, tables, syms, t, exp, n);
    assert(all_rels(b, l.heads, text, x + 1) == all_rels(b, l.heads, text, x));
    assert(all_rels(b, l.heads, text, x + 2) == all_rels(b, l.heads, text, x + 1));
    assert(all_rels(b, l.heads, text, x + 3) == all_rels(b, l.heads, text, x + 2));
    assert(all_rels(b, l.heads, text, x + 4) == all_rels(b, l.heads, text, x + 3));
}

proof fn lemma_text_of(sections: Seq<Section>, n: int)
    requires
        0 <= n <= sections.len(),
    ensures
        text_of(sections, n) matches Some(i) ==> 0 <= i < n && cut(
            sections[i].name@,
        ) == ".text"@,
    decreases n,
{
    if n > 0 {
        lemma_text_of(sections, n - 1);
    }
}

proof fn lemma_tables(
    target: Tgt,
    sections: Seq<Section>,
    symbols: Seq<Symbol>,
    relocs: Seq<Reloc>,
    n: int,
)
    requires
        0 <= n <= sections.len(),
        rela_tables(target, sections, symbols, relocs, n) is Ok,
    ensures
        rela_tables(target, sections, symbols, relocs, n)->Ok_0.len() == n,
        forall|i: int|
            0 <= i < n ==> rela_table(
                target,
                sections,
                symbols,
                relocs,
                i,
                0,
                Seq::empty(),
            ) == Ok::<Seq<u8>, Seq<char>>(
                #[trigger] rela_tables(target, sections, symbols, relocs, n)->Ok_0[i],
            ),
    decreases n,
{
    if n > 0 {
        lemma_tables(target, sections, symbols, relocs, n - 1);
    }
}

proof fn lemma_placed_relocs(sections: Seq<Section>, symbols: nat, relocs: Seq<Reloc>, i: int)
    requires
        0 <= i <= relocs.len(),
        crate::elf::relocs_refusal(sections, symbols, relocs, i) is None,
    ensures
        forall|k: int| i <= k < relocs.len() ==> (#[trigger] relocs[k]).symbol < symbols,
    decreases relocs.len() - i,
{
    if i < relocs.len() {
        lemma_placed_relocs(sections, symbols, relocs, i + 1);
    }
}

proof fn lemma_section_facts(sections: Seq<Section>, i: int)
    requires
        0 <= i <= sections.len(),
        crate::elf::sections_refusal(sections, i) is None,
    ensures
        forall|k: int|
            i <= k < sections.len() ==> (#[trigger] sections[k]).zerofill > 0
                ==> sections[k].data.len() == 0,
    decreases sections.len() - i,
{
    if i < sections.len() {
        lemma_section_facts(sections, i + 1);
    }
}

/// The layout of an object, before its headers are behind it.
pub open spec fn layout_of(
    target: Tgt,
    sections: Seq<Section>,
    symbols: Seq<Symbol>,
    relocs: Seq<Reloc>,
) -> Lay {
    laid_out(
        sections,
        rela_tables(target, sections, symbols, relocs, sections.len() as int)->Ok_0,
        symbols_of(sections, symbols),
        rank(symbols, false, symbols.len() as int),
    )
}

/// The symbol table of an object.
pub open spec fn symbols_of(sections: Seq<Section>, symbols: Seq<Symbol>) -> Syms {
    Syms::new().pass(sections, symbols, false, 0).0.pass(sections, symbols, true, 0).0
}

/// What is written is what the reader reads: the machine, the code of the last section called
/// `.text`, its relocations in their order, the null symbol and behind it the local and then the
/// global symbols, and every other section that has bytes. A name is read as far as its first null
/// character.
///
/// This is so where the object can be written, some section is called `.text` and no such section is
/// of zeros, and the object is no larger than its fields can say.
pub proof fn what_is_written_is_what_the_reader_reads(
    target: Tgt,
    sections: Seq<Section>,
    symbols: Seq<Symbol>,
    relocs: Seq<Reloc>,
)
    requires
        object_of(target, sections, symbols, relocs) is Ok,
        text_of(sections, sections.len() as int) is Some,
        forall|i: int|
            0 <= i < sections.len() ==> (cut((#[trigger] sections[i]).name@) == ".text"@
                ==> sections[i].zerofill == 0),
        symbols.len() < u32::MAX,
        layout_of(target, sections, symbols, relocs).heads.len() <= u16::MAX,
        body_of(layout_of(target, sections, symbols, relocs)).len() <= u64::MAX,
        all_names(
            sections,
            rela_tables(target, sections, symbols, relocs, sections.len() as int)->Ok_0,
        ).bytes.len() <= u32::MAX,
        symbols_of(sections, symbols).names.bytes.len() <= u32::MAX,
    ensures
        read_of(object_of(target, sections, symbols, relocs)->Ok_0) == Ok::<ObjV, Seq<char>>(
            seen(target, sections, symbols, relocs),
        ),
{
    let n = sections.len() as int;
    let t = text_of(sections, n)->0;
    let tables = rela_tables(target, sections, symbols, relocs, n)->Ok_0;
    let syms = symbols_of(sections, symbols);
    let l = layout_of(target, sections, symbols, relocs);
    let b = object_of(target, sections, symbols, relocs)->Ok_0;
    let exp = seen_relocs(target, sections, symbols, relocs, t, 0);
    lemma_object(target, sections, symbols, relocs);
    lemma_text_of(sections, n);
    lemma_head_count(sections, tables, syms, rank(symbols, false, symbols.len() as int));
    assert(l.file.len() <= body_of(l).len());
    lemma_arranged(sections, tables, syms, rank(symbols, false, symbols.len() as int));
    assert(l.file.len() >= 64);
    lemma_file(machine_of(target), l);
    assert(carries(b, l));
    assert(readable(sections));
    lemma_symbol_table(sections, symbols);
    lemma_text_rels(target, sections, symbols, relocs, t);
    lemma_reads(b, machine_of(target), l, sections, tables, syms, seen_symbols(symbols), exp);
}

proof fn lemma_object(
    target: Tgt,
    sections: Seq<Section>,
    symbols: Seq<Symbol>,
    relocs: Seq<Reloc>,
)
    requires
        object_of(target, sections, symbols, relocs) is Ok,
    ensures
        rela_tables(target, sections, symbols, relocs, sections.len() as int) is Ok,
        rela_tables(target, sections, symbols, relocs, sections.len() as int)->Ok_0.len()
            == sections.len(),
        object_of(target, sections, symbols, relocs)->Ok_0 == file_of(
            machine_of(target),
            layout_of(target, sections, symbols, relocs),
        ),
        Syms::new().pass(sections, symbols, false, 0).1 is None,
        Syms::new().pass(sections, symbols, false, 0).0.pass(sections, symbols, true, 0).1 is None,
        forall|k: int|
            0 <= k < sections.len() ==> (#[trigger] sections[k]).zerofill > 0
                ==> sections[k].data.len() == 0,
        forall|k: int| 0 <= k < relocs.len() ==> (#[trigger] relocs[k]).symbol < symbols.len(),
{
    lemma_section_facts(sections, 0);
    lemma_placed_relocs(sections, symbols.len(), relocs, 0);
    lemma_tables(target, sections, symbols, relocs, sections.len() as int);
}

proof fn lemma_symbol_table(sections: Seq<Section>, symbols: Seq<Symbol>)
    requires
        Syms::new().pass(sections, symbols, false, 0).1 is None,
        Syms::new().pass(sections, symbols, false, 0).0.pass(sections, symbols, true, 0).1 is None,
        symbols_of(sections, symbols).names.bytes.len() <= u32::MAX,
        sections.len() < u16::MAX,
    ensures
        table_of(symbols_of(sections, symbols), seen_symbols(symbols)),
{
    let locals = Syms::new().pass(sections, symbols, false, 0);
    lemma_new_symbols();
    lemma_pass_grows(locals.0, sections, symbols, true, 0);
    lemma_pass(Syms::new(), seq![null_symbol()], sections, symbols, false, 0);
    lemma_pass(
        locals.0,
        seq![null_symbol()] + seen_binding(symbols, false, 0),
        sections,
        symbols,
        true,
        0,
    );
}

proof fn lemma_text_rels(
    target: Tgt,
    sections: Seq<Section>,
    symbols: Seq<Symbol>,
    relocs: Seq<Reloc>,
    t: int,
)
    requires
        0 <= t < sections.len(),
        rela_tables(target, sections, symbols, relocs, sections.len() as int) is Ok,
        forall|k: int| 0 <= k < relocs.len() ==> (#[trigger] relocs[k]).symbol < symbols.len(),
        symbols.len() < u32::MAX,
    ensures
        rela_table_of(
            rela_tables(target, sections, symbols, relocs, sections.len() as int)->Ok_0[t],
            seen_relocs(target, sections, symbols, relocs, t, 0),
        ),
{
    let none = Seq::<crate::elfobj::Reloc>::empty();
    let exp = seen_relocs(target, sections, symbols, relocs, t, 0);
    lemma_tables(target, sections, symbols, relocs, sections.len() as int);
    let tables = rela_tables(target, sections, symbols, relocs, sections.len() as int)->Ok_0;
    assert(rela_table(target, sections, symbols, relocs, t, 0, Seq::empty()) == Ok::<
        Seq<u8>,
        Seq<char>,
    >(tables[t]));
    assert(rela_table_of(Seq::empty(), none));
    lemma_rela(target, sections, symbols, relocs, t, 0, Seq::empty(), none);
    assert(none + exp =~= exp);
}

proof fn lemma_reads(
    b: Seq<u8>,
    machine: u16,
    l: Lay,
    sections: Seq<Section>,
    tables: Seq<Seq<u8>>,
    syms: Syms,
    seen_syms: Seq<Sv>,
    rels: Seq<crate::elfobj::Reloc>,
)
    requires
        tables.len() == sections.len(),
        arranged(l, sections, tables, syms),
        carries(b, l),
        readable(sections),
        sections.len() < u16::MAX,
        l.heads.len() <= u16::MAX,
        table_of(syms, seen_syms),
        text_of(sections, sections.len() as int) is Some,
        rela_table_of(tables[text_of(sections, sections.len() as int)->0], rels),
        machine == crate::elfobj::EM_AARCH64 || machine == crate::elfobj::EM_X86_64,
        elf64(b),
        of16(b, 18) == machine,
        of64(b, 40) == body_of(l).len(),
        of16(b, 58) == 64,
        of16(b, 60) == l.heads.len(),
        of16(b, 62) == l.heads.len() - 1,
        heads_of(b, body_of(l).len(), l.heads.len() as int) == Ok::<Seq<Shdr>, Seq<char>>(l.heads),
    ensures
        read_of(b) == Ok::<ObjV, Seq<char>>(
            ObjV {
                machine,
                text: sections[text_of(sections, sections.len() as int)->0].data@,
                text_relocs: rels,
                syms: seen_syms,
                other_sections: seen_sections(sections, sections.len() as int),
            },
        ),
{
    let n = sections.len() as int;
    let t = text_of(sections, n)->0;
    lemma_text_of(sections, n);
    let h = l.heads[l.heads.len() - 1];
    let names = all_names(sections, tables).bytes;
    assert(has(b, h.offset as int, names));
    lemma_span(b, h, names);
    lemma_all_parts(b, l, sections, tables, syms);
    lemma_all_symbols(b, l, sections, tables, syms, seen_syms);
    lemma_all_rels(b, l, sections, tables, syms, t, rels);
    assert(read_sections(b, machine, l.heads, l.heads.len() - 1) is Ok);
}

proof fn lemma_head_count(sections: Seq<Section>, tables: Seq<Seq<u8>>, syms: Syms, locals: nat)
    requires
        tables.len() == sections.len(),
    ensures
        laid_out(sections, tables, syms, locals).heads.len() == sections.len() + filled(
            tables,
            sections.len() as int,
        ) + 5,
{
    let n = sections.len() as int;
    let s = section_names(sections, n);
    let r = rela_names(s.table, sections, tables, n);
    let index = symtab_index(sections.len(), filled(tables, n));
    let l1 = Lay::new().sections(sections, s.at, n);
    lemma_lay_sections(Lay::new(), sections, s.at, n);
    lemma_lay_relas(l1, tables, r.at, index, n);
}

proof fn lemma_seen_relocs(
    target: Tgt,
    sections: Seq<Section>,
    symbols: Seq<Symbol>,
    relocs: Seq<Reloc>,
    i: int,
    j: int,
)
    requires
        0 <= j <= relocs.len(),
    ensures
        seen_relocs(target, sections, symbols, relocs, i, j) == relocs.skip(j).filter(
            |r: Reloc| r.section == i,
        ).map_values(|r: Reloc| seen_reloc(target, sections, symbols, r)),
    decreases relocs.len() - j,
{
    let f = |r: Reloc| r.section == i;
    let g = |r: Reloc| seen_reloc(target, sections, symbols, r);
    let rest = relocs.skip(j);
    if j >= relocs.len() {
        assert(rest =~= Seq::empty());
        reveal(Seq::filter);
        assert(rest.filter(f).map_values(g) =~= Seq::empty());
    } else {
        lemma_seen_relocs(target, sections, symbols, relocs, i, j + 1);
        let tail = relocs.skip(j + 1);
        let head = seq![relocs[j]];
        assert(rest =~= head + tail);
        Seq::filter_distributes_over_add(head, tail, f);
        assert(head.filter(f) =~= if f(relocs[j]) {
            head
        } else {
            Seq::empty()
        }) by {
            reveal(Seq::filter);
            assert(head.drop_last() =~= Seq::empty());
            assert(head.drop_last().filter(f) =~= Seq::empty());
        }
        assert(rest.filter(f).map_values(g) =~= head.filter(f).map_values(g) + tail.filter(
            f,
        ).map_values(g));
        if f(relocs[j]) {
            assert(head.map_values(g) =~= seq![g(relocs[j])]);
        } else {
            assert(head.filter(f).map_values(g) =~= Seq::empty());
        }
        assert(seen_relocs(target, sections, symbols, relocs, i, j) =~= rest.filter(f).map_values(
            g,
        ));
    }
}

/// The relocations of a section that the reader finds are those that were given for it, in their
/// order: each at the offset and with the addend that it was given, against the symbol that it was
/// given, by name and by where that is defined.
pub proof fn a_relocation_is_read_against_its_symbol(
    target: Tgt,
    sections: Seq<Section>,
    symbols: Seq<Symbol>,
    relocs: Seq<Reloc>,
    i: int,
    k: int,
)
    requires
        symbols.len() < u32::MAX,
        forall|j: int| 0 <= j < relocs.len() ==> (#[trigger] relocs[j]).symbol < symbols.len(),
        0 <= k < relocs.filter(|r: Reloc| r.section == i).len(),
    ensures
        ({
            let given = relocs.filter(|r: Reloc| r.section == i);
            let found = seen_relocs(target, sections, symbols, relocs, i, 0);
            let r = given[k];
            let f = found[k];
            &&& found.len() == given.len()
            &&& r.offset <= u32::MAX ==> f.addr == r.offset
            &&& f.addend == r.addend
            &&& f.symbolnum < seen_symbols(symbols).len()
            &&& seen_symbols(symbols)[f.symbolnum as int] == seen_symbol(symbols[r.symbol as int])
            &&& no_null(symbols[r.symbol as int].name@)
                ==> seen_symbols(symbols)[f.symbolnum as int].name == symbols[r.symbol as int].name@
        }),
{
    let f = |r: Reloc| r.section == i;
    lemma_seen_relocs(target, sections, symbols, relocs, i, 0);
    assert(relocs.skip(0) =~= relocs);
    let given = relocs.filter(f);
    let r = given[k];
    assert(relocs.contains(r)) by {
        assert(given.contains(r));
        relocs.lemma_filter_contains_rev(f, r);
    }
    let j = choose|j: int| 0 <= j < relocs.len() && relocs[j] == r;
    a_slot_is_in_the_table(symbols, relocs[j].symbol as int);
    a_text_is_cut_at_its_null(symbols[r.symbol as int].name@);
}

} // verus!
