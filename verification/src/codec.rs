//! A library as bytes.
//!
//! Everything is little-endian and length-prefixed, and the code of every stencil stands in one run
//! at the end. The notes that a hole was built from do not travel.

use crate::bytes::{append, get32, le32, of32, part, put32, put_text, utf8};
use crate::fields::{extents, insert_extent, inserted, sooner, Ev, Extent};
use crate::library::{ConstRef, Hole, HoleKind, Index, Library, Stencil};
use crate::text::{join2, own, position, texts};
use vstd::prelude::*;
use vstd::utf8::{decode_utf8, encode_utf8_decode_utf8, encode_utf8_valid_utf8, valid_utf8};

verus! {

/// What bytes that are no UTF-8 are told apart by.
pub uninterp spec fn utf8_error(b: Seq<u8>) -> Seq<char>;

/// `String::from_utf8`: the text that the bytes encode, exactly where they are valid UTF-8; else the
/// text of its error, which is a function of the bytes alone.
#[verifier::external_body]
fn utf8_text(b: Vec<u8>) -> (r: Result<String, String>)
    ensures
        match r {
            Ok(s) => valid_utf8(b@) && s@ == decode_utf8(b@),
            Err(e) => !valid_utf8(b@) && e@ == utf8_error(b@),
        },
{
    String::from_utf8(b).map_err(|e| e.to_string())
}

/// A hole as it travels.
pub struct Hv {
    pub name: Seq<char>,
    pub kind: HoleKind,
    pub pairs: Seq<(u32, u32)>,
    pub branches: Seq<u32>,
    pub conds: Seq<u32>,
    pub lo12: Seq<(u32, u32)>,
}

/// A stencil as it travels.
pub struct Stv {
    pub name: Seq<char>,
    pub code: Seq<u8>,
    pub holes: Seq<Hv>,
    pub consts: Seq<u8>,
    pub align: u32,
    pub refs: Seq<ConstRef>,
    pub tail: Option<usize>,
}

/// A library as it travels.
pub struct Lv {
    pub config: Seq<char>,
    pub keys: Seq<Seq<char>>,
    pub stencils: Seq<Stv>,
}

/// A hole as it travels.
pub open spec fn hole_value(h: Hole) -> Hv {
    Hv {
        name: h.name@,
        kind: h.kind,
        pairs: h.pairs@,
        branches: h.branches@,
        conds: h.conds@,
        lo12: h.lo12@,
    }
}

/// Holes as they travel.
pub open spec fn hole_values(v: Seq<Hole>) -> Seq<Hv> {
    v.map_values(|h: Hole| hole_value(h))
}

/// A stencil as it travels.
pub open spec fn stencil_value(s: Stencil) -> Stv {
    Stv {
        name: s.name@,
        code: s.code@,
        holes: hole_values(s.holes@),
        consts: s.consts@,
        align: s.consts_align,
        refs: s.const_refs@,
        tail: s.tail,
    }
}

/// Stencils as they travel.
pub open spec fn stencil_values(v: Seq<Stencil>) -> Seq<Stv> {
    v.map_values(|s: Stencil| stencil_value(s))
}

/// The first eight bytes.
pub open spec fn magic() -> Seq<u8> {
    seq![0x53u8, 0x54u8, 0x45u8, 0x4eu8, 0x43u8, 0x49u8, 0x4cu8, 0x32u8]
}

/// The bytes of a text.
pub open spec fn enc_text(s: Seq<char>) -> Seq<u8> {
    le32(utf8(s).len() as u32) + utf8(s)
}

/// The bytes of pairs, from pair `i` on.
pub open spec fn enc_pairs_from(v: Seq<(u32, u32)>, i: int) -> Seq<u8>
    decreases v.len() - i,
{
    if i >= v.len() {
        Seq::empty()
    } else {
        le32(v[i].0) + le32(v[i].1) + enc_pairs_from(v, i + 1)
    }
}

/// The bytes of pairs.
pub open spec fn enc_pairs(v: Seq<(u32, u32)>) -> Seq<u8> {
    le32(v.len() as u32) + enc_pairs_from(v, 0)
}

/// The bytes of numbers, from number `i` on.
pub open spec fn enc_words_from(v: Seq<u32>, i: int) -> Seq<u8>
    decreases v.len() - i,
{
    if i >= v.len() {
        Seq::empty()
    } else {
        le32(v[i]) + enc_words_from(v, i + 1)
    }
}

/// The bytes of numbers.
pub open spec fn enc_words(v: Seq<u32>) -> Seq<u8> {
    le32(v.len() as u32) + enc_words_from(v, 0)
}

/// The number of a kind.
pub open spec fn kind_number(k: HoleKind) -> u32 {
    match k {
        HoleKind::Imm32 => 0,
        HoleKind::Imm64 => 1,
        HoleKind::Branch => 2,
    }
}

/// The kind of a number.
pub open spec fn kind_of(n: u32) -> HoleKind {
    if n == 0 {
        HoleKind::Imm32
    } else if n == 1 {
        HoleKind::Imm64
    } else {
        HoleKind::Branch
    }
}

/// The bytes of a hole.
pub open spec fn enc_hole(h: Hv) -> Seq<u8> {
    enc_text(h.name) + le32(kind_number(h.kind)) + enc_pairs(h.pairs) + enc_words(h.branches)
        + enc_words(h.conds) + enc_pairs(h.lo12)
}

/// The bytes of holes, from hole `i` on.
pub open spec fn enc_holes_from(v: Seq<Hv>, i: int) -> Seq<u8>
    decreases v.len() - i,
{
    if i >= v.len() {
        Seq::empty()
    } else {
        enc_hole(v[i]) + enc_holes_from(v, i + 1)
    }
}

/// The bytes of references, from reference `i` on.
pub open spec fn enc_refs_from(v: Seq<ConstRef>, i: int) -> Seq<u8>
    decreases v.len() - i,
{
    if i >= v.len() {
        Seq::empty()
    } else {
        le32(v[i].field) + le32(v[i].insn_end) + le32(v[i].at) + enc_refs_from(v, i + 1)
    }
}

/// The number of a tail.
pub open spec fn tail_number(t: Option<usize>) -> u32 {
    match t {
        Some(i) => i as u32,
        None => u32::MAX,
    }
}

/// The bytes of a stencil, without its code.
pub open spec fn enc_stencil(s: Stv) -> Seq<u8> {
    enc_text(s.name) + le32(s.code.len() as u32) + le32(tail_number(s.tail)) + le32(
        s.holes.len() as u32,
    ) + enc_holes_from(s.holes, 0) + le32(s.consts.len() as u32) + s.consts + le32(s.align) + le32(
        s.refs.len() as u32,
    ) + enc_refs_from(s.refs, 0)
}

/// The bytes of stencils, from stencil `i` on, without their code.
pub open spec fn enc_stencils_from(v: Seq<Stv>, i: int) -> Seq<u8>
    decreases v.len() - i,
{
    if i >= v.len() {
        Seq::empty()
    } else {
        enc_stencil(v[i]) + enc_stencils_from(v, i + 1)
    }
}

/// The code of stencils, from stencil `i` on.
pub open spec fn codes_from(v: Seq<Stv>, i: int) -> Seq<u8>
    decreases v.len() - i,
{
    if i >= v.len() {
        Seq::empty()
    } else {
        v[i].code + codes_from(v, i + 1)
    }
}

/// The bytes of keys, from key `i` on.
pub open spec fn enc_keys_from(v: Seq<Seq<char>>, i: int) -> Seq<u8>
    decreases v.len() - i,
{
    if i >= v.len() {
        Seq::empty()
    } else {
        enc_text(v[i]) + enc_keys_from(v, i + 1)
    }
}

/// The bytes of a library.
pub open spec fn enc_library(l: Lv) -> Seq<u8> {
    magic() + enc_text(l.config) + le32(l.stencils.len() as u32) + enc_keys_from(l.keys, 0)
        + enc_stencils_from(l.stencils, 0) + codes_from(l.stencils, 0)
}

/// The keys of an index in the order of their slots.
pub open spec fn ordered(keys: Seq<Seq<char>>, slots: Seq<u32>, n: int) -> Seq<Ev>
    decreases n,
{
    if n <= 0 {
        Seq::empty()
    } else {
        inserted(
            ordered(keys, slots, n - 1),
            Ev { name: keys[n - 1], start: slots[n - 1] as u64, end: 0 },
        )
    }
}

/// The names of extents.
pub open spec fn ev_names(v: Seq<Ev>) -> Seq<Seq<char>> {
    Seq::new(v.len(), |i: int| v[i].name)
}

/// A library as it travels.
pub open spec fn library_value(l: Library) -> Lv {
    Lv {
        config: l.config@,
        keys: ev_names(ordered(texts(l.index.keys@), l.index.slots@, l.index.keys.len() as int)),
        stencils: stencil_values(l.stencils@),
    }
}

// ---------------------------------------------------------------------------
// Reading
// ---------------------------------------------------------------------------

/// What was read, and what is left; or why nothing was.
pub type Read<T> = Result<(T, Seq<u8>), Seq<char>>;

/// The first `n` bytes.
#[verifier::opaque]
pub open spec fn dec_take(b: Seq<u8>, n: nat) -> Read<Seq<u8>> {
    if n <= b.len() {
        Ok((b.subrange(0, n as int), b.subrange(n as int, b.len() as int)))
    } else {
        Err("stencil library: truncated"@)
    }
}

/// A number.
#[verifier::opaque]
pub open spec fn dec_word(b: Seq<u8>) -> Read<u32> {
    match dec_take(b, 4) {
        Err(e) => Err(e),
        Ok(p) => Ok((of32(b, 0), p.1)),
    }
}

/// Counted bytes.
#[verifier::opaque]
pub open spec fn dec_bytes(b: Seq<u8>) -> Read<Seq<u8>> {
    match dec_word(b) {
        Err(e) => Err(e),
        Ok(p) => dec_take(p.1, p.0 as nat),
    }
}

/// A text.
#[verifier::opaque]
pub open spec fn dec_text(b: Seq<u8>) -> Read<Seq<char>> {
    match dec_bytes(b) {
        Err(e) => Err(e),
        Ok(p) => if valid_utf8(p.0) {
            Ok((decode_utf8(p.0), p.1))
        } else {
            Err("stencil library: "@ + utf8_error(p.0))
        },
    }
}

/// `n` pairs, behind those in `acc`.
pub open spec fn dec_pairs_n(b: Seq<u8>, n: nat, acc: Seq<(u32, u32)>) -> Read<Seq<(u32, u32)>>
    decreases n,
{
    if n == 0 {
        Ok((acc, b))
    } else {
        match dec_word(b) {
            Err(e) => Err(e),
            Ok(p) => match dec_word(p.1) {
                Err(e) => Err(e),
                Ok(q) => dec_pairs_n(q.1, (n - 1) as nat, acc.push((p.0, q.0))),
            },
        }
    }
}

/// Counted pairs.
#[verifier::opaque]
pub open spec fn dec_pairs(b: Seq<u8>) -> Read<Seq<(u32, u32)>> {
    match dec_word(b) {
        Err(e) => Err(e),
        Ok(p) => dec_pairs_n(p.1, p.0 as nat, Seq::empty()),
    }
}

/// `n` numbers, behind those in `acc`.
pub open spec fn dec_words_n(b: Seq<u8>, n: nat, acc: Seq<u32>) -> Read<Seq<u32>>
    decreases n,
{
    if n == 0 {
        Ok((acc, b))
    } else {
        match dec_word(b) {
            Err(e) => Err(e),
            Ok(p) => dec_words_n(p.1, (n - 1) as nat, acc.push(p.0)),
        }
    }
}

/// Counted numbers.
#[verifier::opaque]
pub open spec fn dec_words(b: Seq<u8>) -> Read<Seq<u32>> {
    match dec_word(b) {
        Err(e) => Err(e),
        Ok(p) => dec_words_n(p.1, p.0 as nat, Seq::empty()),
    }
}

/// A hole.
#[verifier::opaque]
pub open spec fn dec_hole(b: Seq<u8>) -> Read<Hv> {
    match dec_text(b) {
        Err(e) => Err(e),
        Ok(name) => match dec_word(name.1) {
            Err(e) => Err(e),
            Ok(kind) => match dec_pairs(kind.1) {
                Err(e) => Err(e),
                Ok(pairs) => match dec_words(pairs.1) {
                    Err(e) => Err(e),
                    Ok(branches) => match dec_words(branches.1) {
                        Err(e) => Err(e),
                        Ok(conds) => match dec_pairs(conds.1) {
                            Err(e) => Err(e),
                            Ok(lo12) => Ok(
                                (
                                    Hv {
                                        name: name.0,
                                        kind: kind_of(kind.0),
                                        pairs: pairs.0,
                                        branches: branches.0,
                                        conds: conds.0,
                                        lo12: lo12.0,
                                    },
                                    lo12.1,
                                ),
                            ),
                        },
                    },
                },
            },
        },
    }
}

/// `n` holes, behind those in `acc`.
pub open spec fn dec_holes_n(b: Seq<u8>, n: nat, acc: Seq<Hv>) -> Read<Seq<Hv>>
    decreases n,
{
    if n == 0 {
        Ok((acc, b))
    } else {
        match dec_hole(b) {
            Err(e) => Err(e),
            Ok(p) => dec_holes_n(p.1, (n - 1) as nat, acc.push(p.0)),
        }
    }
}

/// A reference.
pub open spec fn dec_ref(b: Seq<u8>) -> Read<ConstRef> {
    match dec_word(b) {
        Err(e) => Err(e),
        Ok(p) => match dec_word(p.1) {
            Err(e) => Err(e),
            Ok(q) => match dec_word(q.1) {
                Err(e) => Err(e),
                Ok(r) => Ok((ConstRef { field: p.0, insn_end: q.0, at: r.0 }, r.1)),
            },
        },
    }
}

/// `n` references, behind those in `acc`.
pub open spec fn dec_refs_n(b: Seq<u8>, n: nat, acc: Seq<ConstRef>) -> Read<Seq<ConstRef>>
    decreases n,
{
    if n == 0 {
        Ok((acc, b))
    } else {
        match dec_ref(b) {
            Err(e) => Err(e),
            Ok(p) => dec_refs_n(p.1, (n - 1) as nat, acc.push(p.0)),
        }
    }
}

/// The tail of a number.
pub open spec fn tail_of(n: u32) -> Option<usize> {
    if n == u32::MAX {
        None
    } else {
        Some(n as usize)
    }
}

/// A stencil without its code, and how long that is.
#[verifier::opaque]
pub open spec fn dec_stencil(b: Seq<u8>) -> Read<(Stv, u32)> {
    match dec_text(b) {
        Err(e) => Err(e),
        Ok(name) => match dec_word(name.1) {
            Err(e) => Err(e),
            Ok(len) => match dec_word(len.1) {
                Err(e) => Err(e),
                Ok(tail) => match dec_word(tail.1) {
                    Err(e) => Err(e),
                    Ok(count) => match dec_holes_n(count.1, count.0 as nat, Seq::empty()) {
                        Err(e) => Err(e),
                        Ok(holes) => dec_spill(name.0, len.0, tail.0, holes.0, holes.1),
                    },
                },
            },
        },
    }
}

/// The rest of a stencil, behind its holes.
pub open spec fn dec_spill(
    name: Seq<char>,
    len: u32,
    tail: u32,
    holes: Seq<Hv>,
    b: Seq<u8>,
) -> Read<(Stv, u32)> {
    match dec_bytes(b) {
        Err(e) => Err(e),
        Ok(consts) => match dec_word(consts.1) {
            Err(e) => Err(e),
            Ok(align) => match dec_word(align.1) {
                Err(e) => Err(e),
                Ok(count) => match dec_refs_n(count.1, count.0 as nat, Seq::empty()) {
                    Err(e) => Err(e),
                    Ok(refs) => Ok(
                        (
                            (
                                Stv {
                                    name,
                                    code: Seq::empty(),
                                    holes,
                                    consts: consts.0,
                                    align: align.0,
                                    refs: refs.0,
                                    tail: tail_of(tail),
                                },
                                len,
                            ),
                            refs.1,
                        ),
                    ),
                },
            },
        },
    }
}

/// `n` stencils without their code, behind those in `acc`.
pub open spec fn dec_stencils_n(b: Seq<u8>, n: nat, acc: Seq<(Stv, u32)>) -> Read<Seq<(Stv, u32)>>
    decreases n,
{
    if n == 0 {
        Ok((acc, b))
    } else {
        match dec_stencil(b) {
            Err(e) => Err(e),
            Ok(p) => dec_stencils_n(p.1, (n - 1) as nat, acc.push(p.0)),
        }
    }
}

/// `n` keys, behind those in `acc`.
pub open spec fn dec_keys_n(b: Seq<u8>, n: nat, acc: Seq<Seq<char>>) -> Read<Seq<Seq<char>>>
    decreases n,
{
    if n == 0 {
        Ok((acc, b))
    } else {
        match dec_text(b) {
            Err(e) => Err(e),
            Ok(p) => dec_keys_n(p.1, (n - 1) as nat, acc.push(p.0)),
        }
    }
}

/// The stencils with their code, from stencil `i` on, behind those in `acc`.
pub open spec fn dec_codes(b: Seq<u8>, v: Seq<(Stv, u32)>, i: int, acc: Seq<Stv>) -> Read<Seq<Stv>>
    decreases v.len() - i,
{
    if i >= v.len() {
        Ok((acc, b))
    } else {
        match dec_take(b, v[i].1 as nat) {
            Err(e) => Err(e),
            Ok(p) => dec_codes(p.1, v, i + 1, acc.push(Stv { code: p.0, ..v[i].0 })),
        }
    }
}

/// A library.
pub open spec fn dec_library(b: Seq<u8>) -> Result<Lv, Seq<char>> {
    match dec_take(b, 8) {
        Err(e) => Err(e),
        Ok(m) => if m.0 != magic() {
            Err("the embedded stencil library is not one this toolchain wrote"@)
        } else {
            match dec_text(m.1) {
                Err(e) => Err(e),
                Ok(config) => match dec_word(config.1) {
                    Err(e) => Err(e),
                    Ok(n) => match dec_keys_n(n.1, n.0 as nat, Seq::empty()) {
                        Err(e) => Err(e),
                        Ok(keys) => match dec_whole(keys.1, n.0 as nat) {
                            Err(e) => Err(e),
                            Ok(stencils) => Ok(Lv { config: config.0, keys: keys.0, stencils }),
                        },
                    },
                },
            }
        },
    }
}

/// The stencils of a library, behind its keys.
#[verifier::opaque]
pub open spec fn dec_whole(b: Seq<u8>, n: nat) -> Result<Seq<Stv>, Seq<char>> {
    match dec_stencils_n(b, n, Seq::empty()) {
        Err(e) => Err(e),
        Ok(v) => match dec_codes(v.1, v.0, 0, Seq::empty()) {
            Err(e) => Err(e),
            Ok(s) => Ok(s.0),
        },
    }
}

/// The slot of a key where key `i` has slot `i`, and a key that stands twice the later one, among
/// the first `n`.
pub open spec fn last_slot(keys: Seq<Seq<char>>, key: Seq<char>, n: int) -> Option<u32>
    decreases n,
{
    if n <= 0 {
        None
    } else if keys[n - 1] == key {
        Some((n - 1) as u32)
    } else {
        last_slot(keys, key, n - 1)
    }
}

struct Cursor<'a> {
    bytes: &'a [u8],
    at: usize,
}

impl<'a> Cursor<'a> {
    spec fn wf(self) -> bool {
        self.at <= self.bytes@.len()
    }

    spec fn rest(self) -> Seq<u8> {
        self.bytes@.subrange(self.at as int, self.bytes@.len() as int)
    }

    fn take(&mut self, n: usize) -> (r: Result<Vec<u8>, String>)
        requires
            old(self).wf(),
        ensures
            final(self).wf(),
            match r {
                Ok(v) => dec_take(old(self).rest(), n as nat) == Ok::<(Seq<u8>, Seq<u8>), Seq<char>>(
                    (v@, final(self).rest()),
                ),
                Err(e) => dec_take(old(self).rest(), n as nat) == Err::<
                    (Seq<u8>, Seq<u8>),
                    Seq<char>,
                >(e@),
            },
    {
        reveal(dec_take);
        if n > self.bytes.len() - self.at {
            return Err(own("stencil library: truncated"));
        }
        let v: Vec<u8> = part(self.bytes, self.at, self.at + n);
        let ghost before = self.rest();
        self.at = self.at + n;
        assert(v@ =~= before.subrange(0, n as int));
        assert(self.rest() =~= before.subrange(n as int, before.len() as int));
        Ok(v)
    }

    fn word(&mut self) -> (r: Result<u32, String>)
        requires
            old(self).wf(),
        ensures
            final(self).wf(),
            match r {
                Ok(w) => dec_word(old(self).rest()) == Ok::<(u32, Seq<u8>), Seq<char>>(
                    (w, final(self).rest()),
                ),
                Err(e) => dec_word(old(self).rest()) == Err::<(u32, Seq<u8>), Seq<char>>(e@),
            },
    {
        reveal(dec_word);
        reveal(dec_take);
        if 4 > self.bytes.len() - self.at {
            return Err(own("stencil library: truncated"));
        }
        let w: u32 = get32(self.bytes, self.at);
        let ghost before = self.rest();
        self.at = self.at + 4;
        assert(w == of32(before, 0));
        assert(self.rest() =~= before.subrange(4, before.len() as int));
        Ok(w)
    }

    fn counted(&mut self) -> (r: Result<Vec<u8>, String>)
        requires
            old(self).wf(),
        ensures
            final(self).wf(),
            match r {
                Ok(v) => dec_bytes(old(self).rest()) == Ok::<(Seq<u8>, Seq<u8>), Seq<char>>(
                    (v@, final(self).rest()),
                ),
                Err(e) => dec_bytes(old(self).rest()) == Err::<(Seq<u8>, Seq<u8>), Seq<char>>(e@),
            },
    {
        reveal(dec_bytes);
        match self.word() {
            Err(e) => Err(e),
            Ok(n) => self.take(n as usize),
        }
    }

    fn text(&mut self) -> (r: Result<String, String>)
        requires
            old(self).wf(),
        ensures
            final(self).wf(),
            match r {
                Ok(s) => dec_text(old(self).rest()) == Ok::<(Seq<char>, Seq<u8>), Seq<char>>(
                    (s@, final(self).rest()),
                ),
                Err(e) => dec_text(old(self).rest()) == Err::<(Seq<char>, Seq<u8>), Seq<char>>(e@),
            },
    {
        reveal(dec_text);
        match self.counted() {
            Err(e) => Err(e),
            Ok(b) => match utf8_text(b) {
                Ok(s) => Ok(s),
                Err(e) => Err(join2("stencil library: ", e.as_str())),
            },
        }
    }

    fn pairs(&mut self) -> (r: Result<Vec<(u32, u32)>, String>)
        requires
            old(self).wf(),
        ensures
            final(self).wf(),
            match r {
                Ok(v) => dec_pairs(old(self).rest()) == Ok::<(Seq<(u32, u32)>, Seq<u8>), Seq<char>>(
                    (v@, final(self).rest()),
                ),
                Err(e) => dec_pairs(old(self).rest()) == Err::<
                    (Seq<(u32, u32)>, Seq<u8>),
                    Seq<char>,
                >(e@),
            },
    {
        reveal(dec_pairs);
        let n: u32 = match self.word() {
            Err(e) => return Err(e),
            Ok(n) => n,
        };
        let ghost start = self.rest();
        let mut out: Vec<(u32, u32)> = Vec::new();
        let mut i: u32 = 0;
        assert(out@ =~= Seq::empty());
        while i < n
            invariant
                i <= n,
                self.wf(),
                dec_pairs_n(self.rest(), (n - i) as nat, out@) == dec_pairs_n(
                    start,
                    n as nat,
                    Seq::empty(),
                ),
                dec_pairs(old(self).rest()) == dec_pairs_n(start, n as nat, Seq::empty()),
            decreases n - i,
        {
            let a: u32 = match self.word() {
                Err(e) => return Err(e),
                Ok(w) => w,
            };
            let b: u32 = match self.word() {
                Err(e) => return Err(e),
                Ok(w) => w,
            };
            out.push((a, b));
            i = i + 1;
        }
        Ok(out)
    }

    fn words(&mut self) -> (r: Result<Vec<u32>, String>)
        requires
            old(self).wf(),
        ensures
            final(self).wf(),
            match r {
                Ok(v) => dec_words(old(self).rest()) == Ok::<(Seq<u32>, Seq<u8>), Seq<char>>(
                    (v@, final(self).rest()),
                ),
                Err(e) => dec_words(old(self).rest()) == Err::<(Seq<u32>, Seq<u8>), Seq<char>>(e@),
            },
    {
        reveal(dec_words);
        let n: u32 = match self.word() {
            Err(e) => return Err(e),
            Ok(n) => n,
        };
        let ghost start = self.rest();
        let mut out: Vec<u32> = Vec::new();
        let mut i: u32 = 0;
        assert(out@ =~= Seq::empty());
        while i < n
            invariant
                i <= n,
                self.wf(),
                dec_words_n(self.rest(), (n - i) as nat, out@) == dec_words_n(
                    start,
                    n as nat,
                    Seq::empty(),
                ),
                dec_words(old(self).rest()) == dec_words_n(start, n as nat, Seq::empty()),
            decreases n - i,
        {
            let a: u32 = match self.word() {
                Err(e) => return Err(e),
                Ok(w) => w,
            };
            out.push(a);
            i = i + 1;
        }
        Ok(out)
    }

    fn hole(&mut self) -> (r: Result<Hole, String>)
        requires
            old(self).wf(),
        ensures
            final(self).wf(),
            match r {
                Ok(h) => dec_hole(old(self).rest()) == Ok::<(Hv, Seq<u8>), Seq<char>>(
                    (hole_value(h), final(self).rest()),
                ) && h.sites@.len() == 0,
                Err(e) => dec_hole(old(self).rest()) == Err::<(Hv, Seq<u8>), Seq<char>>(e@),
            },
    {
        reveal(dec_hole);
        let name: String = match self.text() {
            Err(e) => return Err(e),
            Ok(v) => v,
        };
        let number: u32 = match self.word() {
            Err(e) => return Err(e),
            Ok(v) => v,
        };
        let pairs: Vec<(u32, u32)> = match self.pairs() {
            Err(e) => return Err(e),
            Ok(v) => v,
        };
        let branches: Vec<u32> = match self.words() {
            Err(e) => return Err(e),
            Ok(v) => v,
        };
        let conds: Vec<u32> = match self.words() {
            Err(e) => return Err(e),
            Ok(v) => v,
        };
        let lo12: Vec<(u32, u32)> = match self.pairs() {
            Err(e) => return Err(e),
            Ok(v) => v,
        };
        let kind: HoleKind = if number == 0 {
            HoleKind::Imm32
        } else if number == 1 {
            HoleKind::Imm64
        } else {
            HoleKind::Branch
        };
        Ok(Hole { name, kind, sites: Vec::new(), pairs, branches, conds, lo12 })
    }

    fn holes(&mut self, n: u32) -> (r: Result<Vec<Hole>, String>)
        requires
            old(self).wf(),
        ensures
            final(self).wf(),
            match r {
                Ok(v) => dec_holes_n(old(self).rest(), n as nat, Seq::empty()) == Ok::<
                    (Seq<Hv>, Seq<u8>),
                    Seq<char>,
                >((hole_values(v@), final(self).rest())) && no_notes(v@),
                Err(e) => dec_holes_n(old(self).rest(), n as nat, Seq::empty()) == Err::<
                    (Seq<Hv>, Seq<u8>),
                    Seq<char>,
                >(e@),
            },
    {
        let ghost start = self.rest();
        let mut out: Vec<Hole> = Vec::new();
        let mut i: u32 = 0;
        assert(hole_values(out@) =~= Seq::empty());
        while i < n
            invariant
                i <= n,
                self.wf(),
                no_notes(out@),
                start == old(self).rest(),
                dec_holes_n(self.rest(), (n - i) as nat, hole_values(out@)) == dec_holes_n(
                    start,
                    n as nat,
                    Seq::empty(),
                ),
            decreases n - i,
        {
            match self.hole() {
                Err(e) => return Err(e),
                Ok(h) => {
                    let ghost before = out@;
                    out.push(h);
                    assert(hole_values(out@) =~= hole_values(before).push(hole_value(h)));
                },
            }
            i = i + 1;
        }
        Ok(out)
    }

    fn refs(&mut self, n: u32) -> (r: Result<Vec<ConstRef>, String>)
        requires
            old(self).wf(),
        ensures
            final(self).wf(),
            match r {
                Ok(v) => dec_refs_n(old(self).rest(), n as nat, Seq::empty()) == Ok::<
                    (Seq<ConstRef>, Seq<u8>),
                    Seq<char>,
                >((v@, final(self).rest())),
                Err(e) => dec_refs_n(old(self).rest(), n as nat, Seq::empty()) == Err::<
                    (Seq<ConstRef>, Seq<u8>),
                    Seq<char>,
                >(e@),
            },
    {
        let ghost start = self.rest();
        let mut out: Vec<ConstRef> = Vec::new();
        let mut i: u32 = 0;
        assert(out@ =~= Seq::empty());
        while i < n
            invariant
                i <= n,
                self.wf(),
                start == old(self).rest(),
                dec_refs_n(self.rest(), (n - i) as nat, out@) == dec_refs_n(
                    start,
                    n as nat,
                    Seq::empty(),
                ),
            decreases n - i,
        {
            let field: u32 = match self.word() {
                Err(e) => return Err(e),
                Ok(w) => w,
            };
            let insn_end: u32 = match self.word() {
                Err(e) => return Err(e),
                Ok(w) => w,
            };
            let at: u32 = match self.word() {
                Err(e) => return Err(e),
                Ok(w) => w,
            };
            out.push(ConstRef { field, insn_end, at });
            i = i + 1;
        }
        Ok(out)
    }

    fn stencil(&mut self) -> (r: Result<(Stencil, u32), String>)
        requires
            old(self).wf(),
        ensures
            final(self).wf(),
            match r {
                Ok(p) => dec_stencil(old(self).rest()) == Ok::<((Stv, u32), Seq<u8>), Seq<char>>(
                    ((stencil_value(p.0), p.1), final(self).rest()),
                ) && no_notes(p.0.holes@),
                Err(e) => dec_stencil(old(self).rest()) == Err::<((Stv, u32), Seq<u8>), Seq<char>>(
                    e@,
                ),
            },
    {
        reveal(dec_stencil);
        let name: String = match self.text() {
            Err(e) => return Err(e),
            Ok(v) => v,
        };
        let len: u32 = match self.word() {
            Err(e) => return Err(e),
            Ok(v) => v,
        };
        let tail: u32 = match self.word() {
            Err(e) => return Err(e),
            Ok(v) => v,
        };
        let count: u32 = match self.word() {
            Err(e) => return Err(e),
            Ok(v) => v,
        };
        let holes: Vec<Hole> = match self.holes(count) {
            Err(e) => return Err(e),
            Ok(v) => v,
        };
        let consts: Vec<u8> = match self.counted() {
            Err(e) => return Err(e),
            Ok(v) => v,
        };
        let consts_align: u32 = match self.word() {
            Err(e) => return Err(e),
            Ok(v) => v,
        };
        let n: u32 = match self.word() {
            Err(e) => return Err(e),
            Ok(v) => v,
        };
        let const_refs: Vec<ConstRef> = match self.refs(n) {
            Err(e) => return Err(e),
            Ok(v) => v,
        };
        let tail_at: Option<usize> = if tail == u32::MAX {
            None
        } else {
            Some(tail as usize)
        };
        let s = Stencil {
            name,
            code: Vec::new(),
            holes,
            consts,
            consts_align,
            const_refs,
            tail: tail_at,
        };
        assert(s.code@ =~= Seq::empty());
        Ok((s, len))
    }

    fn keys(&mut self, n: u32) -> (r: Result<Index, String>)
        requires
            old(self).wf(),
        ensures
            final(self).wf(),
            match r {
                Ok(x) => {
                    &&& dec_keys_n(old(self).rest(), n as nat, Seq::empty()) is Ok
                    &&& dec_keys_n(old(self).rest(), n as nat, Seq::empty())->Ok_0.1
                        == final(self).rest()
                    &&& x.wf()
                    &&& forall|k: Seq<char>| #[trigger]
                        x.lookup(k) == last_slot(
                            dec_keys_n(old(self).rest(), n as nat, Seq::empty())->Ok_0.0,
                            k,
                            n as int,
                        )
                },
                Err(e) => dec_keys_n(old(self).rest(), n as nat, Seq::empty()) == Err::<
                    (Seq<Seq<char>>, Seq<u8>),
                    Seq<char>,
                >(e@),
            },
    {
        let ghost start = self.rest();
        let mut out: Index = Index::new();
        let ghost mut seen: Seq<Seq<char>> = Seq::empty();
        let mut i: u32 = 0;
        while i < n
            invariant
                i <= n,
                self.wf(),
                out.wf(),
                seen.len() == i,
                start == old(self).rest(),
                dec_keys_n(self.rest(), (n - i) as nat, seen) == dec_keys_n(
                    start,
                    n as nat,
                    Seq::empty(),
                ),
                forall|k: Seq<char>| #[trigger] out.lookup(k) == last_slot(seen, k, i as int),
            decreases n - i,
        {
            match self.text() {
                Err(e) => return Err(e),
                Ok(key) => {
                    let ghost name = key@;
                    let ghost before = seen;
                    proof {
                        seen = seen.push(name);
                    }
                    out.insert(key, i);
                    assert forall|k: Seq<char>| #[trigger] out.lookup(k) == last_slot(
                        seen,
                        k,
                        i + 1,
                    ) by {
                        lemma_last_slot(before, seen, k, i as int);
                    }
                },
            }
            i = i + 1;
        }
        Ok(out)
    }
}

/// A last slot depends only on the keys it looks at.
proof fn lemma_last_slot(a: Seq<Seq<char>>, b: Seq<Seq<char>>, k: Seq<char>, n: int)
    requires
        n <= a.len(),
        n <= b.len(),
        forall|i: int| 0 <= i < n ==> a[i] == b[i],
    ensures
        last_slot(a, k, n) == last_slot(b, k, n),
    decreases n,
{
    if n > 0 {
        lemma_last_slot(a, b, k, n - 1);
    }
}

/// Holes without the notes they were built from.
pub open spec fn no_notes(v: Seq<Hole>) -> bool {
    forall|i: int| 0 <= i < v.len() ==> (#[trigger] v[i]).sites@.len() == 0
}

/// Stencils with the lengths of their code.
pub open spec fn with_lengths(v: Seq<Stencil>, lens: Seq<u32>) -> Seq<(Stv, u32)> {
    Seq::new(v.len(), |i: int| (stencil_value(v[i]), lens[i]))
}

/// Whether a library is what bytes hold, or an error is what is wrong with them.
pub open spec fn decoded(r: Result<Library, String>, bytes: Seq<u8>) -> bool {
    match r {
        Ok(l) => {
            &&& dec_library(bytes) is Ok
            &&& l.config@ == dec_library(bytes)->Ok_0.config
            &&& stencil_values(l.stencils@) == dec_library(bytes)->Ok_0.stencils
            &&& l.index.wf()
            &&& forall|k: Seq<char>| #[trigger]
                l.index.lookup(k) == last_slot(
                    dec_library(bytes)->Ok_0.keys,
                    k,
                    dec_library(bytes)->Ok_0.keys.len() as int,
                )
            &&& forall|i: int|
                0 <= i < l.stencils.len() ==> no_notes((#[trigger] l.stencils[i]).holes@)
        },
        Err(e) => dec_library(bytes) == Err::<Lv, Seq<char>>(e@),
    }
}

impl Library {
    /// The library that bytes hold.
    pub fn decode(bytes: &[u8]) -> (r: Result<Library, String>)
        ensures
            decoded(r, bytes@),
    {
        reveal(dec_take);
        let mut c = Cursor { bytes, at: 0 };
        assert(c.rest() =~= bytes@);
        let m: Vec<u8> = match c.take(8) {
            Err(e) => return Err(e),
            Ok(v) => v,
        };
        if !(m[0] == 0x53 && m[1] == 0x54 && m[2] == 0x45 && m[3] == 0x4e && m[4] == 0x43 && m[5]
            == 0x49 && m[6] == 0x4c && m[7] == 0x32) {
            assert(m@ != magic());
            return Err(own("the embedded stencil library is not one this toolchain wrote"));
        }
        assert(m@ =~= magic());
        let config: String = match c.text() {
            Err(e) => return Err(e),
            Ok(v) => v,
        };
        let n: u32 = match c.word() {
            Err(e) => return Err(e),
            Ok(v) => v,
        };
        let ghost behind = c.rest();
        let index: Index = match c.keys(n) {
            Err(e) => return Err(e),
            Ok(v) => v,
        };
        let ghost keys = dec_keys_n(behind, n as nat, Seq::empty())->Ok_0.0;
        proof {
            lemma_keys_len(behind, n as nat, Seq::empty());
        }
        match c.whole(n) {
            Err(e) => Err(e),
            Ok(stencils) => Ok(Library { stencils, index, config }),
        }
    }
}

impl<'a> Cursor<'a> {
    fn whole(&mut self, n: u32) -> (r: Result<Vec<Stencil>, String>)
        requires
            old(self).wf(),
        ensures
            match r {
                Ok(v) => {
                    &&& dec_whole(old(self).rest(), n as nat) == Ok::<Seq<Stv>, Seq<char>>(
                        stencil_values(v@),
                    )
                    &&& forall|i: int| 0 <= i < v.len() ==> no_notes((#[trigger] v[i]).holes@)
                },
                Err(e) => dec_whole(old(self).rest(), n as nat) == Err::<Seq<Stv>, Seq<char>>(e@),
            },
    {
        reveal(dec_whole);
        let ghost start = self.rest();
        let mut heads: Vec<Stencil> = Vec::new();
        let mut lens: Vec<u32> = Vec::new();
        let mut i: u32 = 0;
        assert(with_lengths(heads@, lens@) =~= Seq::empty());
        while i < n
            invariant
                i <= n,
                self.wf(),
                heads.len() == i,
                lens.len() == i,
                start == old(self).rest(),
                dec_stencils_n(self.rest(), (n - i) as nat, with_lengths(heads@, lens@))
                    == dec_stencils_n(start, n as nat, Seq::empty()),
                forall|k: int| 0 <= k < heads.len() ==> no_notes((#[trigger] heads[k]).holes@),
            decreases n - i,
        {
            reveal(dec_whole);
            match self.stencil() {
                Err(e) => return Err(e),
                Ok(p) => {
                    let ghost before = with_lengths(heads@, lens@);
                    let (s, len): (Stencil, u32) = p;
                    heads.push(s);
                    lens.push(len);
                    assert(with_lengths(heads@, lens@) =~= before.push((stencil_value(s), len)));
                },
            }
            i = i + 1;
        }
        let ghost all = with_lengths(heads@, lens@);
        let ghost codes = self.rest();
        let ghost first = heads@;
        let ghost done = dec_codes(codes, all, 0, Seq::empty());
        let mut k: usize = 0;
        assert(stencil_values(heads@).subrange(0, 0) =~= Seq::empty());
        while k < heads.len()
            invariant
                k <= heads.len(),
                self.wf(),
                heads.len() == lens.len(),
                heads.len() == first.len(),
                all == with_lengths(first, lens@),
                forall|j: int| k <= j < heads.len() ==> #[trigger] heads[j] == first[j],
                dec_codes(self.rest(), all, k as int, stencil_values(heads@).subrange(0, k as int))
                    == done,
                dec_whole(old(self).rest(), n as nat) == (match done {
                    Err(e) => Err::<Seq<Stv>, Seq<char>>(e),
                    Ok(s) => Ok::<Seq<Stv>, Seq<char>>(s.0),
                }),
                forall|j: int| 0 <= j < heads.len() ==> no_notes((#[trigger] heads[j]).holes@),
            decreases heads.len() - k,
        {
            let code: Vec<u8> = match self.take(lens[k] as usize) {
                Err(e) => return Err(e),
                Ok(v) => v,
            };
            let ghost before = heads@;
            heads[k].code = code;
            k = k + 1;
            assert(stencil_values(heads@).subrange(0, k as int) =~= stencil_values(
                before,
            ).subrange(0, k - 1).push(Stv { code: code@, ..all[k - 1].0 }));
        }
        assert(stencil_values(heads@).subrange(0, k as int) =~= stencil_values(heads@));
        Ok(heads)
    }
}

/// As many keys are read as are asked for.
proof fn lemma_keys_len(b: Seq<u8>, n: nat, acc: Seq<Seq<char>>)
    ensures
        dec_keys_n(b, n, acc) is Ok ==> dec_keys_n(b, n, acc)->Ok_0.0.len() == acc.len() + n,
    decreases n,
{
    if n > 0 {
        match dec_text(b) {
            Err(_) => {},
            Ok(p) => lemma_keys_len(p.1, (n - 1) as nat, acc.push(p.0)),
        }
    }
}

// ---------------------------------------------------------------------------
// Writing
// ---------------------------------------------------------------------------

fn write_text(out: &mut Vec<u8>, s: &str)
    ensures
        final(out)@ == old(out)@ + enc_text(s@),
{
    put32(out, s.as_bytes().len() as u32);
    put_text(out, s);
    assert(out@ =~= old(out)@ + enc_text(s@));
}

fn write_pairs(out: &mut Vec<u8>, v: &Vec<(u32, u32)>)
    ensures
        final(out)@ == old(out)@ + enc_pairs(v@),
{
    put32(out, v.len() as u32);
    let ghost start = out@;
    let mut i: usize = 0;
    while i < v.len()
        invariant
            i <= v.len(),
            out@ + enc_pairs_from(v@, i as int) == start + enc_pairs_from(v@, 0),
        decreases v.len() - i,
    {
        let ghost before = out@;
        put32(out, v[i].0);
        put32(out, v[i].1);
        assert(out@ + enc_pairs_from(v@, i + 1) =~= before + enc_pairs_from(v@, i as int));
        i = i + 1;
    }
    assert(out@ =~= out@ + enc_pairs_from(v@, i as int));
    assert(out@ =~= old(out)@ + enc_pairs(v@));
}

fn write_words(out: &mut Vec<u8>, v: &Vec<u32>)
    ensures
        final(out)@ == old(out)@ + enc_words(v@),
{
    put32(out, v.len() as u32);
    let ghost start = out@;
    let mut i: usize = 0;
    while i < v.len()
        invariant
            i <= v.len(),
            out@ + enc_words_from(v@, i as int) == start + enc_words_from(v@, 0),
        decreases v.len() - i,
    {
        let ghost before = out@;
        put32(out, v[i]);
        assert(out@ + enc_words_from(v@, i + 1) =~= before + enc_words_from(v@, i as int));
        i = i + 1;
    }
    assert(out@ =~= out@ + enc_words_from(v@, i as int));
    assert(out@ =~= old(out)@ + enc_words(v@));
}

fn write_hole(out: &mut Vec<u8>, h: &Hole)
    ensures
        final(out)@ == old(out)@ + enc_hole(hole_value(*h)),
{
    write_text(out, h.name.as_str());
    let kind: u32 = match h.kind {
        HoleKind::Imm32 => 0,
        HoleKind::Imm64 => 1,
        HoleKind::Branch => 2,
    };
    put32(out, kind);
    write_pairs(out, &h.pairs);
    write_words(out, &h.branches);
    write_words(out, &h.conds);
    write_pairs(out, &h.lo12);
    assert(out@ =~= old(out)@ + enc_hole(hole_value(*h)));
}

fn write_stencil(out: &mut Vec<u8>, s: &Stencil)
    ensures
        final(out)@ == old(out)@ + enc_stencil(stencil_value(*s)),
{
    write_text(out, s.name.as_str());
    put32(out, s.code.len() as u32);
    let tail: u32 = match s.tail {
        Some(t) => t as u32,
        None => u32::MAX,
    };
    put32(out, tail);
    put32(out, s.holes.len() as u32);
    let ghost holes = hole_values(s.holes@);
    let ghost first = out@;
    let mut i: usize = 0;
    while i < s.holes.len()
        invariant
            i <= s.holes.len(),
            holes == hole_values(s.holes@),
            out@ + enc_holes_from(holes, i as int) == first + enc_holes_from(holes, 0),
        decreases s.holes.len() - i,
    {
        let ghost before = out@;
        write_hole(out, &s.holes[i]);
        assert(holes[i as int] == hole_value(s.holes[i as int]));
        assert(out@ + enc_holes_from(holes, i + 1) =~= before + enc_holes_from(holes, i as int));
        i = i + 1;
    }
    assert(out@ =~= out@ + enc_holes_from(holes, i as int));
    put32(out, s.consts.len() as u32);
    append(out, s.consts.as_slice());
    put32(out, s.consts_align);
    put32(out, s.const_refs.len() as u32);
    let ghost second = out@;
    let ghost refs = s.const_refs@;
    let mut k: usize = 0;
    while k < s.const_refs.len()
        invariant
            k <= s.const_refs.len(),
            refs == s.const_refs@,
            out@ + enc_refs_from(refs, k as int) == second + enc_refs_from(refs, 0),
        decreases s.const_refs.len() - k,
    {
        let ghost before = out@;
        let c: ConstRef = s.const_refs[k];
        put32(out, c.field);
        put32(out, c.insn_end);
        put32(out, c.at);
        assert(out@ + enc_refs_from(refs, k + 1) =~= before + enc_refs_from(refs, k as int));
        k = k + 1;
    }
    assert(out@ =~= out@ + enc_refs_from(refs, k as int));
    assert(out@ =~= old(out)@ + enc_stencil(stencil_value(*s)));
}

impl Index {
    /// The keys in the order of their slots.
    fn in_order(&self) -> (r: Vec<Extent>)
        requires
            self.wf(),
        ensures
            extents(r@) == ordered(texts(self.keys@), self.slots@, self.keys.len() as int),
    {
        let mut out: Vec<Extent> = Vec::new();
        let mut i: usize = 0;
        assert(extents(out@) =~= Seq::empty());
        while i < self.keys.len()
            invariant
                i <= self.keys.len(),
                self.keys.len() == self.slots.len(),
                extents(out@) == ordered(texts(self.keys@), self.slots@, i as int),
            decreases self.keys.len() - i,
        {
            let e = Extent { name: self.keys[i].clone(), start: self.slots[i] as u64, end: 0 };
            insert_extent(&mut out, e);
            i = i + 1;
        }
        out
    }
}

impl Library {
    /// The library as bytes. The keys stand in the order of their slots, so two encodings of one
    /// library do not differ.
    pub fn encode(&self) -> (r: Vec<u8>)
        requires
            self.index.wf(),
        ensures
            r@ == enc_library(library_value(*self)),
    {
        let ghost v = library_value(*self);
        let mut out: Vec<u8> = Vec::new();
        out.push(0x53);
        out.push(0x54);
        out.push(0x45);
        out.push(0x4e);
        out.push(0x43);
        out.push(0x49);
        out.push(0x4c);
        out.push(0x32);
        assert(out@ =~= magic());
        write_text(&mut out, self.config.as_str());
        put32(&mut out, self.stencils.len() as u32);
        let keys: Vec<Extent> = self.index.in_order();
        let ghost first = out@;
        let mut i: usize = 0;
        while i < keys.len()
            invariant
                i <= keys.len(),
                v.keys == ev_names(extents(keys@)),
                out@ + enc_keys_from(v.keys, i as int) == first + enc_keys_from(v.keys, 0),
            decreases keys.len() - i,
        {
            let ghost before = out@;
            write_text(&mut out, keys[i].name.as_str());
            assert(v.keys[i as int] == keys[i as int].name@);
            assert(out@ + enc_keys_from(v.keys, i + 1) =~= before + enc_keys_from(v.keys, i as int));
            i = i + 1;
        }
        assert(out@ =~= out@ + enc_keys_from(v.keys, i as int));
        let ghost second = out@;
        let mut k: usize = 0;
        while k < self.stencils.len()
            invariant
                k <= self.stencils.len(),
                v.stencils == stencil_values(self.stencils@),
                out@ + enc_stencils_from(v.stencils, k as int) == second + enc_stencils_from(
                    v.stencils,
                    0,
                ),
            decreases self.stencils.len() - k,
        {
            let ghost before = out@;
            write_stencil(&mut out, &self.stencils[k]);
            assert(v.stencils[k as int] == stencil_value(self.stencils[k as int]));
            assert(out@ + enc_stencils_from(v.stencils, k + 1) =~= before + enc_stencils_from(
                v.stencils,
                k as int,
            ));
            k = k + 1;
        }
        assert(out@ =~= out@ + enc_stencils_from(v.stencils, k as int));
        let ghost third = out@;
        let mut m: usize = 0;
        while m < self.stencils.len()
            invariant
                m <= self.stencils.len(),
                v.stencils == stencil_values(self.stencils@),
                out@ + codes_from(v.stencils, m as int) == third + codes_from(v.stencils, 0),
            decreases self.stencils.len() - m,
        {
            let ghost before = out@;
            append(&mut out, self.stencils[m].code.as_slice());
            assert(v.stencils[m as int] == stencil_value(self.stencils[m as int]));
            assert(out@ + codes_from(v.stencils, m + 1) =~= before + codes_from(
                v.stencils,
                m as int,
            ));
            m = m + 1;
        }
        assert(out@ =~= out@ + codes_from(v.stencils, m as int));
        assert(out@ =~= enc_library(v));
        out
    }
}

// ---------------------------------------------------------------------------
// The two are inverses
// ---------------------------------------------------------------------------

/// Whether the lengths of a hole fit their fields.
pub open spec fn hole_fits(h: Hv) -> bool {
    &&& utf8(h.name).len() <= u32::MAX
    &&& h.pairs.len() <= u32::MAX
    &&& h.branches.len() <= u32::MAX
    &&& h.conds.len() <= u32::MAX
    &&& h.lo12.len() <= u32::MAX
}

/// Whether the lengths of a stencil fit their fields.
pub open spec fn stencil_fits(s: Stv) -> bool {
    &&& utf8(s.name).len() <= u32::MAX
    &&& s.code.len() <= u32::MAX
    &&& s.consts.len() <= u32::MAX
    &&& s.refs.len() <= u32::MAX
    &&& s.holes.len() <= u32::MAX
    &&& s.tail matches Some(t) ==> t < u32::MAX
    &&& forall|i: int| 0 <= i < s.holes.len() ==> hole_fits(#[trigger] s.holes[i])
}

/// Whether the lengths of a library fit their fields, and every stencil has its key.
pub open spec fn library_fits(l: Lv) -> bool {
    &&& utf8(l.config).len() <= u32::MAX
    &&& l.stencils.len() <= u32::MAX
    &&& l.keys.len() == l.stencils.len()
    &&& forall|i: int| 0 <= i < l.keys.len() ==> utf8(#[trigger] l.keys[i]).len() <= u32::MAX
    &&& forall|i: int| 0 <= i < l.stencils.len() ==> stencil_fits(#[trigger] l.stencils[i])
}

proof fn assoc(a: Seq<u8>, b: Seq<u8>, c: Seq<u8>)
    ensures
        (a + b) + c == a + (b + c),
{
    assert((a + b) + c =~= a + (b + c));
}

proof fn assoc6(
    a: Seq<u8>,
    b: Seq<u8>,
    c: Seq<u8>,
    d: Seq<u8>,
    e: Seq<u8>,
    f: Seq<u8>,
    rest: Seq<u8>,
)
    ensures
        a + b + c + d + e + f + rest == a + (b + (c + (d + (e + (f + rest))))),
{
    assoc(a + b + c + d + e, f, rest);
    assoc(a + b + c + d, e, f + rest);
    assoc(a + b + c, d, e + (f + rest));
    assoc(a + b, c, d + (e + (f + rest)));
    assoc(a, b, c + (d + (e + (f + rest))));
}

proof fn back_take(a: Seq<u8>, rest: Seq<u8>)
    ensures
        dec_take(a + rest, a.len()) == Ok::<(Seq<u8>, Seq<u8>), Seq<char>>((a, rest)),
{
    reveal(dec_take);
    assert((a + rest).subrange(0, a.len() as int) =~= a);
    assert((a + rest).subrange(a.len() as int, (a + rest).len() as int) =~= rest);
}

proof fn back_word(w: u32, rest: Seq<u8>)
    ensures
        dec_word(le32(w) + rest) == Ok::<(u32, Seq<u8>), Seq<char>>((w, rest)),
{
    reveal(dec_word);
    back_take(le32(w), rest);
    crate::bytes::what_was_written_is_read32(Seq::empty(), w, rest);
    assert(Seq::<u8>::empty() + le32(w) + rest =~= le32(w) + rest);
}

proof fn back_bytes(a: Seq<u8>, rest: Seq<u8>)
    requires
        a.len() <= u32::MAX,
    ensures
        dec_bytes(le32(a.len() as u32) + a + rest) == Ok::<(Seq<u8>, Seq<u8>), Seq<char>>((a, rest)),
{
    reveal(dec_bytes);
    assert(le32(a.len() as u32) + a + rest =~= le32(a.len() as u32) + (a + rest));
    back_word(a.len() as u32, a + rest);
    back_take(a, rest);
}

proof fn back_text(s: Seq<char>, rest: Seq<u8>)
    requires
        utf8(s).len() <= u32::MAX,
    ensures
        dec_text(enc_text(s) + rest) == Ok::<(Seq<char>, Seq<u8>), Seq<char>>((s, rest)),
{
    reveal(dec_text);
    back_bytes(utf8(s), rest);
    encode_utf8_valid_utf8(s);
    encode_utf8_decode_utf8(s);
}

proof fn back_pairs_from(v: Seq<(u32, u32)>, i: int, rest: Seq<u8>)
    requires
        0 <= i <= v.len(),
    ensures
        dec_pairs_n(enc_pairs_from(v, i) + rest, (v.len() - i) as nat, v.subrange(0, i)) == Ok::<
            (Seq<(u32, u32)>, Seq<u8>),
            Seq<char>,
        >((v, rest)),
    decreases v.len() - i,
{
    if i == v.len() {
        assert(v.subrange(0, i) =~= v);
        assert(enc_pairs_from(v, i) + rest =~= rest);
    } else {
        let more = enc_pairs_from(v, i + 1) + rest;
        assert(enc_pairs_from(v, i) + rest =~= le32(v[i].0) + (le32(v[i].1) + more));
        back_word(v[i].0, le32(v[i].1) + more);
        back_word(v[i].1, more);
        assert(v.subrange(0, i).push(v[i]) =~= v.subrange(0, i + 1));
        back_pairs_from(v, i + 1, rest);
    }
}

proof fn back_pairs(v: Seq<(u32, u32)>, rest: Seq<u8>)
    requires
        v.len() <= u32::MAX,
    ensures
        dec_pairs(enc_pairs(v) + rest) == Ok::<(Seq<(u32, u32)>, Seq<u8>), Seq<char>>((v, rest)),
{
    reveal(dec_pairs);
    let more = enc_pairs_from(v, 0) + rest;
    assert(enc_pairs(v) + rest =~= le32(v.len() as u32) + more);
    back_word(v.len() as u32, more);
    assert(v.subrange(0, 0) =~= Seq::empty());
    back_pairs_from(v, 0, rest);
}

proof fn back_words_from(v: Seq<u32>, i: int, rest: Seq<u8>)
    requires
        0 <= i <= v.len(),
    ensures
        dec_words_n(enc_words_from(v, i) + rest, (v.len() - i) as nat, v.subrange(0, i)) == Ok::<
            (Seq<u32>, Seq<u8>),
            Seq<char>,
        >((v, rest)),
    decreases v.len() - i,
{
    if i == v.len() {
        assert(v.subrange(0, i) =~= v);
        assert(enc_words_from(v, i) + rest =~= rest);
    } else {
        let more = enc_words_from(v, i + 1) + rest;
        assert(enc_words_from(v, i) + rest =~= le32(v[i]) + more);
        back_word(v[i], more);
        assert(v.subrange(0, i).push(v[i]) =~= v.subrange(0, i + 1));
        back_words_from(v, i + 1, rest);
    }
}

proof fn back_words(v: Seq<u32>, rest: Seq<u8>)
    requires
        v.len() <= u32::MAX,
    ensures
        dec_words(enc_words(v) + rest) == Ok::<(Seq<u32>, Seq<u8>), Seq<char>>((v, rest)),
{
    reveal(dec_words);
    let more = enc_words_from(v, 0) + rest;
    assert(enc_words(v) + rest =~= le32(v.len() as u32) + more);
    back_word(v.len() as u32, more);
    assert(v.subrange(0, 0) =~= Seq::empty());
    back_words_from(v, 0, rest);
}

/// A hole that was written is the hole that is read.
pub proof fn a_hole_survives(h: Hv, rest: Seq<u8>)
    requires
        hole_fits(h),
    ensures
        dec_hole(enc_hole(h) + rest) == Ok::<(Hv, Seq<u8>), Seq<char>>((h, rest)),
{
    reveal(dec_hole);
    let r5 = enc_pairs(h.lo12) + rest;
    let r4 = enc_words(h.conds) + r5;
    let r3 = enc_words(h.branches) + r4;
    let r2 = enc_pairs(h.pairs) + r3;
    let r1 = le32(kind_number(h.kind)) + r2;
    assoc6(
        enc_text(h.name),
        le32(kind_number(h.kind)),
        enc_pairs(h.pairs),
        enc_words(h.branches),
        enc_words(h.conds),
        enc_pairs(h.lo12),
        rest,
    );
    back_text(h.name, r1);
    back_word(kind_number(h.kind), r2);
    back_pairs(h.pairs, r3);
    back_words(h.branches, r4);
    back_words(h.conds, r5);
    back_pairs(h.lo12, rest);
}

proof fn back_holes_from(v: Seq<Hv>, i: int, rest: Seq<u8>)
    requires
        0 <= i <= v.len(),
        forall|k: int| 0 <= k < v.len() ==> hole_fits(#[trigger] v[k]),
    ensures
        dec_holes_n(enc_holes_from(v, i) + rest, (v.len() - i) as nat, v.subrange(0, i)) == Ok::<
            (Seq<Hv>, Seq<u8>),
            Seq<char>,
        >((v, rest)),
    decreases v.len() - i,
{
    if i == v.len() {
        assert(v.subrange(0, i) =~= v);
        assert(enc_holes_from(v, i) + rest =~= rest);
    } else {
        let more = enc_holes_from(v, i + 1) + rest;
        assert(enc_holes_from(v, i) + rest =~= enc_hole(v[i]) + more);
        a_hole_survives(v[i], more);
        assert(v.subrange(0, i).push(v[i]) =~= v.subrange(0, i + 1));
        back_holes_from(v, i + 1, rest);
    }
}

proof fn back_refs_from(v: Seq<ConstRef>, i: int, rest: Seq<u8>)
    requires
        0 <= i <= v.len(),
    ensures
        dec_refs_n(enc_refs_from(v, i) + rest, (v.len() - i) as nat, v.subrange(0, i)) == Ok::<
            (Seq<ConstRef>, Seq<u8>),
            Seq<char>,
        >((v, rest)),
    decreases v.len() - i,
{
    if i == v.len() {
        assert(v.subrange(0, i) =~= v);
        assert(enc_refs_from(v, i) + rest =~= rest);
    } else {
        let more = enc_refs_from(v, i + 1) + rest;
        let c = v[i];
        assert(enc_refs_from(v, i) + rest =~= le32(c.field) + (le32(c.insn_end) + (le32(c.at)
            + more)));
        back_word(c.field, le32(c.insn_end) + (le32(c.at) + more));
        back_word(c.insn_end, le32(c.at) + more);
        back_word(c.at, more);
        assert(v.subrange(0, i).push(v[i]) =~= v.subrange(0, i + 1));
        back_refs_from(v, i + 1, rest);
    }
}

/// A stencil that was written is the stencil that is read, but for its code, which stands
/// elsewhere.
pub proof fn a_stencil_survives(s: Stv, rest: Seq<u8>)
    requires
        stencil_fits(s),
    ensures
        dec_stencil(enc_stencil(s) + rest) == Ok::<((Stv, u32), Seq<u8>), Seq<char>>(
            ((Stv { code: Seq::empty(), ..s }, s.code.len() as u32), rest),
        ),
{
    reveal(dec_stencil);
    let r7 = enc_refs_from(s.refs, 0) + rest;
    let r6 = le32(s.refs.len() as u32) + r7;
    let r5 = le32(s.align) + r6;
    let r4 = le32(s.consts.len() as u32) + s.consts + r5;
    let r3 = enc_holes_from(s.holes, 0) + r4;
    let r2 = le32(s.holes.len() as u32) + r3;
    let r1 = le32(tail_number(s.tail)) + r2;
    let r0 = le32(s.code.len() as u32) + r1;
    let n0 = enc_text(s.name);
    let n1 = le32(s.code.len() as u32);
    let n2 = le32(tail_number(s.tail));
    let n3 = le32(s.holes.len() as u32);
    let n4 = enc_holes_from(s.holes, 0);
    let n5 = le32(s.consts.len() as u32);
    let front = n0 + n1 + n2 + n3 + n4 + n5;
    assoc6(front, s.consts, le32(s.align), le32(s.refs.len() as u32), enc_refs_from(s.refs, 0), Seq::empty(), rest);
    assoc6(n0, n1, n2, n3, n4, n5, s.consts + r5);
    assoc(n5, s.consts, r5);
    assert(Seq::<u8>::empty() + rest =~= rest);
    assert(enc_stencil(s) + Seq::<u8>::empty() =~= enc_stencil(s));
    back_text(s.name, r0);
    back_word(s.code.len() as u32, r1);
    back_word(tail_number(s.tail), r2);
    back_word(s.holes.len() as u32, r3);
    assert(s.holes.subrange(0, 0) =~= Seq::empty());
    back_holes_from(s.holes, 0, r4);
    back_bytes(s.consts, r5);
    back_word(s.align, r6);
    back_word(s.refs.len() as u32, r7);
    assert(s.refs.subrange(0, 0) =~= Seq::empty());
    back_refs_from(s.refs, 0, rest);
}

/// Stencils without their code, with its lengths.
pub open spec fn stripped(v: Seq<Stv>) -> Seq<(Stv, u32)> {
    v.map_values(|s: Stv| (Stv { code: Seq::empty(), ..s }, s.code.len() as u32))
}

proof fn back_stencils_from(v: Seq<Stv>, i: int, rest: Seq<u8>)
    requires
        0 <= i <= v.len(),
        forall|k: int| 0 <= k < v.len() ==> stencil_fits(#[trigger] v[k]),
    ensures
        dec_stencils_n(
            enc_stencils_from(v, i) + rest,
            (v.len() - i) as nat,
            stripped(v).subrange(0, i),
        ) == Ok::<(Seq<(Stv, u32)>, Seq<u8>), Seq<char>>((stripped(v), rest)),
    decreases v.len() - i,
{
    if i == v.len() {
        assert(stripped(v).subrange(0, i) =~= stripped(v));
        assert(enc_stencils_from(v, i) + rest =~= rest);
    } else {
        let more = enc_stencils_from(v, i + 1) + rest;
        assert(enc_stencils_from(v, i) + rest =~= enc_stencil(v[i]) + more);
        a_stencil_survives(v[i], more);
        assert(stripped(v).subrange(0, i).push(stripped(v)[i]) =~= stripped(v).subrange(0, i + 1));
        back_stencils_from(v, i + 1, rest);
    }
}

proof fn back_keys_from(v: Seq<Seq<char>>, i: int, rest: Seq<u8>)
    requires
        0 <= i <= v.len(),
        forall|k: int| 0 <= k < v.len() ==> utf8(#[trigger] v[k]).len() <= u32::MAX,
    ensures
        dec_keys_n(enc_keys_from(v, i) + rest, (v.len() - i) as nat, v.subrange(0, i)) == Ok::<
            (Seq<Seq<char>>, Seq<u8>),
            Seq<char>,
        >((v, rest)),
    decreases v.len() - i,
{
    if i == v.len() {
        assert(v.subrange(0, i) =~= v);
        assert(enc_keys_from(v, i) + rest =~= rest);
    } else {
        let more = enc_keys_from(v, i + 1) + rest;
        assert(enc_keys_from(v, i) + rest =~= enc_text(v[i]) + more);
        back_text(v[i], more);
        assert(v.subrange(0, i).push(v[i]) =~= v.subrange(0, i + 1));
        back_keys_from(v, i + 1, rest);
    }
}

proof fn back_codes_from(v: Seq<Stv>, i: int)
    requires
        0 <= i <= v.len(),
        forall|k: int| 0 <= k < v.len() ==> stencil_fits(#[trigger] v[k]),
    ensures
        dec_codes(codes_from(v, i), stripped(v), i, v.subrange(0, i)) == Ok::<
            (Seq<Stv>, Seq<u8>),
            Seq<char>,
        >((v, Seq::empty())),
    decreases v.len() - i,
{
    if i == v.len() {
        assert(v.subrange(0, i) =~= v);
    } else {
        assert(stencil_fits(v[i]));
        back_take(v[i].code, codes_from(v, i + 1));
        assert(stripped(v)[i] == (Stv { code: Seq::empty(), ..v[i] }, v[i].code.len() as u32));
        assert(Stv { code: v[i].code, ..stripped(v)[i].0 } == v[i]);
        assert(v.subrange(0, i).push(v[i]) =~= v.subrange(0, i + 1));
        back_codes_from(v, i + 1);
    }
}

/// What is read of a library's bytes is the library.
pub proof fn a_library_survives(l: Lv)
    requires
        library_fits(l),
    ensures
        dec_library(enc_library(l)) == Ok::<Lv, Seq<char>>(l),
{
    reveal(dec_whole);
    let r4 = codes_from(l.stencils, 0);
    let r3 = enc_stencils_from(l.stencils, 0) + r4;
    let r2 = enc_keys_from(l.keys, 0) + r3;
    let r1 = le32(l.stencils.len() as u32) + r2;
    let r0 = enc_text(l.config) + r1;
    assoc6(
        magic(),
        enc_text(l.config),
        le32(l.stencils.len() as u32),
        enc_keys_from(l.keys, 0),
        enc_stencils_from(l.stencils, 0),
        r4,
        Seq::empty(),
    );
    assert(r4 + Seq::<u8>::empty() =~= r4);
    assert(enc_library(l) + Seq::<u8>::empty() =~= enc_library(l));
    back_take(magic(), r0);
    back_text(l.config, r1);
    back_word(l.stencils.len() as u32, r2);
    assert(l.keys.subrange(0, 0) =~= Seq::empty());
    back_keys_from(l.keys, 0, r3);
    assert(stripped(l.stencils).subrange(0, 0) =~= Seq::empty());
    back_stencils_from(l.stencils, 0, r4);
    assert(l.stencils.subrange(0, 0) =~= Seq::empty());
    back_codes_from(l.stencils, 0);
}

/// Whether extents stand in the order of their starts, and no two start at one place.
pub open spec fn strictly_in_order(v: Seq<Ev>) -> bool {
    forall|i: int, j: int| 0 <= i < j < v.len() ==> (#[trigger] v[i]).start < (#[trigger] v[j]).start
}

proof fn lemma_inserted_strict(v: Seq<Ev>, x: Ev)
    requires
        strictly_in_order(v),
        forall|i: int| 0 <= i < v.len() ==> (#[trigger] v[i]).start != x.start,
    ensures
        strictly_in_order(inserted(v, x)),
        inserted(v, x).len() == v.len() + 1,
        forall|i: int|
            0 <= i < inserted(v, x).len() ==> #[trigger] inserted(v, x)[i] == x || v.contains(
                inserted(v, x)[i],
            ),
        inserted(v, x).contains(x),
        forall|i: int| 0 <= i < v.len() ==> inserted(v, x).contains(#[trigger] v[i]),
    decreases v.len(),
{
    crate::elfobj::lemma_inserted_members(v, x);
    let t = inserted(v, x);
    if v.len() > 0 && sooner(x, v.last()) {
        let w = v.drop_last();
        assert(strictly_in_order(w)) by {
            assert forall|i: int, j: int| 0 <= i < j < w.len() implies (#[trigger] w[i]).start < (
            #[trigger] w[j]).start by {
                assert(v[i].start < v[j].start);
            }
        }
        assert forall|i: int| 0 <= i < w.len() implies (#[trigger] w[i]).start != x.start by {
            assert(v[i].start != x.start);
        }
        lemma_inserted_strict(w, x);
        let r = inserted(w, x);
        assert(t == r.push(v.last()));
        assert(v[v.len() - 1].start != x.start);
        assert forall|i: int| 0 <= i < r.len() implies (#[trigger] r[i]).start < v.last().start by {
            if r[i] != x {
                let k = choose|k: int| 0 <= k < w.len() && w[k] == r[i];
                assert(v[k].start < v[v.len() - 1].start);
            }
        }
        let k = choose|k: int| 0 <= k < r.len() && r[k] == x;
        assert(t[k] == x);
        assert forall|i: int| 0 <= i < v.len() implies t.contains(#[trigger] v[i]) by {
            if i < w.len() {
                assert(r.contains(w[i]));
                let m = choose|m: int| 0 <= m < r.len() && r[m] == w[i];
                assert(t[m] == v[i]);
            } else {
                assert(t[r.len() as int] == v[i]);
            }
        }
    } else {
        assert(t[v.len() as int] == x);
        assert forall|i: int| 0 <= i < v.len() implies t.contains(#[trigger] v[i]) by {
            assert(t[i] == v[i]);
        }
        if v.len() > 0 {
            assert(v[v.len() - 1].start < x.start);
        }
    }
}

/// One key of an index, with its slot.
pub open spec fn entry(keys: Seq<Seq<char>>, slots: Seq<u32>, i: int) -> Ev {
    Ev { name: keys[i], start: slots[i] as u64, end: 0 }
}

/// Whether no two keys have one slot.
pub open spec fn distinct(slots: Seq<u32>) -> bool {
    forall|i: int, j: int| 0 <= i < j < slots.len() ==> #[trigger] slots[i] != #[trigger] slots[j]
}

proof fn lemma_ordered(keys: Seq<Seq<char>>, slots: Seq<u32>, n: int)
    requires
        0 <= n <= slots.len(),
        keys.len() == slots.len(),
        distinct(slots),
    ensures
        strictly_in_order(ordered(keys, slots, n)),
        ordered(keys, slots, n).len() == n,
        forall|i: int|
            0 <= i < n ==> ordered(keys, slots, n).contains(#[trigger] entry(keys, slots, i)),
        forall|j: int|
            0 <= j < n ==> exists|i: int|
                0 <= i < n && #[trigger] entry(keys, slots, i) == #[trigger] ordered(
                    keys,
                    slots,
                    n,
                )[j],
    decreases n,
{
    if n > 0 {
        lemma_ordered(keys, slots, n - 1);
        let v = ordered(keys, slots, n - 1);
        let x = entry(keys, slots, n - 1);
        assert forall|i: int| 0 <= i < v.len() implies (#[trigger] v[i]).start != x.start by {
            let k = choose|k: int| 0 <= k < n - 1 && #[trigger] entry(keys, slots, k) == v[i];
            assert(slots[k] != slots[n - 1]);
        }
        lemma_inserted_strict(v, x);
        let t = ordered(keys, slots, n);
        assert(t == inserted(v, x));
        assert forall|i: int| 0 <= i < n implies t.contains(#[trigger] entry(keys, slots, i)) by {
            if i < n - 1 {
                assert(v.contains(entry(keys, slots, i)));
                let m = choose|m: int| 0 <= m < v.len() && v[m] == entry(keys, slots, i);
                assert(t.contains(v[m]));
            }
        }
        assert forall|j: int| 0 <= j < n implies exists|i: int|
            0 <= i < n && #[trigger] entry(keys, slots, i) == #[trigger] t[j] by {
            if t[j] != x {
                assert(v.contains(t[j]));
                let m = choose|m: int| 0 <= m < v.len() && v[m] == t[j];
                let k = choose|k: int| 0 <= k < n - 1 && #[trigger] entry(keys, slots, k) == v[m];
                assert(entry(keys, slots, k) == t[j]);
            } else {
                assert(entry(keys, slots, n - 1) == t[j]);
            }
        }
    }
}

proof fn lemma_at_least(v: Seq<Ev>, j: int)
    requires
        strictly_in_order(v),
        0 <= j < v.len(),
    ensures
        v[j].start >= j,
    decreases j,
{
    if j > 0 {
        lemma_at_least(v, j - 1);
        assert(v[j - 1].start < v[j].start);
    }
}

proof fn lemma_at_most(v: Seq<Ev>, j: int)
    requires
        strictly_in_order(v),
        0 <= j < v.len(),
        forall|i: int| 0 <= i < v.len() ==> (#[trigger] v[i]).start < v.len(),
    ensures
        v[j].start <= j,
    decreases v.len() - j,
{
    if j + 1 < v.len() {
        lemma_at_most(v, j + 1);
        assert(v[j].start < v[j + 1].start);
    } else {
        assert(v[j].start < v.len());
    }
}

proof fn lemma_last_slot_is(keys: Seq<Seq<char>>, key: Seq<char>, s: int, n: int)
    requires
        0 <= n <= keys.len(),
        n <= u32::MAX,
        -1 <= s < n,
        s >= 0 ==> keys[s] == key,
        forall|i: int| s < i < n ==> keys[i] != key,
    ensures
        last_slot(keys, key, n) == (if s >= 0 {
            Some(s as u32)
        } else {
            None
        }),
    decreases n,
{
    if n > 0 && s != n - 1 {
        lemma_last_slot_is(keys, key, s, n - 1);
    }
}

/// Whether every stencil of a library has one key, and every key a stencil.
pub open spec fn one_key_each(l: Library) -> bool {
    &&& l.index.wf()
    &&& l.index.keys.len() == l.stencils.len()
    &&& l.stencils.len() <= u32::MAX
    &&& distinct(l.index.slots@)
    &&& forall|i: int|
        0 <= i < l.index.slots.len() ==> (#[trigger] l.index.slots[i]) < l.stencils.len()
}

/// A key finds in the library that is read the stencil it found in the library that was written.
pub proof fn a_key_finds_its_stencil_again(l: Library, key: Seq<char>)
    requires
        one_key_each(l),
    ensures
        last_slot(
            library_value(l).keys,
            key,
            library_value(l).keys.len() as int,
        ) == l.index.lookup(key),
        library_value(l).keys.len() == l.stencils.len(),
{
    let keys = texts(l.index.keys@);
    let slots = l.index.slots@;
    let n = keys.len() as int;
    lemma_ordered(keys, slots, n);
    let v = ordered(keys, slots, n);
    let names = ev_names(v);
    assert(library_value(l).keys == names);
    assert forall|j: int| 0 <= j < v.len() implies (#[trigger] v[j]).start < v.len() by {
        let i = choose|i: int| 0 <= i < n && #[trigger] entry(keys, slots, i) == v[j];
        assert(l.index.slots[i] < l.stencils.len());
    }
    assert forall|j: int| 0 <= j < v.len() implies (#[trigger] v[j]).start == j by {
        lemma_at_least(v, j);
        lemma_at_most(v, j);
    }
    crate::library::lemma_position_at(keys, key);
    match position(keys, key) {
        Some(i) => {
            let s = slots[i] as int;
            assert(v.contains(entry(keys, slots, i)));
            let m = choose|m: int| 0 <= m < v.len() && v[m] == entry(keys, slots, i);
            assert(v[m].start == m);
            assert(names[s] == key);
            assert forall|j: int| s < j < n implies names[j] != key by {
                let k = choose|k: int| 0 <= k < n && #[trigger] entry(keys, slots, k) == v[j];
                assert(v[j].start == j);
                if names[j] == key {
                    assert(keys[k] == key);
                    assert(k != i);
                    if k < i {
                        assert(l.index.keys[k]@ != l.index.keys[i]@);
                    } else {
                        assert(l.index.keys[i]@ != l.index.keys[k]@);
                    }
                }
            }
            lemma_last_slot_is(names, key, s, n);
        },
        None => {
            assert forall|j: int| -1 < j < n implies names[j] != key by {
                let k = choose|k: int| 0 <= k < n && #[trigger] entry(keys, slots, k) == v[j];
                assert(keys[k] != key);
            }
            lemma_last_slot_is(names, key, -1, n);
        },
    }
}

} // verus!
