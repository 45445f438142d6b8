//! The buffer that one unit's code and constants are copied into, and the relocations that leave
//! it.
//!
//! Every stencil is position-independent, so the unit is emitted at a base of zero: an address is
//! an offset into the section. What the emitter cannot resolve is recorded as a relocation. The
//! constant pool is a section of its own, because a pool slot may hold an absolute address, which
//! a code section may not.

use crate::bytes::{append, gap, le64, pad, put64, set_word, with32, word_at, word_of, zeros};
use std::collections::HashMap;
use vstd::prelude::*;

verus! {

broadcast use vstd::std_specs::hash::group_hash_axioms;

/// log2 of the code section's alignment.
pub const CODE_ALIGN: u32 = 2;

/// log2 of the constant pool's alignment.
pub const POOL_ALIGN: u32 = 3;

/// The same on x86-64, where a stencil may carry a constant of sixteen bytes.
pub const POOL_ALIGN_X86_64: u32 = 4;

/// Where a relocation's value comes from.
#[derive(Clone, PartialEq, Eq, Debug)]
pub enum Target {
    /// A function of this program.
    Func(u32),
    /// A symbol outside this program.
    Symbol(String),
    /// A byte offset within the constant pool.
    Here(u64),
    /// The constant pool itself, at offset zero.
    Pool,
}

/// A target, as a value.
pub enum Tg {
    Func(u32),
    Symbol(Seq<char>),
    Here(u64),
    Pool,
}

impl View for Target {
    type V = Tg;

    open spec fn view(&self) -> Tg {
        match self {
            Target::Func(f) => Tg::Func(*f),
            Target::Symbol(s) => Tg::Symbol(s@),
            Target::Here(o) => Tg::Here(*o),
            Target::Pool => Tg::Pool,
        }
    }
}

/// What the linker is asked to do at one place in the section.
#[derive(Clone, Copy, PartialEq, Eq, Debug, Structural)]
pub enum RelocKind {
    /// The 26-bit word displacement of a `b` or a `bl`.
    Branch26,
    /// An eight-byte absolute address in the constant pool.
    Abs64,
    /// The page half of an `adrp`.
    Page21,
    /// The offset half of the `ldr` behind one.
    PageOff12,
    /// The displacement of a `jmp`, a `call` or a conditional jump.
    Rel32,
    /// A displacement from the instruction pointer.
    Pc32,
}

/// One relocation.
#[derive(Clone, Debug)]
pub struct Reloc {
    /// Byte offset within the section.
    pub at: u64,
    pub kind: RelocKind,
    pub target: Target,
    /// Added to the target's address before the field is formed.
    pub addend: i64,
}

/// A relocation, as a value.
pub struct Rl {
    pub at: u64,
    pub kind: RelocKind,
    pub target: Tg,
    pub addend: i64,
}

impl View for Reloc {
    type V = Rl;

    open spec fn view(&self) -> Rl {
        Rl { at: self.at, kind: self.kind, target: self.target@, addend: self.addend }
    }
}

/// Relocations, as values.
pub open spec fn rels(v: Seq<Reloc>) -> Seq<Rl> {
    v.map_values(|r: Reloc| r@)
}

/// A pool handle is not an address: this bit, far above any offset a unit can reach, tells the two
/// apart.
pub const POOL_TAG: u64 = 0x100_0000_0000;

/// A handle.
pub open spec fn handle(at: u64) -> u64 {
    POOL_TAG | at
}

/// The offset that a handle stands for.
pub open spec fn offset(h: u64) -> u64 {
    h & !POOL_TAG
}

/// Whether a number is a pool handle.
pub fn is_pool_handle(v: u64) -> (r: bool)
    ensures
        r == (v & POOL_TAG != 0),
{
    v & POOL_TAG != 0
}

/// A handle is told from an offset, and gives its offset back.
pub proof fn a_handle_stands_for_its_offset(at: u64)
    requires
        at < POOL_TAG,
    ensures
        handle(at) & POOL_TAG != 0,
        at & POOL_TAG == 0,
        offset(handle(at)) == at,
        offset(at) == at,
{
    assert(at < 0x100_0000_0000 ==> (0x100_0000_0000u64 | at) & 0x100_0000_0000 != 0 && at
        & 0x100_0000_0000 == 0 && (0x100_0000_0000u64 | at) & !0x100_0000_0000u64 == at && at
        & !0x100_0000_0000u64 == at) by (bit_vector);
}

/// One unit's emitted bytes.
pub struct Region {
    /// The instruction stream.
    pub bytes: Vec<u8>,
    /// The constant pool.
    pub pool: Vec<u8>,
    /// Pool slots that hold an address, by pool offset.
    pub pool_targets: Vec<(u64, Target)>,
    /// The pool offset of each pooled number.
    pub pool_index: HashMap<u64, u64>,
    /// Relocations against the code.
    pub relocs: Vec<Reloc>,
}

/// One unit's emitted bytes, as a value.
#[verifier::ext_equal]
pub struct Rg {
    pub code: Seq<u8>,
    pub pool: Seq<u8>,
    pub targets: Seq<(u64, Tg)>,
    pub index: Map<u64, u64>,
    pub relocs: Seq<Rl>,
}

impl Rg {
    /// The pool with its end on a multiple of eight.
    pub open spec fn aligned(self) -> Seq<u8> {
        self.pool + zeros(gap(self.pool.len(), 8))
    }

    /// Every pooled number stands, whole and aligned, where the index says, every slot that the linker
    /// fills is of zeros, and no two of these are at one place.
    pub open spec fn wf(self) -> bool {
        &&& forall|v: u64| #[trigger]
            self.index.dom().contains(v) ==> {
                &&& self.index[v] % 8 == 0
                &&& self.index[v] + 8 <= self.pool.len()
                &&& self.pool.subrange(self.index[v] as int, self.index[v] + 8) == le64(v)
            }
        &&& forall|i: int|
            0 <= i < self.targets.len() ==> {
                &&& (#[trigger] self.targets[i]).0 % 8 == 0
                &&& self.targets[i].0 + 8 <= self.pool.len()
                &&& self.pool.subrange(self.targets[i].0 as int, self.targets[i].0 + 8) == zeros(8)
            }
        &&& forall|v: u64, i: int|
            self.index.dom().contains(v) && 0 <= i < self.targets.len() ==> #[trigger] self.index[v]
                != (#[trigger] self.targets[i]).0
        &&& forall|i: int, j: int|
            0 <= i < j < self.targets.len() ==> (#[trigger] self.targets[i]).0 != (
            #[trigger] self.targets[j]).0
    }

    /// The bytes, appended to the code.
    pub open spec fn put(self, b: Seq<u8>) -> Rg {
        Rg { code: self.code + b, ..self }
    }

    /// The code with its end on a multiple of `to`.
    pub open spec fn align_code(self, to: nat) -> Rg {
        Rg { code: self.code + zeros(gap(self.code.len(), to)), ..self }
    }

    /// A pool slot that holds the number, and its handle.
    pub open spec fn pool_u64(self, v: u64) -> (Rg, u64) {
        if self.index.dom().contains(v) {
            (self, handle(self.index[v]))
        } else {
            let at = self.aligned().len() as u64;
            (
                Rg { pool: self.aligned() + le64(v), index: self.index.insert(v, at), ..self },
                handle(at),
            )
        }
    }

    /// A pool slot that the linker fills in, and its handle.
    pub open spec fn pool_target(self, t: Tg) -> (Rg, u64) {
        let at = self.aligned().len() as u64;
        let to = match t {
            Tg::Here(o) => Tg::Here(offset(o)),
            other => other,
        };
        (
            Rg { pool: self.aligned() + zeros(8), targets: self.targets.push((at, to)), ..self },
            handle(at),
        )
    }

    /// Bytes in the pool, and their handle.
    pub open spec fn pool_bytes(self, b: Seq<u8>) -> (Rg, u64) {
        (Rg { pool: self.aligned() + b, ..self }, handle(self.aligned().len() as u64))
    }

    /// Constants in the pool on a multiple of `align`, and their offset.
    pub open spec fn pool_consts(self, b: Seq<u8>, align: u32) -> (Rg, u64) {
        let to = if align == 0 {
            1nat
        } else {
            align as nat
        };
        let start = self.pool + zeros(gap(self.pool.len(), to));
        (Rg { pool: start + b, ..self }, start.len() as u64)
    }

    /// One more relocation against the code.
    pub open spec fn rel(self, at: u64, kind: RelocKind, target: Tg, addend: i64) -> Rg {
        Rg { relocs: self.relocs.push(Rl { at, kind, target, addend }), ..self }
    }

    /// The relocation pair of an `adrp` and an `ldr` aimed at a pool slot.
    pub open spec fn pool_ref(self, adrp: u64, ldr: u64, slot: u64) -> Rg {
        let addend = offset(slot) as i64;
        self.rel(adrp, RelocKind::Page21, Tg::Pool, addend).rel(
            ldr,
            RelocKind::PageOff12,
            Tg::Pool,
            addend,
        )
    }

    /// A word of the code, rewritten.
    pub open spec fn set_word(self, at: u64, w: u32) -> Rg {
        Rg { code: with32(self.code, at as int, w), ..self }
    }
}

/// The relocation of a pool slot.
pub open spec fn slot_rel(t: (u64, Tg)) -> Rl {
    match t.1 {
        Tg::Here(o) => Rl {
            at: t.0,
            kind: RelocKind::Abs64,
            target: Tg::Pool,
            addend: o as i64,
        },
        other => Rl { at: t.0, kind: RelocKind::Abs64, target: other, addend: 0 },
    }
}

/// Targets of slots, as values.
pub open spec fn slots(v: Seq<(u64, Target)>) -> Seq<(u64, Tg)> {
    v.map_values(|t: (u64, Target)| (t.0, t.1@))
}

impl View for Region {
    type V = Rg;

    open spec fn view(&self) -> Rg {
        Rg {
            code: self.bytes@,
            pool: self.pool@,
            targets: slots(self.pool_targets@),
            index: self.pool_index@,
            relocs: rels(self.relocs@),
        }
    }
}

/// Two sections and the relocations that each still needs.
pub struct Emitted {
    pub code: Vec<u8>,
    pub code_relocs: Vec<Reloc>,
    pub pool: Vec<u8>,
    pub pool_relocs: Vec<Reloc>,
}

impl Region {
    pub fn new() -> (r: Region)
        ensures
            r@ == (Rg {
                code: Seq::empty(),
                pool: Seq::empty(),
                targets: Seq::empty(),
                index: Map::empty(),
                relocs: Seq::empty(),
            }),
            r@.wf(),
    {
        let r = Region {
            bytes: Vec::new(),
            pool: Vec::new(),
            pool_targets: Vec::new(),
            pool_index: HashMap::new(),
            relocs: Vec::new(),
        };
        assert(r@ =~= Rg {
            code: Seq::empty(),
            pool: Seq::empty(),
            targets: Seq::empty(),
            index: Map::empty(),
            relocs: Seq::empty(),
        });
        r
    }

    /// The offset that the next byte of code goes to.
    pub fn code_addr(&self) -> (r: u64)
        ensures
            r == self@.code.len(),
    {
        self.bytes.len() as u64
    }

    /// Appends bytes to the code and gives the offset they went to.
    pub fn put(&mut self, bytes: &[u8]) -> (r: u64)
        ensures
            final(self)@ == old(self)@.put(bytes@),
            r == old(self)@.code.len(),
    {
        let at: u64 = self.code_addr();
        append(&mut self.bytes, bytes);
        at
    }

    /// Zeros up to a multiple of `to`.
    pub fn align_code(&mut self, to: usize)
        requires
            to > 0,
        ensures
            final(self)@ == old(self)@.align_code(to as nat),
            final(self)@.code.len() % to as nat == 0,
    {
        let n: usize = self.bytes.len() % to;
        proof {
            crate::bytes::a_gap_ends_on_a_multiple(self.bytes@.len(), to as nat);
        }
        if n != 0 {
            pad(&mut self.bytes, to - n);
        }
        assert(self.bytes@ =~= old(self).bytes@ + zeros(gap(old(self).bytes@.len(), to as nat)));
    }

    fn align_pool(&mut self) -> (r: u64)
        ensures
            final(self)@ == (Rg { pool: old(self)@.aligned(), ..old(self)@ }),
            r == old(self)@.aligned().len(),
            r % 8 == 0,
    {
        let n: usize = self.pool.len() % 8;
        proof {
            crate::bytes::a_gap_ends_on_a_multiple(self.pool@.len(), 8);
        }
        if n != 0 {
            pad(&mut self.pool, 8 - n);
        }
        assert(self.pool@ =~= old(self)@.aligned());
        self.pool.len() as u64
    }

    /// A pool slot that holds `v`: the one that holds it already, or a new one.
    pub fn pool_u64(&mut self, v: u64) -> (r: u64)
        ensures
            (final(self)@, r) == old(self)@.pool_u64(v),
            old(self)@.wf() ==> final(self)@.wf(),
    {
        match self.pool_index.get(&v) {
            Some(at) => {
                return POOL_TAG | *at;
            },
            None => {},
        }
        let at: u64 = self.align_pool();
        put64(&mut self.pool, v);
        self.pool_index.insert(v, at);
        assert(self@ =~= old(self)@.pool_u64(v).0);
        proof {
            if old(self)@.wf() {
                lemma_grown(old(self)@, self@, le64(v));
                assert(self@.pool.subrange(at as int, at + 8) =~= le64(v));
            }
        }
        POOL_TAG | at
    }

    /// A pool slot whose contents the linker fills in.
    pub fn pool_target(&mut self, t: Target) -> (r: u64)
        ensures
            (final(self)@, r) == old(self)@.pool_target(t@),
            old(self)@.wf() ==> final(self)@.wf(),
    {
        let to: Target = match t {
            Target::Here(off) => Target::Here(off & !POOL_TAG),
            other => other,
        };
        let at: u64 = self.align_pool();
        pad(&mut self.pool, 8);
        let ghost before = self.pool_targets@;
        self.pool_targets.push((at, to));
        assert(slots(self.pool_targets@) =~= slots(before).push((at, to@)));
        assert(self@ =~= old(self)@.pool_target(t@).0);
        proof {
            if old(self)@.wf() {
                lemma_grown(old(self)@, self@, zeros(8));
                assert(self@.pool.subrange(at as int, at + 8) =~= zeros(8));
            }
        }
        POOL_TAG | at
    }

    /// Bytes in the pool.
    pub fn pool_bytes(&mut self, b: &[u8]) -> (r: u64)
        ensures
            (final(self)@, r) == old(self)@.pool_bytes(b@),
            old(self)@.wf() ==> final(self)@.wf(),
    {
        let at: u64 = self.align_pool();
        append(&mut self.pool, b);
        assert(self@ =~= old(self)@.pool_bytes(b@).0);
        proof {
            if old(self)@.wf() {
                lemma_grown(old(self)@, self@, b@);
            }
        }
        POOL_TAG | at
    }

    /// Constants in the pool on a multiple of `align`.
    pub fn pool_consts(&mut self, b: &[u8], align: u32) -> (r: u64)
        ensures
            (final(self)@, r) == old(self)@.pool_consts(b@, align),
            old(self)@.wf() ==> final(self)@.wf(),
    {
        let to: usize = if align == 0 {
            1
        } else {
            align as usize
        };
        let n: usize = self.pool.len() % to;
        if n != 0 {
            pad(&mut self.pool, to - n);
        }
        let ghost start = self.pool@;
        assert(start =~= old(self)@.pool + zeros(gap(old(self)@.pool.len(), to as nat)));
        let at: u64 = self.pool.len() as u64;
        append(&mut self.pool, b);
        assert(self@ =~= old(self)@.pool_consts(b@, align).0);
        proof {
            if old(self)@.wf() {
                let more = zeros(gap(old(self)@.pool.len(), to as nat)) + b@;
                assert(self@.pool =~= old(self)@.pool + more);
                lemma_grown(old(self)@, self@, more);
            }
        }
        at
    }

    /// One relocation more, with an addend.
    pub fn reloc_to(&mut self, at: u64, kind: RelocKind, target: Target, addend: i64)
        ensures
            final(self)@ == old(self)@.rel(at, kind, target@, addend),
    {
        let ghost before = self.relocs@;
        let r = Reloc { at, kind, target, addend };
        self.relocs.push(r);
        assert(rels(self.relocs@) =~= rels(before).push(r@));
    }

    /// The relocation pair of an `adrp` and an `ldr` aimed at a pool slot. Neither instruction is
    /// rewritten: the linker fills both fields.
    pub fn pool_ref(&mut self, adrp: u64, ldr: u64, slot: u64)
        ensures
            final(self)@ == old(self)@.pool_ref(adrp, ldr, slot),
    {
        let addend: i64 = (slot & !POOL_TAG) as i64;
        self.reloc_to(adrp, RelocKind::Page21, Target::Pool, addend);
        self.reloc_to(ldr, RelocKind::PageOff12, Target::Pool, addend);
    }

    /// One relocation more.
    pub fn reloc(&mut self, at: u64, kind: RelocKind, target: Target)
        ensures
            final(self)@ == old(self)@.rel(at, kind, target@, 0),
    {
        self.reloc_to(at, kind, target, 0);
    }

    /// The word of code at an address, or zero past the end.
    pub fn word_at(&self, addr: u64) -> (r: u32)
        ensures
            r == word_of(self@.code, addr as int),
    {
        word_at(&self.bytes, addr)
    }

    /// Rewrites the word of code at an address; nothing past the end is written.
    pub fn set_word(&mut self, addr: u64, w: u32)
        ensures
            final(self)@ == old(self)@.set_word(addr, w),
    {
        set_word(&mut self.bytes, addr, w);
    }

    /// The two sections and the relocations that each still needs. A slot that names a byte of the
    /// pool carries the byte's offset as its relocation's addend.
    pub fn finish(self) -> (r: Emitted)
        ensures
            r.code@ == self@.code,
            rels(r.code_relocs@) == self@.relocs,
            r.pool@ == self@.pool,
            rels(r.pool_relocs@) == self@.targets.map_values(|t: (u64, Tg)| slot_rel(t)),
    {
        let mut pool_relocs: Vec<Reloc> = Vec::new();
        let mut i: usize = 0;
        while i < self.pool_targets.len()
            invariant
                i <= self.pool_targets.len(),
                pool_relocs.len() == i,
                forall|j: int|
                    0 <= j < i ==> (#[trigger] pool_relocs@[j])@ == slot_rel(self@.targets[j]),
            decreases self.pool_targets.len() - i,
        {
            let at: u64 = self.pool_targets[i].0;
            let r = match &self.pool_targets[i].1 {
                Target::Here(off) => Reloc {
                    at,
                    kind: RelocKind::Abs64,
                    target: Target::Pool,
                    addend: *off as i64,
                },
                other => Reloc { at, kind: RelocKind::Abs64, target: copy_target(other), addend: 0 },
            };
            assert(self@.targets[i as int] == (at, self.pool_targets@[i as int].1@));
            pool_relocs.push(r);
            i = i + 1;
        }
        assert(rels(pool_relocs@) =~= self@.targets.map_values(|t: (u64, Tg)| slot_rel(t)));
        Emitted { code: self.bytes, code_relocs: self.relocs, pool: self.pool, pool_relocs }
    }
}

impl Default for Region {
    fn default() -> (r: Region)
        ensures
            r@.wf(),
            r@.code.len() == 0,
            r@.pool.len() == 0,
            r@.relocs.len() == 0,
            r@.targets.len() == 0,
    {
        Region::new()
    }
}

/// The same target.
pub fn copy_target(t: &Target) -> (r: Target)
    ensures
        r@ == t@,
{
    match t {
        Target::Func(f) => Target::Func(*f),
        Target::Symbol(s) => Target::Symbol(s.clone()),
        Target::Here(o) => Target::Here(*o),
        Target::Pool => Target::Pool,
    }
}

/// Appending to the pool moves nothing that is in it.
proof fn lemma_grown(a: Rg, b: Rg, more: Seq<u8>)
    requires
        b.pool == a.aligned() + more || b.pool == a.pool + more,
    ensures
        forall|at: int, n: int|
            0 <= at <= n <= a.pool.len() ==> #[trigger] b.pool.subrange(at, n) == a.pool.subrange(
                at,
                n,
            ),
{
    assert forall|at: int, n: int| 0 <= at <= n <= a.pool.len() implies #[trigger] b.pool.subrange(
        at,
        n,
    ) == a.pool.subrange(at, n) by {
        assert(b.pool.subrange(at, n) =~= a.pool.subrange(at, n));
    }
}

/// A number that is pooled once more gets the handle it had, and the region stays as it is.
pub proof fn one_number_is_pooled_once(g: Rg, v: u64)
    ensures
        g.pool_u64(v).0.pool_u64(v) == g.pool_u64(v),
{
}

/// Two numbers in the pool of a well-formed region never share a slot.
pub proof fn two_numbers_have_two_slots(g: Rg, v: u64, w: u64)
    requires
        g.wf(),
        g.index.dom().contains(v),
        g.index.dom().contains(w),
        v != w,
    ensures
        g.index[v] != g.index[w],
        g.index[v] + 8 <= g.index[w] || g.index[w] + 8 <= g.index[v],
{
    crate::bytes::what_was_written_is_read64(Seq::empty(), v, Seq::empty());
    crate::bytes::what_was_written_is_read64(Seq::empty(), w, Seq::empty());
    assert(Seq::<u8>::empty() + le64(v) + Seq::<u8>::empty() =~= le64(v));
    assert(Seq::<u8>::empty() + le64(w) + Seq::<u8>::empty() =~= le64(w));
}

/// Every slot starts on a multiple of eight.
pub proof fn a_slot_is_aligned(g: Rg, v: u64)
    requires
        g.wf(),
        g.aligned().len() <= u64::MAX,
    ensures
        g.pool_u64(v).0.index[v] % 8 == 0,
        g.aligned().len() % 8 == 0,
{
    crate::bytes::a_gap_ends_on_a_multiple(g.pool.len(), 8);
}

} // verus!
