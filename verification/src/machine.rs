//! A machine that runs operations.
//!
//! What a stencil does is the library's business. Here it is what is asked of a machine: each
//! predicate says what a family of stencils does to a frame, and what a selection comes to is stated
//! for every machine that meets them.

use crate::bytes::{le32, le64, of64, what_was_written_is_read64};
use crate::copies::{copied, Frame};
use crate::select::{unit, Env, Helper, Item, Sel, H, V};
use crate::text::decimal;
use vstd::prelude::*;

verus! {

// ---------------------------------------------------------------------------
// Memory
// ---------------------------------------------------------------------------

/// The word at an offset.
#[verifier::opaque]
pub open spec fn word(m: Frame, a: int) -> u64 {
    of64(Seq::new(8, |i: int| m(a + i)), 0)
}

/// Memory with a word at an offset.
#[verifier::opaque]
pub open spec fn put(m: Frame, a: int, v: u64) -> Frame {
    |x: int|
        if a <= x < a + 8 {
            le64(v)[x - a]
        } else {
            m(x)
        }
}

/// Whether two places have no byte in common.
pub open spec fn clear(a: int, n: int, b: int, k: int) -> bool {
    a + n <= b || b + k <= a
}

pub broadcast proof fn word_of_put(m: Frame, a: int, v: u64)
    ensures
        #[trigger] word(put(m, a, v), a) == v,
{
    reveal(word);
    reveal(put);
    let n = put(m, a, v);
    let s = Seq::new(8, |i: int| n(a + i));
    let none = Seq::<u8>::empty();
    what_was_written_is_read64(none, v, none);
    assert(none + le64(v) + none =~= s);
}

pub broadcast proof fn word_beside_put(m: Frame, a: int, v: u64, b: int)
    requires
        clear(a, 8, b, 8),
    ensures
        #[trigger] word(put(m, a, v), b) == word(m, b),
{
    reveal(word);
    reveal(put);
    let n = put(m, a, v);
    assert(Seq::new(8, |i: int| n(b + i)) =~= Seq::new(8, |i: int| m(b + i)));
}

pub broadcast proof fn word_of_copied(m: Frame, to: int, from: int, n: int, b: int)
    requires
        to <= b,
        b + 8 <= to + n,
    ensures
        #[trigger] word(copied(m, to, from, n), b) == word(m, from + (b - to)),
{
    reveal(word);
    let c = copied(m, to, from, n);
    assert(Seq::new(8, |i: int| c(b + i)) =~= Seq::new(8, |i: int| m(from + (b - to) + i)));
}

pub broadcast proof fn word_beside_copied(m: Frame, to: int, from: int, n: int, b: int)
    requires
        clear(to, n, b, 8),
    ensures
        #[trigger] word(copied(m, to, from, n), b) == word(m, b),
{
    reveal(word);
    let c = copied(m, to, from, n);
    assert(Seq::new(8, |i: int| c(b + i)) =~= Seq::new(8, |i: int| m(b + i)));
}

pub broadcast proof fn byte_beside_put(m: Frame, a: int, v: u64, x: int)
    requires
        x < a || a + 8 <= x,
    ensures
        #[trigger] put(m, a, v)(x) == m(x),
{
    reveal(put);
}

pub proof fn lemma_zero_bytes()
    ensures
        forall|i: int| 0 <= i < 8 ==> #[trigger] le64(0)[i] == 0,
{
    assert((0u64 & 0xffff_ffff) as u32 == 0 && (0u64 >> 32) as u32 == 0) by (bit_vector);
    assert((0u32 & 0xff) as u8 == 0 && ((0u32 >> 8) & 0xff) as u8 == 0 && ((0u32 >> 16) & 0xff)
        as u8 == 0 && ((0u32 >> 24) & 0xff) as u8 == 0) by (bit_vector);
    let z = le32(0);
    assert(z.len() == 4 && z[0] == 0 && z[1] == 0 && z[2] == 0 && z[3] == 0);
    assert(le64(0) =~= z + z);
}

// ---------------------------------------------------------------------------
// Machines
// ---------------------------------------------------------------------------

/// One change of the count of a block: by one up or down, and the helper that its contents are left
/// to if it dies of it.
pub struct Touch {
    pub block: u64,
    pub up: bool,
    pub glue: Option<Helper>,
}

/// What operations change: the frame, the memory behind pointers with what of it is in use, the two
/// register files, what was done to the counts of blocks, and whether memory ran out.
pub struct St {
    pub frame: Frame,
    pub heap: Frame,
    pub used: spec_fn(int) -> bool,
    pub regs: spec_fn(u8) -> u64,
    pub floats: spec_fn(u8) -> u64,
    pub log: Seq<Touch>,
    pub stopped: bool,
}

impl St {
    /// The word at a frame offset.
    pub open spec fn at(self, a: u64) -> u64 {
        word(self.frame, a as int)
    }

    /// With a word at a frame offset.
    pub open spec fn with(self, a: u64, v: u64) -> St {
        St { frame: put(self.frame, a as int, v), ..self }
    }

    /// With bytes of the frame copied.
    pub open spec fn moved(self, to: u64, from: u64, n: u64) -> St {
        St { frame: copied(self.frame, to as int, from as int, n as int), ..self }
    }
}

/// Memory with `n` bytes at `to` of those at `from` in another.
pub open spec fn lifted(m: Frame, to: int, o: Frame, from: int, n: int) -> Frame {
    |x: int|
        if to <= x < to + n {
            o(from + (x - to))
        } else {
            m(x)
        }
}

/// Memory with a word at `to`: `n` bytes of those at `from` in another, and zeros above them.
pub open spec fn extended(m: Frame, to: int, o: Frame, from: int, n: int) -> Frame {
    |x: int|
        if to <= x < to + n {
            o(from + (x - to))
        } else if to + n <= x < to + 8 {
            0
        } else {
            m(x)
        }
}

/// What each operation does, and whether the test of a two-way one holds.
pub struct Machine {
    pub does: spec_fn(Item, St) -> St,
    pub holds: spec_fn(Item, St) -> bool,
}

/// The operation of a stencil from `a` to `d`.
pub open spec fn op_da(key: Seq<char>, d: u64, a: u64) -> Item {
    Item::Stencil { key, binds: seq![(H::D, V::I(d)), (H::A, V::I(a)), (H::Cont, V::Fall)] }
}

/// The operation of a stencil from `a` and `b` to `d`.
pub open spec fn op_dab(key: Seq<char>, d: u64, a: u64, b: u64) -> Item {
    Item::Stencil {
        key,
        binds: seq![(H::D, V::I(d)), (H::A, V::I(a)), (H::B, V::I(b)), (H::Cont, V::Fall)],
    }
}

/// The operation of a stencil from `a` and the literal `k` to `d`.
pub open spec fn op_dak(key: Seq<char>, d: u64, a: u64, k: u64) -> Item {
    Item::Stencil {
        key,
        binds: seq![(H::D, V::I(d)), (H::A, V::I(a)), (H::K, V::I(k)), (H::Cont, V::Fall)],
    }
}

/// The operation that writes a literal word.
pub open spec fn op_imm(d: u64, v: u64) -> Item {
    if v == 0 {
        Item::Stencil { key: "imm/z"@, binds: seq![(H::D, V::I(d)), (H::Cont, V::Fall)] }
    } else if v < 0x1_0000_0000 {
        Item::Stencil {
            key: "imm/32"@,
            binds: seq![(H::D, V::I(d)), (H::N, V::I(v)), (H::Cont, V::Fall)],
        }
    } else {
        Item::Stencil {
            key: "imm/64"@,
            binds: seq![(H::D, V::I(d)), (H::M, V::I(v)), (H::Cont, V::Fall)],
        }
    }
}

/// The operation of a branch on the word at `a`.
pub open spec fn op_test(key: Seq<char>, a: u64, tv: V, fv: V) -> Item {
    Item::Stencil { key, binds: seq![(H::A, V::I(a)), (H::T, tv), (H::F, fv)] }
}

/// The operation of a branch that compares the word at `a` with the literal `k`.
pub open spec fn op_test_k(key: Seq<char>, a: u64, k: u64, tv: V, fv: V) -> Item {
    Item::Stencil { key, binds: seq![(H::A, V::I(a)), (H::K, V::I(k)), (H::T, tv), (H::F, fv)] }
}

/// The operation of a branch that compares the words at `a` and `b`.
pub open spec fn op_test_b(key: Seq<char>, a: u64, b: u64, tv: V, fv: V) -> Item {
    Item::Stencil { key, binds: seq![(H::A, V::I(a)), (H::B, V::I(b)), (H::T, tv), (H::F, fv)] }
}

/// The operation that copies between the frame and element `i` of a block, the distance of two
/// elements being `p`.
pub open spec fn op_elem(key: Seq<char>, d: u64, a: u64, i: u64, p: u64) -> Item {
    Item::Stencil {
        key,
        binds: seq![
            (H::D, V::I(d)),
            (H::A, V::I(a)),
            (H::B, V::I(i)),
            (H::P, V::I(p)),
            (H::Cont, V::Fall),
        ],
    }
}

/// The same of a number of bytes that the key does not say.
pub open spec fn op_elem_n(key: Seq<char>, d: u64, a: u64, i: u64, p: u64, n: u64) -> Item {
    Item::Stencil {
        key,
        binds: seq![
            (H::D, V::I(d)),
            (H::A, V::I(a)),
            (H::B, V::I(i)),
            (H::P, V::I(p)),
            (H::N, V::I(n)),
            (H::Cont, V::Fall),
        ],
    }
}

/// The operation that makes a block of elements, the distance of two being `p`.
pub open spec fn op_alloc(d: u64, n: u64, p: u64) -> Item {
    Item::Stencil {
        key: "elemalloc"@,
        binds: seq![(H::D, V::I(d)), (H::A, V::I(n)), (H::P, V::I(p)), (H::Cont0, V::Fall)],
    }
}

/// The operation that writes a literal of a field's width.
pub open spec fn op_immw(n: nat, d: u64, v: u64) -> Item {
    Item::Stencil {
        key: "immw/"@ + decimal(n),
        binds: seq![(H::D, V::I(d)), (H::N, V::I(v)), (H::Cont, V::Fall)],
    }
}

/// The operation of a jump.
pub open spec fn op_jump(to: V) -> Item {
    Item::Stencil { key: "jump"@, binds: seq![(H::T, to)] }
}

/// Whether a key is a stencil's, or its twin's with the arms the other way round in the code.
pub open spec fn twin(key: Seq<char>, base: Seq<char>) -> bool {
    key == base || key == base + "+swap"@
}

pub broadcast proof fn arm_is_a_twin(e: Env, base: Seq<char>, fall: H)
    ensures
        twin(#[trigger] e.arm(base, fall), base),
{
}

/// Labels and jumps do nothing but lead on.
pub open spec fn leads(m: Machine) -> bool {
    &&& forall|l: usize, st: St| #[trigger] (m.does)(Item::Place(l), st) == st
    &&& forall|to: V, st: St| #[trigger] (m.does)(op_jump(to), st) == st
}

/// Copies copy, and literals are written.
pub open spec fn copies_words(m: Machine) -> bool {
    &&& forall|n: nat, d: u64, a: u64, st: St|
        0 < n <= 32 ==> #[trigger] (m.does)(op_da("mov/"@ + decimal(n), d, a), st) == st.moved(
            d,
            a,
            n as u64,
        )
    &&& forall|d: u64, v: u64, st: St| #[trigger] (m.does)(op_imm(d, v), st) == st.with(d, v)
}

/// Truth values and words are tested.
pub open spec fn tests_words(m: Machine) -> bool {
    &&& forall|key: Seq<char>, a: u64, tv: V, fv: V, st: St|
        twin(key, "br/f"@) ==> #[trigger] (m.does)(op_test(key, a, tv, fv), st) == st && (m.holds)(
            op_test(key, a, tv, fv),
            st,
        ) == (st.at(a) != 0)
    &&& forall|key: Seq<char>, a: u64, k: u64, tv: V, fv: V, st: St|
        twin(key, "brcmp/eq/u64/fi"@) ==> #[trigger] (m.does)(op_test_k(key, a, k, tv, fv), st)
            == st && (m.holds)(op_test_k(key, a, k, tv, fv), st) == (st.at(a) == k)
    &&& forall|key: Seq<char>, a: u64, b: u64, tv: V, fv: V, st: St|
        twin(key, "brcmp/lt/u64/ff"@) ==> #[trigger] (m.does)(op_test_b(key, a, b, tv, fv), st)
            == st && (m.holds)(op_test_b(key, a, b, tv, fv), st) == (st.at(a) < st.at(b))
    &&& forall|key: Seq<char>, a: u64, b: u64, tv: V, fv: V, st: St|
        twin(key, "brcmp/eq/u64/ff"@) ==> #[trigger] (m.does)(op_test_b(key, a, b, tv, fv), st)
            == st && (m.holds)(op_test_b(key, a, b, tv, fv), st) == (st.at(a) == st.at(b))
}

/// Words are added where the sum is a word, and compared.
pub open spec fn adds_words(m: Machine) -> bool {
    &&& forall|d: u64, a: u64, b: u64, st: St|
        st.at(a) + st.at(b) <= u64::MAX ==> #[trigger] (m.does)(
            op_dab("bin/add/u64/ff/f"@, d, a, b),
            st,
        ) == st.with(d, (st.at(a) + st.at(b)) as u64)
    &&& forall|d: u64, a: u64, k: u64, st: St|
        st.at(a) + k <= u64::MAX ==> #[trigger] (m.does)(
            op_dak("bin/add/u64/fi/f"@, d, a, k),
            st,
        ) == st.with(d, (st.at(a) + k) as u64)
    &&& forall|d: u64, a: u64, b: u64, st: St| #[trigger]
        (m.does)(op_dab("bin/lt/u64/ff/f"@, d, a, b), st) == st.with(
            d,
            if st.at(a) < st.at(b) {
                1
            } else {
                0
            },
        )
}

/// Fields narrower than a word are written at their own width and read with zeros above.
pub open spec fn moves_fields(m: Machine) -> bool {
    &&& forall|n: nat, d: u64, a: u64, st: St|
        (n == 1 || n == 2 || n == 4) ==> #[trigger] (m.does)(
            op_da("store/"@ + decimal(n), d, a),
            st,
        ) == st.moved(d, a, n as u64)
    &&& forall|n: nat, d: u64, a: u64, st: St|
        (n == 1 || n == 2 || n == 4) ==> #[trigger] (m.does)(
            op_da("loadu/"@ + decimal(n), d, a),
            st,
        ) == (St {
            frame: extended(st.frame, d as int, st.frame, a as int, n as int),
            ..st
        })
    &&& forall|n: nat, d: u64, v: u64, st: St|
        (n == 1 || n == 2 || n == 4) ==> #[trigger] (m.does)(op_immw(n, d, v), st) == (St {
            frame: lifted(st.frame, d as int, |x: int| le64(v)[x], 0, n as int),
            ..st
        })
}

/// Where an element of the block that `a` points to is.
pub open spec fn element(st: St, a: u64, i: u64, p: u64) -> int {
    st.at(a) + st.at(i) * p
}

/// Whether a key is that of a family at a width, or its twin for elements with nothing in between.
pub open spec fn wide_key(key: Seq<char>, stem: Seq<char>, n: u64, p: u64) -> bool {
    key == stem + decimal(n as nat) || (p == n && key == stem + decimal(n as nat) + "/s"@)
}

/// Elements are copied to the frame and back, and blocks are made.
pub open spec fn moves_elements(m: Machine) -> bool {
    &&& forall|key: Seq<char>, d: u64, a: u64, i: u64, p: u64, n: u64, st: St|
        wide_key(key, "eload/"@, n, p) ==> #[trigger] (m.does)(op_elem(key, d, a, i, p), st)
            == loaded(st, d, #[trigger] copy_of(st, a, i, p, n))
    &&& forall|d: u64, a: u64, i: u64, p: u64, n: u64, st: St| #[trigger]
        (m.does)(op_elem_n("eload/n"@, d, a, i, p, n), st) == loaded(st, d, copy_of(st, a, i, p, n))
    &&& forall|key: Seq<char>, d: u64, a: u64, i: u64, p: u64, n: u64, st: St|
        wide_key(key, "eloadz/"@, n, p) ==> #[trigger] (m.does)(op_elem(key, d, a, i, p), st)
            == loaded_word(st, d, #[trigger] copy_of(st, a, i, p, n))
    &&& forall|key: Seq<char>, d: u64, a: u64, i: u64, p: u64, n: u64, st: St|
        wide_key(key, "estore/"@, n, p) ==> #[trigger] (m.does)(op_elem(key, d, a, i, p), st)
            == stored(st, d, #[trigger] copy_of(st, a, i, p, n))
    &&& forall|d: u64, a: u64, i: u64, p: u64, n: u64, st: St| #[trigger]
        (m.does)(op_elem_n("estore/n"@, d, a, i, p, n), st) == stored(
            st,
            d,
            copy_of(st, a, i, p, n),
        )
}

/// Bytes behind a pointer.
pub struct Behind {
    pub at: int,
    pub n: int,
}

/// The `n` bytes of an element.
pub open spec fn copy_of(st: St, a: u64, i: u64, p: u64, n: u64) -> Behind {
    Behind { at: element(st, a, i, p), n: n as int }
}

/// With bytes of a block copied to the frame.
pub open spec fn loaded(st: St, d: u64, b: Behind) -> St {
    St { frame: lifted(st.frame, d as int, st.heap, b.at, b.n), ..st }
}

/// With bytes of a block copied to a word of the frame.
pub open spec fn loaded_word(st: St, d: u64, b: Behind) -> St {
    St { frame: extended(st.frame, d as int, st.heap, b.at, b.n), ..st }
}

/// With bytes of the frame copied to a block.
pub open spec fn stored(st: St, d: u64, b: Behind) -> St {
    St { heap: lifted(st.heap, b.at, st.frame, d as int, b.n), ..st }
}

/// Whether a state is another with a new block of `size` bytes, whose address is at `d`: apart from
/// all that was in use, which keeps what it holds.
pub open spec fn made(st: St, after: St, d: u64, size: int) -> bool {
    let q = after.at(d) as int;
    &&& q != 0
    &&& after.stopped == st.stopped
    &&& after.frame == put(st.frame, d as int, q as u64)
    &&& after.regs == st.regs
    &&& after.floats == st.floats
    &&& forall|x: int| q <= x < q + size ==> !#[trigger] (st.used)(x)
    &&& forall|x: int|
        #![trigger (after.used)(x)]
        (after.used)(x) == ((st.used)(x) || q <= x < q + size)
    &&& forall|x: int| #[trigger] (st.used)(x) ==> (after.heap)(x) == (st.heap)(x)
    &&& after.log == st.log
}

/// Blocks are made, until memory runs out.
pub open spec fn makes_blocks(m: Machine) -> bool {
    forall|d: u64, n: u64, p: u64, st: St|
        #![trigger (m.does)(op_alloc(d, n, p), st)]
        (m.does)(op_alloc(d, n, p), st).stopped || made(
            st,
            (m.does)(op_alloc(d, n, p), st),
            d,
            st.at(n) * p,
        )
}

/// What a hole is bound to.
pub open spec fn hole(binds: Seq<(H, V)>, h: H, i: int) -> Option<V>
    decreases binds.len() - i,
{
    if i >= binds.len() {
        None
    } else if binds[i].0 == h {
        Some(binds[i].1)
    } else {
        hole(binds, h, i + 1)
    }
}

/// Operations on a machine, with where each label is.
pub struct Run {
    pub m: Machine,
    pub os: Seq<Item>,
    pub at: spec_fn(usize) -> int,
}

impl Run {
    /// Whether every label is where it was put.
    pub open spec fn wf(self) -> bool {
        forall|i: int|
            0 <= i < self.os.len() ==> ((#[trigger] self.os[i]) matches Item::Place(l) ==> (self.at)(
                l,
            ) == i)
    }

    /// Whether the operations start with those of a selection.
    pub open spec fn has(self, s: Sel) -> bool {
        s.ops.len() <= self.os.len() && forall|i: int|
            0 <= i < s.ops.len() ==> #[trigger] self.os[i] == s.ops[i]
    }

    /// Where control goes: what is bound to nothing else goes on.
    pub open spec fn goto(self, v: Option<V>, pc: int) -> int {
        match v {
            Some(V::Blk(l)) => (self.at)(l),
            _ => pc + 1,
        }
    }

    /// The operation behind one.
    pub open spec fn next(self, pc: int, st: St) -> int {
        match self.os[pc] {
            Item::Stencil { key, binds } => match hole(binds, H::F, 0) {
                Some(f) => if (self.m.holds)(self.os[pc], st) {
                    self.goto(hole(binds, H::T, 0), pc)
                } else {
                    self.goto(Some(f), pc)
                },
                None => self.goto(hole(binds, H::T, 0), pc),
            },
            _ => pc + 1,
        }
    }

    /// Where control is after `n` operations, and what has become of the state.
    pub open spec fn steps(self, pc: int, st: St, n: nat) -> (int, St)
        decreases n,
    {
        if n == 0 {
            (pc, st)
        } else {
            self.steps(self.next(pc, st), (self.m.does)(self.os[pc], st), (n - 1) as nat)
        }
    }

    /// Whether running from one operation gets to another, and from one state to another.
    #[verifier::opaque]
    pub open spec fn goes(self, pc: int, st: St, to: int, after: St) -> bool {
        exists|n: nat| #[trigger] self.steps(pc, st, n) == (to, after)
    }

    /// Whether running from an operation runs out of memory.
    #[verifier::opaque]
    pub open spec fn stops(self, pc: int, st: St) -> bool {
        exists|to: int, after: St| #[trigger] self.goes(pc, st, to, after) && after.stopped
    }

    /// Running to where memory runs out.
    pub proof fn lemma_stops(self, a: int, s: St, b: int, t: St)
        requires
            self.goes(a, s, b, t),
            self.stops(b, t),
        ensures
            self.stops(a, s),
    {
        reveal(Run::stops);
        let (to, after) = choose|to: int, after: St| #[trigger]
            self.goes(b, t, to, after) && after.stopped;
        self.lemma_on(a, s, b, t, to, after);
    }

    pub proof fn lemma_stays(self, pc: int, st: St)
        ensures
            self.goes(pc, st, pc, st),
    {
        reveal(Run::goes);
        assert(self.steps(pc, st, 0) == (pc, st));
    }

    pub proof fn lemma_one(self, pc: int, st: St)
        ensures
            self.goes(pc, st, self.next(pc, st), (self.m.does)(self.os[pc], st)),
    {
        reveal(Run::goes);
        reveal_with_fuel(Run::steps, 2);
        assert(self.steps(pc, st, 1) == (self.next(pc, st), (self.m.does)(self.os[pc], st)));
    }

    proof fn lemma_steps(self, pc: int, st: St, n: nat, k: nat)
        ensures
            self.steps(pc, st, n + k) == self.steps(
                self.steps(pc, st, n).0,
                self.steps(pc, st, n).1,
                k,
            ),
        decreases n,
    {
        if n > 0 {
            self.lemma_steps(
                self.next(pc, st),
                (self.m.does)(self.os[pc], st),
                (n - 1) as nat,
                k,
            );
        }
    }

    /// Running on from where a run got to.
    pub proof fn lemma_on(self, a: int, s: St, b: int, t: St, c: int, u: St)
        requires
            self.goes(a, s, b, t),
            self.goes(b, t, c, u),
        ensures
            self.goes(a, s, c, u),
    {
        reveal(Run::goes);
        let n = choose|n: nat| #[trigger] self.steps(a, s, n) == (b, t);
        let k = choose|k: nat| #[trigger] self.steps(b, t, k) == (c, u);
        self.lemma_steps(a, s, n, k);
        assert(self.steps(a, s, n + k) == (c, u));
    }

    /// One operation that leads on to the next.
    pub proof fn lemma_add(self, s: Sel, o: Item, st: St)
        requires
            self.has(s.add(o)),
            match o {
                Item::Stencil { key, binds } => hole(binds, H::T, 0) is None && hole(
                    binds,
                    H::F,
                    0,
                ) is None,
                _ => true,
            },
        ensures
            self.has(s),
            self.goes(s.ops.len() as int, st, s.ops.len() as int + 1, (self.m.does)(o, st)),
    {
        let pc = s.ops.len() as int;
        assert(self.os[pc] == s.add(o).ops[pc]);
        assert forall|i: int| 0 <= i < s.ops.len() implies #[trigger] self.os[i] == s.ops[i] by {
            assert(s.add(o).ops[i] == s.ops[i]);
        }
        self.lemma_one(pc, st);
    }

    /// A two-way operation.
    pub proof fn lemma_two(self, s: Sel, o: Item, tv: V, fv: V, st: St)
        requires
            self.has(s.add(o)),
            o is Stencil,
            hole(o->Stencil_binds, H::T, 0) == Some(tv),
            hole(o->Stencil_binds, H::F, 0) == Some(fv),
        ensures
            self.has(s),
            self.goes(
                s.ops.len() as int,
                st,
                self.goto(
                    Some(
                        if (self.m.holds)(o, st) {
                            tv
                        } else {
                            fv
                        },
                    ),
                    s.ops.len() as int,
                ),
                (self.m.does)(o, st),
            ),
    {
        let pc = s.ops.len() as int;
        assert(self.os[pc] == s.add(o).ops[pc]);
        assert forall|i: int| 0 <= i < s.ops.len() implies #[trigger] self.os[i] == s.ops[i] by {
            assert(s.add(o).ops[i] == s.ops[i]);
        }
        self.lemma_one(pc, st);
    }

    /// A label.
    pub proof fn lemma_place(self, s: Sel, l: usize, st: St)
        requires
            self.wf(),
            leads(self.m),
            self.has(s.place(l)),
        ensures
            self.has(s),
            (self.at)(l) == s.ops.len(),
            self.goes(s.ops.len() as int, st, s.ops.len() as int + 1, st),
    {
        self.lemma_add(s, Item::Place(l), st);
        let pc = s.ops.len() as int;
        assert(self.os[pc] == s.place(l).ops[pc]);
    }

    /// A jump.
    pub proof fn lemma_jump(self, s: Sel, to: V, st: St)
        requires
            leads(self.m),
            self.has(s.jump(to)),
        ensures
            self.has(s),
            self.goes(s.ops.len() as int, st, self.goto(Some(to), s.ops.len() as int), st),
    {
        let o = op_jump(to);
        let pc = s.ops.len() as int;
        assert(s.jump(to) == s.add(o));
        reveal_with_fuel(hole, 3);
        assert(self.os[pc] == s.add(o).ops[pc]);
        assert forall|i: int| 0 <= i < s.ops.len() implies #[trigger] self.os[i] == s.ops[i] by {
            assert(s.add(o).ops[i] == s.ops[i]);
        }
        self.lemma_one(pc, st);
    }

    /// A literal word.
    pub proof fn lemma_imm(self, s: Sel, d: u64, v: u64, st: St)
        requires
            copies_words(self.m),
            self.has(s.imm_to(d, v)),
        ensures
            self.has(s),
            s.imm_to(d, v).ops.len() == s.ops.len() + 1,
            self.goes(s.ops.len() as int, st, s.ops.len() as int + 1, st.with(d, v)),
    {
        let o = op_imm(d, v);
        assert(s.imm_to(d, v) == s.add(o));
        reveal_with_fuel(hole, 4);
        self.lemma_add(s, o, st);
    }

    /// A copy of bytes, as a run of copies.
    pub proof fn lemma_run(self, s: Sel, d: u64, a: u64, n: u64, st: St)
        requires
            copies_words(self.m),
            self.has(s.run(d, a, n)),
            d + n <= u64::MAX,
            a + n <= u64::MAX,
            clear(d as int, n as int, a as int, n as int),
        ensures
            self.has(s),
            s.ops.len() <= s.run(d, a, n).ops.len(),
            self.goes(
                s.ops.len() as int,
                st,
                s.run(d, a, n).ops.len() as int,
                st.moved(d, a, n),
            ),
        decreases n,
    {
        if n == 0 {
            assert(copied(st.frame, d as int, a as int, 0) =~= st.frame);
            assert(st.moved(d, a, 0) == st);
            self.lemma_stays(s.ops.len() as int, st);
        } else {
            let k = unit(n);
            let key = "mov/"@ + decimal(k as nat);
            let o = op_da(key, d, a);
            let t = s.da(key, d, a);
            assert(t == s.add(o));
            let mid = st.moved(d, a, k);
            self.lemma_run(t, (d + k) as u64, (a + k) as u64, (n - k) as u64, mid);
            reveal_with_fuel(hole, 5);
            self.lemma_add(s, o, st);
            let end = mid.moved((d + k) as u64, (a + k) as u64, (n - k) as u64);
            assert(end.frame =~= st.moved(d, a, n).frame);
            assert(end == st.moved(d, a, n));
            self.lemma_on(
                s.ops.len() as int,
                st,
                t.ops.len() as int,
                mid,
                s.run(d, a, n).ops.len() as int,
                end,
            );
        }
    }

    /// A copy of bytes between two places that are one or have none in common.
    pub proof fn lemma_mv(self, s: Sel, d: u64, a: u64, n: u64, st: St)
        requires
            copies_words(self.m),
            self.has(s.mv(d, a, n)),
            d + n <= u64::MAX,
            a + n <= u64::MAX,
            d == a || clear(d as int, n as int, a as int, n as int),
        ensures
            self.has(s),
            s.ops.len() <= s.mv(d, a, n).ops.len(),
            self.goes(
                s.ops.len() as int,
                st,
                s.mv(d, a, n).ops.len() as int,
                st.moved(d, a, n),
            ),
    {
        if n == 0 || d == a {
            assert(st.moved(d, a, n).frame =~= st.frame);
            assert(st.moved(d, a, n) == st);
            self.lemma_stays(s.ops.len() as int, st);
        } else {
            self.lemma_run(s, d, a, n, st);
        }
    }

    /// A new block of elements.
    pub proof fn lemma_alloc(self, s: Sel, d: u64, n: u64, p: u64, st: St) -> (after: St)
        requires
            makes_blocks(self.m),
            self.has(s.new_elems(d, n, p)),
        ensures
            self.has(s),
            s.new_elems(d, n, p).ops.len() == s.ops.len() + 1,
            self.stops(s.ops.len() as int, st) || (self.goes(
                s.ops.len() as int,
                st,
                s.ops.len() as int + 1,
                after,
            ) && made(st, after, d, st.at(n) * p)),
    {
        reveal(Run::stops);
        let o = op_alloc(d, n, p);
        assert(s.new_elems(d, n, p) == s.add(o));
        reveal_with_fuel(hole, 6);
        self.lemma_add(s, o, st);
        (self.m.does)(o, st)
    }

    /// A value of the frame into an element.
    pub proof fn lemma_elem_store(
        self,
        s: Sel,
        e: Env,
        d: u64,
        a: u64,
        i: u64,
        p: u64,
        n: u64,
        st: St,
    )
        requires
            moves_elements(self.m),
            self.has(s.elem_store(e, d, a, i, p, n)),
        ensures
            self.has(s),
            s.elem_store(e, d, a, i, p, n).ops.len() == s.ops.len() + 1,
            self.goes(
                s.ops.len() as int,
                st,
                s.ops.len() as int + 1,
                stored(st, d, copy_of(st, a, i, p, n)),
            ),
    {
        let t = s.elem_store(e, d, a, i, p, n);
        let plain = "estore/"@ + decimal(n as nat);
        let baked = "estore/"@ + decimal(n as nat) + "/s"@;
        let key = if p == n && !e.sw.no_stride && e.has(baked) {
            baked
        } else {
            plain
        };
        reveal_with_fuel(hole, 8);
        if e.has(key) {
            let o = op_elem(key, d, a, i, p);
            assert(t == s.add(o));
            assert(wide_key(key, "estore/"@, n, p));
            self.lemma_add(s, o, st);
            let b = copy_of(st, a, i, p, n);
            assert((self.m.does)(o, st) == stored(st, d, b));
        } else {
            assert("estore/"@ + "n"@ == "estore/n"@) by {
                reveal_strlit("estore/");
                reveal_strlit("n");
                reveal_strlit("estore/n");
                assert("estore/"@ + "n"@ =~= "estore/n"@);
            }
            let o = op_elem_n("estore/n"@, d, a, i, p, n);
            assert(t == s.add(o));
            self.lemma_add(s, o, st);
        }
    }

    /// An element into the frame.
    pub proof fn lemma_elem_load(
        self,
        s: Sel,
        e: Env,
        d: u64,
        a: u64,
        i: u64,
        p: u64,
        n: u64,
        st: St,
    )
        requires
            copies_words(self.m),
            moves_elements(self.m),
            self.has(s.elem_load(e, d, a, i, p, n)),
            clear(d as int, 8, a as int, 8),
            clear(d as int, 8, i as int, 8),
        ensures
            self.has(s),
            s.ops.len() < s.elem_load(e, d, a, i, p, n).ops.len(),
            self.goes(
                s.ops.len() as int,
                st,
                s.elem_load(e, d, a, i, p, n).ops.len() as int,
                if n < 8 {
                    loaded_word(st, d, copy_of(st, a, i, p, n))
                } else {
                    loaded(st, d, copy_of(st, a, i, p, n))
                },
            ),
    {
        let t = s.elem_load(e, d, a, i, p, n);
        let zk = if p == n && !e.sw.no_stride {
            "eloadz/"@ + decimal(n as nat) + "/s"@
        } else {
            "eloadz/"@ + decimal(n as nat)
        };
        let b = copy_of(st, a, i, p, n);
        reveal_with_fuel(hole, 8);
        if n < 8 && e.has(zk) {
            let o = op_elem(zk, d, a, i, p);
            assert(t == s.add(o));
            assert(wide_key(zk, "eloadz/"@, n, p));
            self.lemma_add(s, o, st);
            assert((self.m.does)(o, st) == loaded_word(st, d, b));
        } else if n < 8 {
            let z = s.imm_to(d, 0);
            let mid = st.with(d, 0);
            assert(t == z.elem_copy(e, "eload/"@, d, a, i, p, n));
            self.lemma_eload(z, e, d, a, i, p, n, mid);
            self.lemma_imm(s, d, 0, st);
            assert(mid.at(a) == st.at(a) && mid.at(i) == st.at(i)) by {
                broadcast use word_beside_put;

            }
            let end = loaded(mid, d, b);
            assert(end.frame =~= loaded_word(st, d, b).frame) by {
                reveal(put);
                lemma_zero_bytes();
            }
            assert(end == loaded_word(st, d, b));
            self.lemma_on(s.ops.len() as int, st, z.ops.len() as int, mid, t.ops.len() as int, end);
        } else {
            self.lemma_eload(s, e, d, a, i, p, n, st);
        }
    }

    proof fn lemma_eload(self, s: Sel, e: Env, d: u64, a: u64, i: u64, p: u64, n: u64, st: St)
        requires
            moves_elements(self.m),
            self.has(s.elem_copy(e, "eload/"@, d, a, i, p, n)),
        ensures
            self.has(s),
            s.elem_copy(e, "eload/"@, d, a, i, p, n).ops.len() == s.ops.len() + 1,
            self.goes(
                s.ops.len() as int,
                st,
                s.ops.len() as int + 1,
                loaded(st, d, copy_of(st, a, i, p, n)),
            ),
    {
        let t = s.elem_copy(e, "eload/"@, d, a, i, p, n);
        let plain = "eload/"@ + decimal(n as nat);
        let baked = "eload/"@ + decimal(n as nat) + "/s"@;
        let key = if p == n && !e.sw.no_stride && e.has(baked) {
            baked
        } else {
            plain
        };
        reveal_with_fuel(hole, 8);
        if e.has(key) {
            let o = op_elem(key, d, a, i, p);
            assert(t == s.add(o));
            assert(wide_key(key, "eload/"@, n, p));
            self.lemma_add(s, o, st);
            let b = copy_of(st, a, i, p, n);
            assert((self.m.does)(o, st) == loaded(st, d, b));
        } else {
            assert("eload/"@ + "n"@ == "eload/n"@) by {
                reveal_strlit("eload/");
                reveal_strlit("n");
                reveal_strlit("eload/n");
                assert("eload/"@ + "n"@ =~= "eload/n"@);
            }
            let o = op_elem_n("eload/n"@, d, a, i, p, n);
            assert(t == s.add(o));
            self.lemma_add(s, o, st);
        }
    }

    /// Where an arm of a test leads: to a label, or on behind the test.
    pub open spec fn arm(self, v: V, behind: Sel) -> int {
        match v {
            V::Blk(l) => (self.at)(l),
            _ => behind.ops.len() as int,
        }
    }

    /// A branch that compares the words at `a` and `b`, as one operation.
    pub proof fn lemma_test_b(self, s: Sel, key: Seq<char>, a: u64, b: u64, tv: V, fv: V, st: St)
        requires
            tests_words(self.m),
            twin(key, "brcmp/lt/u64/ff"@) || twin(key, "brcmp/eq/u64/ff"@),
            self.has(s.test_b(key, a, b, tv, fv)),
        ensures
            self.has(s),
            s.test_b(key, a, b, tv, fv).ops.len() == s.ops.len() + 1,
            twin(key, "brcmp/lt/u64/ff"@) ==> self.goes(
                s.ops.len() as int,
                st,
                self.arm(
                    if st.at(a) < st.at(b) {
                        tv
                    } else {
                        fv
                    },
                    s.test_b(key, a, b, tv, fv),
                ),
                st,
            ),
            twin(key, "brcmp/eq/u64/ff"@) ==> self.goes(
                s.ops.len() as int,
                st,
                self.arm(
                    if st.at(a) == st.at(b) {
                        tv
                    } else {
                        fv
                    },
                    s.test_b(key, a, b, tv, fv),
                ),
                st,
            ),
    {
        let o = op_test_b(key, a, b, tv, fv);
        assert(s.test_b(key, a, b, tv, fv) == s.add(o));
        reveal_with_fuel(hole, 6);
        self.lemma_two(s, o, tv, fv, st);
    }

    /// A branch on whether the word at `a` is below that at `b`.
    pub proof fn lemma_br_lt(
        self,
        s: Sel,
        e: Env,
        a: u64,
        b: u64,
        tv: V,
        fv: V,
        fall: H,
        st: St,
    ) -> (after: St)
        requires
            tests_words(self.m),
            adds_words(self.m),
            self.has(s.br_lt(e, a, b, tv, fv, fall)),
        ensures
            self.has(s),
            s.ops.len() < s.br_lt(e, a, b, tv, fv, fall).ops.len(),
            self.goes(
                s.ops.len() as int,
                st,
                self.arm(
                    if st.at(a) < st.at(b) {
                        tv
                    } else {
                        fv
                    },
                    s.br_lt(e, a, b, tv, fv, fall),
                ),
                after,
            ),
            after == (St { frame: after.frame, ..st }),
            forall|x: int|
                (x < e.word(12) || e.word(13) <= x) ==> #[trigger] (after.frame)(x) == (st.frame)(x),
            e.has("brcmp/lt/u64/ff"@) ==> after == st,
    {
        broadcast use {arm_is_a_twin, byte_beside_put, word_of_put};

        let t = s.br_lt(e, a, b, tv, fv, fall);
        if e.has("brcmp/lt/u64/ff"@) {
            self.lemma_test_b(s, e.arm("brcmp/lt/u64/ff"@, fall), a, b, tv, fv, st);
            st
        } else {
            let below = e.word(12);
            let o = op_dab("bin/lt/u64/ff/f"@, below, a, b);
            let u = s.dab("bin/lt/u64/ff/f"@, below, a, b);
            assert(u == s.add(o));
            let mid = (self.m.does)(o, st);
            self.lemma_test(u, "br/f"@, below, tv, fv, mid);
            reveal_with_fuel(hole, 6);
            self.lemma_add(s, o, st);
            assert(mid.at(below) != 0 <==> st.at(a) < st.at(b));
            let to = self.arm(
                if st.at(a) < st.at(b) {
                    tv
                } else {
                    fv
                },
                t,
            );
            self.lemma_on(s.ops.len() as int, st, u.ops.len() as int, mid, to, mid);
            mid
        }
    }

    /// A sum of two words.
    pub proof fn lemma_add_words(self, s: Sel, d: u64, a: u64, b: u64, st: St)
        requires
            adds_words(self.m),
            st.at(a) + st.at(b) <= u64::MAX,
            self.has(s.dab("bin/add/u64/ff/f"@, d, a, b)),
        ensures
            self.has(s),
            s.dab("bin/add/u64/ff/f"@, d, a, b).ops.len() == s.ops.len() + 1,
            self.goes(
                s.ops.len() as int,
                st,
                s.ops.len() as int + 1,
                st.with(d, (st.at(a) + st.at(b)) as u64),
            ),
    {
        let o = op_dab("bin/add/u64/ff/f"@, d, a, b);
        assert(s.dab("bin/add/u64/ff/f"@, d, a, b) == s.add(o));
        reveal_with_fuel(hole, 6);
        self.lemma_add(s, o, st);
    }

    /// A word and a literal added, with a word to spare.
    pub proof fn lemma_add_imm(
        self,
        s: Sel,
        e: Env,
        d: u64,
        a: u64,
        k: u64,
        scr: u64,
        st: St,
    ) -> (after: St)
        requires
            copies_words(self.m),
            adds_words(self.m),
            st.at(a) + k <= u64::MAX,
            clear(scr as int, 8, a as int, 8),
            self.has(s.add_imm(e, d, a, k, scr)),
        ensures
            self.has(s),
            s.ops.len() < s.add_imm(e, d, a, k, scr).ops.len(),
            self.goes(
                s.ops.len() as int,
                st,
                s.add_imm(e, d, a, k, scr).ops.len() as int,
                after,
            ),
            after == (St { frame: after.frame, ..st }),
            after.at(d) == st.at(a) + k,
            forall|x: int|
                (x < scr || scr + 8 <= x) && (x < d || d + 8 <= x) ==> #[trigger] (after.frame)(x)
                    == (st.frame)(x),
    {
        broadcast use {byte_beside_put, word_of_put, word_beside_put};

        let t = s.add_imm(e, d, a, k, scr);
        reveal_with_fuel(hole, 6);
        if e.has("bin/add/u64/fi/f"@) {
            let o = op_dak("bin/add/u64/fi/f"@, d, a, k);
            assert(t == s.add(o));
            self.lemma_add(s, o, st);
            (self.m.does)(o, st)
        } else {
            let u = s.imm_to(scr, k);
            let mid = st.with(scr, k);
            assert(t == u.dab("bin/add/u64/ff/f"@, d, a, scr));
            assert(mid.at(a) == st.at(a));
            self.lemma_add_words(u, d, a, scr, mid);
            self.lemma_imm(s, scr, k, st);
            let after = mid.with(d, (st.at(a) + k) as u64);
            self.lemma_on(s.ops.len() as int, st, u.ops.len() as int, mid, t.ops.len() as int, after);
            after
        }
    }

    /// A word and a literal added in a loop.
    pub proof fn lemma_addk(self, s: Sel, e: Env, d: u64, a: u64, k: u64, st: St) -> (after: St)
        requires
            copies_words(self.m),
            adds_words(self.m),
            st.at(a) + k <= u64::MAX,
            a + 8 <= e.word(55) || a >= e.word(56),
            self.has(s.addk(e, d, a, k)),
        ensures
            self.has(s),
            s.ops.len() < s.addk(e, d, a, k).ops.len(),
            self.goes(
                s.ops.len() as int,
                st,
                s.addk(e, d, a, k).ops.len() as int,
                after,
            ),
            after == (St { frame: after.frame, ..st }),
            after.at(d) == st.at(a) + k,
            forall|x: int|
                (x < e.word(55) || e.word(56) <= x) && (x < d || d + 8 <= x) ==> #[trigger] (
                after.frame)(x) == (st.frame)(x),
    {
        self.lemma_add_imm(s, e, d, a, k, e.word(55), st)
    }

    /// A branch on the word at `a`.
    pub proof fn lemma_test(self, s: Sel, key: Seq<char>, a: u64, tv: V, fv: V, st: St)
        requires
            tests_words(self.m),
            twin(key, "br/f"@),
            self.has(s.test(key, a, tv, fv)),
        ensures
            self.has(s),
            s.test(key, a, tv, fv).ops.len() == s.ops.len() + 1,
            self.goes(
                s.ops.len() as int,
                st,
                self.goto(
                    Some(
                        if st.at(a) != 0 {
                            tv
                        } else {
                            fv
                        },
                    ),
                    s.ops.len() as int,
                ),
                st,
            ),
    {
        let o = op_test(key, a, tv, fv);
        assert(s.test(key, a, tv, fv) == s.add(o));
        reveal_with_fuel(hole, 5);
        self.lemma_two(s, o, tv, fv, st);
    }

    /// A branch that compares the word at `a` with the literal `k`.
    pub proof fn lemma_test_k(self, s: Sel, key: Seq<char>, a: u64, k: u64, tv: V, fv: V, st: St)
        requires
            tests_words(self.m),
            twin(key, "brcmp/eq/u64/fi"@),
            self.has(s.test_k(key, a, k, tv, fv)),
        ensures
            self.has(s),
            s.test_k(key, a, k, tv, fv).ops.len() == s.ops.len() + 1,
            self.goes(
                s.ops.len() as int,
                st,
                self.goto(
                    Some(
                        if st.at(a) == k {
                            tv
                        } else {
                            fv
                        },
                    ),
                    s.ops.len() as int,
                ),
                st,
            ),
    {
        let o = op_test_k(key, a, k, tv, fv);
        assert(s.test_k(key, a, k, tv, fv) == s.add(o));
        reveal_with_fuel(hole, 6);
        self.lemma_two(s, o, tv, fv, st);
    }
}

} // verus!
