//! Where every value lives in the frame.
//!
//! A loop variable is a block parameter, so a body is full of copies: an edge hands its arguments
//! to the parameters of the block it leads to, and a return moves its values into the return area.
//! Giving the producer the consumer's slot deletes the copy. A value that is used once and defined
//! in the block whose edge passes it on joins the class of the parameter it feeds, where nothing
//! reads or writes that class between the definition and the end of the block. One slot per class.

use crate::frames::slot_bytes;
use crate::ir::{Block, Code, Inst, Target, Term, Type};
use crate::select::{slot_of, slot_of_width, type_width, width_in, FrameSig};
use crate::types::{at_or, ent, put, Tables};
use vstd::prelude::*;

verus! {

/// A table with entry `i` set, where the table has one.
pub open spec fn set_at<T>(t: Seq<T>, i: int, x: T) -> Seq<T> {
    if 0 <= i < t.len() {
        t.update(i, x)
    } else {
        t
    }
}

/// One use more, of which only none, one and many are told apart.
pub open spec fn once_more(n: u8) -> u8 {
    if n == 0 {
        1
    } else {
        2
    }
}

/// What is known of the values of a body: which are parameters, where each was defined, and how
/// often each is used.
pub struct Defs {
    pub is_param: Seq<bool>,
    pub block: Seq<Option<usize>>,
    pub index: Seq<Option<usize>>,
    pub uses: Seq<u8>,
}

impl Defs {
    /// Nothing known of `n` values.
    pub open spec fn new(n: nat) -> Defs {
        Defs {
            is_param: Seq::new(n, |i: int| false),
            block: Seq::new(n, |i: int| None),
            index: Seq::new(n, |i: int| None),
            uses: Seq::new(n, |i: int| 0u8),
        }
    }

    /// A parameter of block `b`.
    pub open spec fn param(self, v: usize, b: usize) -> Defs {
        Defs {
            is_param: set_at(self.is_param, v as int, true),
            block: set_at(self.block, v as int, Some(b)),
            ..self
        }
    }

    /// The parameters of block `b`, from parameter `i` on.
    pub open spec fn params(self, vs: Seq<usize>, b: usize, i: int) -> Defs
        decreases vs.len() - i,
    {
        if i >= vs.len() {
            self
        } else {
            self.param(vs[i], b).params(vs, b, i + 1)
        }
    }

    /// A result of instruction `k` of block `b`.
    pub open spec fn result(self, v: usize, b: usize, k: usize) -> Defs {
        Defs {
            block: set_at(self.block, v as int, Some(b)),
            index: set_at(self.index, v as int, Some(k)),
            ..self
        }
    }

    /// The results of instruction `k` of block `b`, from result `i` on.
    pub open spec fn results(self, vs: Seq<usize>, b: usize, k: usize, i: int) -> Defs
        decreases vs.len() - i,
    {
        if i >= vs.len() {
            self
        } else {
            self.result(vs[i], b, k).results(vs, b, k, i + 1)
        }
    }

    /// Values read, from value `i` on.
    pub open spec fn reads(self, vs: Seq<usize>, i: int) -> Defs
        decreases vs.len() - i,
    {
        if i >= vs.len() {
            self
        } else {
            Defs { uses: used(self.uses, vs[i]), ..self }.reads(vs, i + 1)
        }
    }

    /// The instructions of block `b`, from instruction `k` on.
    pub open spec fn insts(self, is: Seq<Inst>, b: usize, k: int) -> Defs
        decreases is.len() - k,
    {
        if k >= is.len() {
            self
        } else {
            self.reads(is[k].reads(), 0).results(is[k].defines(), b, k as usize, 0).insts(
                is,
                b,
                k + 1,
            )
        }
    }

    /// Block `b`.
    pub open spec fn whole(self, x: Block, b: usize) -> Defs {
        self.params(x.params@, b, 0).insts(x.insts@, b, 0).reads(x.term.all_reads(), 0)
    }

    /// The blocks of a body, from block `b` on.
    pub open spec fn blocks(self, code: Code, b: int) -> Defs
        decreases code.blocks.len() - b,
    {
        if b >= code.blocks.len() {
            self
        } else {
            self.whole(code.blocks[b], b as usize).blocks(code, b + 1)
        }
    }
}

/// One use of `v` more.
pub open spec fn used(uses: Seq<u8>, v: usize) -> Seq<u8> {
    set_at(uses, v as int, once_more(at_or(uses, v as int, 0u8)))
}

/// What is known of the values of a body.
pub open spec fn defs_of(code: Code) -> Defs {
    Defs::new(code.types@.len()).blocks(code, 0)
}

/// What is known of the values of a body.
pub struct DefTable {
    pub is_param: Vec<bool>,
    pub block: Vec<Option<usize>>,
    pub index: Vec<Option<usize>>,
    pub uses: Vec<u8>,
}

impl View for DefTable {
    type V = Defs;

    open spec fn view(&self) -> Defs {
        Defs {
            is_param: self.is_param@,
            block: self.block@,
            index: self.index@,
            uses: self.uses@,
        }
    }
}

/// A table of `n` entries that are all the same.
pub fn filled<T: Copy>(n: usize, x: T) -> (r: Vec<T>)
    ensures
        r@ == Seq::new(n as nat, |i: int| x),
{
    let mut out: Vec<T> = Vec::new();
    let mut i: usize = 0;
    while i < n
        invariant
            i <= n,
            out@ == Seq::new(i as nat, |k: int| x),
        decreases n - i,
    {
        out.push(x);
        i = i + 1;
        assert(out@ =~= Seq::new(i as nat, |k: int| x));
    }
    out
}

/// One use of `v` more.
pub fn bump(uses: &mut Vec<u8>, v: usize)
    ensures
        final(uses)@ == used(old(uses)@, v),
{
    let n: u8 = ent(uses, v, 0);
    put(
        uses,
        v,
        if n == 0 {
            1
        } else {
            2
        },
    );
}

impl DefTable {
    fn new(n: usize) -> (r: DefTable)
        ensures
            r@ == Defs::new(n as nat),
    {
        DefTable {
            is_param: filled(n, false),
            block: filled(n, None),
            index: filled(n, None),
            uses: filled(n, 0u8),
        }
    }

    fn reads(&mut self, vs: &Vec<usize>)
        ensures
            final(self)@ == old(self)@.reads(vs@, 0),
    {
        let mut i: usize = 0;
        while i < vs.len()
            invariant
                i <= vs.len(),
                self@.reads(vs@, i as int) == old(self)@.reads(vs@, 0),
            decreases vs.len() - i,
        {
            bump(&mut self.uses, vs[i]);
            i = i + 1;
        }
    }

    fn whole(&mut self, x: &Block, b: usize)
        ensures
            final(self)@ == old(self)@.whole(*x, b),
    {
        let mut i: usize = 0;
        while i < x.params.len()
            invariant
                i <= x.params.len(),
                self@.params(x.params@, b, i as int) == old(self)@.params(x.params@, b, 0),
            decreases x.params.len() - i,
        {
            put(&mut self.is_param, x.params[i], true);
            put(&mut self.block, x.params[i], Some(b));
            i = i + 1;
        }
        let ghost start = self@;
        let mut k: usize = 0;
        while k < x.insts.len()
            invariant
                k <= x.insts.len(),
                self@.insts(x.insts@, b, k as int) == start.insts(x.insts@, b, 0),
            decreases x.insts.len() - k,
        {
            let ops: Vec<usize> = x.insts[k].operands();
            self.reads(&ops);
            let ds: Vec<usize> = x.insts[k].results();
            let ghost before = self@;
            let mut j: usize = 0;
            while j < ds.len()
                invariant
                    j <= ds.len(),
                    self@.results(ds@, b, k, j as int) == before.results(ds@, b, k, 0),
                decreases ds.len() - j,
            {
                put(&mut self.block, ds[j], Some(b));
                put(&mut self.index, ds[j], Some(k));
                j = j + 1;
            }
            k = k + 1;
        }
        let ops: Vec<usize> = x.term.all_operands();
        self.reads(&ops);
    }

    /// What is known of the values of a body.
    pub fn of(code: &Code) -> (r: DefTable)
        ensures
            r@ == defs_of(*code),
    {
        let mut t: DefTable = DefTable::new(code.types.len());
        let ghost start = t@;
        let mut b: usize = 0;
        while b < code.blocks.len()
            invariant
                b <= code.blocks.len(),
                t@.blocks(*code, b as int) == start.blocks(*code, 0),
            decreases code.blocks.len() - b,
        {
            t.whole(&code.blocks[b], b);
            b = b + 1;
        }
        t
    }
}

/// The representative of a value's class; a value that has no entry is in a class of its own.
pub open spec fn rep_of(rep: Seq<usize>, v: usize) -> usize {
    at_or(rep, v as int, v)
}

/// Whether values hold one of the class of `root`.
pub open spec fn meets(rep: Seq<usize>, vs: Seq<usize>, root: usize) -> bool {
    exists|i: int| 0 <= i < vs.len() && rep_of(rep, #[trigger] vs[i]) == root
}

/// Whether an instruction reads or writes the class of `root`.
pub open spec fn touches(rep: Seq<usize>, i: Inst, root: usize) -> bool {
    meets(rep, i.reads(), root) || meets(rep, i.defines(), root)
}

/// How many of the first `n` values are `a` or in the class of `root`.
pub open spec fn conflicts(rep: Seq<usize>, vs: Seq<usize>, root: usize, a: usize, n: int) -> nat
    decreases n,
{
    if n <= 0 {
        0
    } else {
        conflicts(rep, vs, root, a, n - 1) + (if rep_of(rep, vs[n - 1]) == root || vs[n - 1] == a {
            1nat
        } else {
            0
        })
    }
}

/// The first instruction behind the definition of a value: a parameter is defined before all of them.
pub open spec fn behind(from: Option<usize>) -> int {
    match from {
        Some(k) => k + 1,
        None => 0,
    }
}

/// Whether nothing in the class of `root` is read or written between the definition of `a` and the
/// end of the block, but for the one time that the terminator reads `a`.
pub open spec fn safe(x: Block, rep: Seq<usize>, root: usize, a: usize, from: Option<usize>) -> bool {
    &&& forall|i: int|
        behind(from) <= i < x.insts.len() ==> !touches(rep, #[trigger] x.insts[i], root)
    &&& conflicts(rep, x.term.all_reads(), root, a, x.term.all_reads().len() as int) <= 1
}

/// Classes of values: a representative for each value, and an offset for each value that has a
/// fixed home.
pub struct Classes {
    pub rep: Seq<usize>,
    pub pin: Seq<Option<u32>>,
    /// The classes that the block at hand has joined something to.
    pub taken: Seq<usize>,
}

/// The representatives once the class of `a` has joined that of `root`.
pub open spec fn joined(rep: Seq<usize>, a: usize, root: usize) -> Seq<usize> {
    Seq::new(
        rep.len(),
        |i: int|
            if rep[i] == a {
                root
            } else {
                rep[i]
            },
    )
}

/// Whether a class holds a value with a fixed home.
pub open spec fn pinned_class(rep: Seq<usize>, pin: Seq<Option<u32>>, root: usize) -> bool {
    exists|v: int| 0 <= v < pin.len() && rep_of(rep, v as usize) == root && (#[trigger] pin[v]) is Some
}

impl Classes {
    /// Whether argument `a` of an edge out of block `b` is worth a look: a word that is used once and
    /// that the block defines, or that the entry takes from its caller.
    pub open spec fn candidate(self, d: Defs, width: Seq<u32>, b: usize, p: usize, a: usize) -> bool {
        &&& at_or(width, a as int, 0u32) == 8
        &&& at_or(width, p as int, 0u32) == 8
        &&& (at_or(self.pin, a as int, None) is Some && at_or(d.block, a as int, None) == Some(
            0usize,
        ) && b == 0) || (!at_or(d.is_param, a as int, true) && at_or(d.block, a as int, None)
            == Some(b))
        &&& at_or(d.uses, a as int, 0u8) == 1
        &&& rep_of(self.rep, a) == a
        &&& rep_of(self.rep, p) != a
        &&& !(at_or(self.pin, a as int, None) is Some && pinned_class(
            self.rep,
            self.pin,
            rep_of(self.rep, p),
        ))
    }

    /// One argument `a` of an edge, for parameter `p`.
    pub open spec fn edge(
        self,
        d: Defs,
        width: Seq<u32>,
        x: Block,
        b: usize,
        p: usize,
        a: usize,
    ) -> Classes {
        let root = rep_of(self.rep, p);
        if !self.candidate(d, width, b, p, a) || self.taken.contains(root) {
            self
        } else {
            let seen = Classes { taken: self.taken.push(root), ..self };
            if safe(x, self.rep, root, a, at_or(d.index, a as int, None)) {
                Classes { rep: joined(self.rep, a, root), ..seen }
            } else {
                seen
            }
        }
    }

    /// The arguments of an edge, from argument `i` on.
    pub open spec fn args(
        self,
        d: Defs,
        width: Seq<u32>,
        x: Block,
        b: usize,
        ps: Seq<usize>,
        args: Seq<usize>,
        i: int,
    ) -> Classes
        decreases args.len() - i,
    {
        if i >= args.len() || i >= ps.len() {
            self
        } else {
            self.edge(d, width, x, b, ps[i], args[i]).args(d, width, x, b, ps, args, i + 1)
        }
    }

    /// The edges of a block, from edge `i` on.
    pub open spec fn edges(
        self,
        d: Defs,
        width: Seq<u32>,
        code: Code,
        b: usize,
        ts: Seq<Target>,
        i: int,
    ) -> Classes
        decreases ts.len() - i,
    {
        if i >= ts.len() {
            self
        } else {
            self.args(
                d,
                width,
                code.blocks[b as int],
                b,
                code.params(ts[i].block),
                ts[i].args@,
                0,
            ).edges(d, width, code, b, ts, i + 1)
        }
    }

    /// Whether a value that block `b` returns can be given its place in the return area.
    pub open spec fn returnable(self, d: Defs, width: Seq<u32>, x: Block, b: usize, v: usize) -> bool {
        &&& at_or(width, v as int, 0u32) == 8
        &&& !at_or(d.is_param, v as int, true)
        &&& at_or(d.block, v as int, None) == Some(b)
        &&& at_or(d.uses, v as int, 0u8) == 1
        &&& rep_of(self.rep, v) == v
        &&& at_or(self.pin, v as int, None) is None
        &&& safe(x, self.rep, v, v, at_or(d.index, v as int, None))
    }

    /// The values that block `b` returns, from value `i` on.
    pub open spec fn returned(
        self,
        d: Defs,
        width: Seq<u32>,
        x: Block,
        b: usize,
        home: Seq<u32>,
        vs: Seq<usize>,
        i: int,
    ) -> Classes
        decreases vs.len() - i,
    {
        if i >= vs.len() || i >= home.len() {
            self
        } else {
            let next = if self.returnable(d, width, x, b, vs[i]) {
                Classes {
                    pin: set_at(self.pin, vs[i] as int, Some(home[i])),
                    ..self
                }
            } else {
                self
            };
            next.returned(d, width, x, b, home, vs, i + 1)
        }
    }

    /// Block `b`.
    pub open spec fn block(
        self,
        d: Defs,
        width: Seq<u32>,
        code: Code,
        b: usize,
        home: Seq<u32>,
    ) -> Classes {
        let x = code.blocks[b as int];
        let c = Classes { taken: Seq::empty(), ..self }.edges(
            d,
            width,
            code,
            b,
            x.term.edges(),
            0,
        );
        match x.term {
            Term::Return(vs) => c.returned(d, width, x, b, home, vs@, 0),
            _ => c,
        }
    }

    /// The blocks of a body, from block `b` on.
    pub open spec fn blocks(
        self,
        d: Defs,
        width: Seq<u32>,
        code: Code,
        home: Seq<u32>,
        b: int,
    ) -> Classes
        decreases code.blocks.len() - b,
    {
        if b >= code.blocks.len() {
            self
        } else {
            self.block(d, width, code, b as usize, home).blocks(d, width, code, home, b + 1)
        }
    }
}

/// The homes of the entry's parameters, from parameter `i` on.
pub open spec fn entry_pins(pin: Seq<Option<u32>>, ps: Seq<usize>, at: Seq<u32>, i: int) -> Seq<
    Option<u32>,
>
    decreases ps.len() - i,
{
    if i >= ps.len() {
        pin
    } else {
        let home = if i < at.len() {
            Some(at[i])
        } else {
            None
        };
        entry_pins(set_at(pin, ps[i] as int, home), ps, at, i + 1)
    }
}

/// The bytes of every value in a frame.
pub open spec fn widths(tables: Tables, code: Code) -> Seq<u32> {
    Seq::new(code.types@.len(), |i: int| slot_of(width_in(tables, code.types[i])) as u32)
}

/// The classes that a body starts with: every value by itself, and the parameters at home.
pub open spec fn apart(code: Code, params: Seq<u32>) -> Classes {
    let n = code.types@.len();
    Classes {
        rep: Seq::new(n, |i: int| i as usize),
        pin: entry_pins(Seq::new(n, |i: int| None), code.params(0), params, 0),
        taken: Seq::empty(),
    }
}

/// The classes of a body.
pub open spec fn classes_of(tables: Tables, code: Code, ret: Seq<u32>, params: Seq<u32>) -> Classes {
    apart(code, params).blocks(defs_of(code), widths(tables, code), code, ret, 0)
}

/// The homes of classes, from the values below `n` that have one.
pub open spec fn homes(c: Classes, n: int) -> Seq<Option<u32>>
    decreases n,
{
    if n <= 0 {
        Seq::new(c.rep.len(), |i: int| None)
    } else {
        match c.pin[n - 1] {
            Some(o) => set_at(homes(c, n - 1), rep_of(c.rep, (n - 1) as usize) as int, Some(o)),
            None => homes(c, n - 1),
        }
    }
}

/// The widths of classes, from the values below `n`: as wide as the widest.
pub open spec fn class_widths(rep: Seq<usize>, width: Seq<u32>, n: int) -> Seq<u32>
    decreases n,
{
    if n <= 0 {
        Seq::new(rep.len(), |i: int| 0u32)
    } else {
        let before = class_widths(rep, width, n - 1);
        let r = rep_of(rep, (n - 1) as usize) as int;
        set_at(
            before,
            r,
            if at_or(before, r, 0u32) < width[n - 1] {
                width[n - 1]
            } else {
                at_or(before, r, 0u32)
            },
        )
    }
}

/// Slots as they are given out: one per value so far, where each class lives, and where the next
/// fresh slot goes.
pub struct Given {
    pub slot: Seq<u32>,
    pub home: Seq<Option<u32>>,
    pub at: nat,
}

/// The slots of the values below `n`: the home of the class, or a fresh one for its first value.
pub open spec fn given(rep: Seq<usize>, wide: Seq<u32>, start: Given, n: int) -> Given
    decreases n,
{
    if n <= 0 {
        start
    } else {
        let g = given(rep, wide, start, n - 1);
        let r = rep_of(rep, (n - 1) as usize) as int;
        match at_or(g.home, r, None) {
            Some(o) => Given { slot: g.slot.push(o), ..g },
            None => Given {
                slot: g.slot.push(g.at as u32),
                home: set_at(g.home, r, Some(g.at as u32)),
                at: (g.at + at_or(wide, r, 0u32)) as nat,
            },
        }
    }
}

/// The slots of a body's values, and where its scratch begins.
pub open spec fn slots_of(tables: Tables, code: Code, frame: FrameSig) -> Given {
    let c = classes_of(tables, code, frame.ret@, frame.params@);
    let n = code.types@.len() as int;
    given(
        c.rep,
        class_widths(c.rep, widths(tables, code), n),
        Given { slot: Seq::empty(), home: homes(c, n), at: frame.param_end as nat },
        n,
    )
}

/// Classes as a forest: every value points at another of its class, up to the representative.
pub struct Forest {
    pub parent: Vec<usize>,
    pub pin: Vec<Option<u32>>,
    pub taken: Vec<usize>,
    pub rep: Ghost<Seq<usize>>,
    pub stamp: Ghost<Seq<nat>>,
    pub now: Ghost<nat>,
}

impl Forest {
    /// The classes that the forest stands for.
    pub open spec fn classes(self) -> Classes {
        Classes { rep: self.rep@, pin: self.pin@, taken: self.taken@ }
    }

    /// Every value leads to its representative, and the walk there ends: a value was joined before
    /// the one it points at was.
    pub open spec fn wf(self) -> bool {
        let n = self.parent.len();
        &&& self.rep@.len() == n
        &&& self.stamp@.len() == n
        &&& self.pin.len() == n
        &&& forall|v: int|
            0 <= v < n ==> {
                &&& (#[trigger] self.parent[v]) < n
                &&& self.rep@[v] < n
                &&& self.rep@[self.parent[v] as int] == self.rep@[v]
                &&& self.parent[v] == v <==> self.rep@[v] == v
                &&& self.parent[v] != v ==> self.stamp@[v] < self.now@
                &&& self.parent[v] != v && self.parent[self.parent[v] as int] != self.parent[v]
                    ==> self.stamp@[self.parent[v] as int] > self.stamp@[v]
            }
        &&& forall|v: int| 0 <= v < n ==> self.rep@[(#[trigger] self.rep@[v]) as int] == self.rep@[v]
    }

    /// The representative of a value's class.
    fn find(&self, v: usize) -> (r: usize)
        requires
            self.wf(),
        ensures
            r == rep_of(self.rep@, v),
            v < self.parent.len() ==> r < self.parent.len(),
    {
        if v >= self.parent.len() {
            return v;
        }
        let mut x: usize = v;
        while self.parent[x] != x
            invariant
                self.wf(),
                v < self.parent.len(),
                x < self.parent.len(),
                self.rep@[x as int] == self.rep@[v as int],
            decreases
                    if self.parent[x as int] == x {
                        0
                    } else {
                        self.now@ - self.stamp@[x as int]
                    },
        {
            x = self.parent[x];
        }
        x
    }

    /// Joins the class of `a` to that of `root`.
    fn join(&mut self, a: usize, root: usize)
        requires
            old(self).wf(),
            a < old(self).parent.len(),
            root < old(self).parent.len(),
            a != root,
            old(self).rep@[a as int] == a,
            old(self).rep@[root as int] == root,
        ensures
            final(self).wf(),
            final(self).rep@ == joined(old(self).rep@, a, root),
            final(self).pin == old(self).pin,
            final(self).taken == old(self).taken,
            final(self).parent.len() == old(self).parent.len(),
    {
        let ghost before = *self;
        self.parent.set(a, root);
        self.rep = Ghost(joined(self.rep@, a, root));
        self.stamp = Ghost(self.stamp@.update(a as int, self.now@));
        self.now = Ghost(self.now@ + 1);
        proof {
            let n = self.parent.len();
            assert forall|v: int| 0 <= v < n implies {
                &&& (#[trigger] self.parent[v]) < n
                &&& self.rep@[v] < n
                &&& self.rep@[self.parent[v] as int] == self.rep@[v]
                &&& self.parent[v] == v <==> self.rep@[v] == v
                &&& self.parent[v] != v ==> self.stamp@[v] < self.now@
                &&& self.parent[v] != v && self.parent[self.parent[v] as int] != self.parent[v]
                    ==> self.stamp@[self.parent[v] as int] > self.stamp@[v]
            } by {
                assert(before.parent[v] < n);
                if v == a {
                    assert(before.parent[root as int] < n);
                } else {
                    assert(before.parent[before.parent[v] as int] < n);
                }
            }
            assert forall|v: int| 0 <= v < n implies self.rep@[(#[trigger] self.rep@[v]) as int]
                == self.rep@[v] by {
                assert(before.rep@[before.rep@[v] as int] == before.rep@[v]);
                assert(before.parent[v] < n);
            }
        }
    }

    fn pins(&self, root: usize) -> (r: bool)
        requires
            self.wf(),
        ensures
            r == pinned_class(self.rep@, self.pin@, root),
    {
        let mut v: usize = 0;
        while v < self.pin.len()
            invariant
                self.wf(),
                v <= self.pin.len(),
                forall|k: int|
                    0 <= k < v ==> !(rep_of(self.rep@, k as usize) == root && (
                    #[trigger] self.pin@[k]) is Some),
            decreases self.pin.len() - v,
        {
            if self.pin[v].is_some() && self.find(v) == root {
                assert(self.pin@[v as int] is Some);
                return true;
            }
            v = v + 1;
        }
        false
    }

    fn meets(&self, vs: &Vec<usize>, root: usize) -> (r: bool)
        requires
            self.wf(),
        ensures
            r == meets(self.rep@, vs@, root),
    {
        let mut i: usize = 0;
        while i < vs.len()
            invariant
                self.wf(),
                i <= vs.len(),
                forall|k: int| 0 <= k < i ==> rep_of(self.rep@, #[trigger] vs@[k]) != root,
            decreases vs.len() - i,
        {
            if self.find(vs[i]) == root {
                assert(rep_of(self.rep@, vs@[i as int]) == root);
                return true;
            }
            i = i + 1;
        }
        false
    }

    /// Whether nothing in the class of `root` is read or written between the definition of `a` and
    /// the end of the block.
    fn merge_is_safe(&self, x: &Block, root: usize, a: usize, from: Option<usize>) -> (r: bool)
        requires
            self.wf(),
        ensures
            r == safe(*x, self.rep@, root, a, from),
    {
        let first: usize = match from {
            Some(k) => if k < x.insts.len() {
                k + 1
            } else {
                x.insts.len()
            },
            None => 0,
        };
        let mut at: usize = first;
        while at < x.insts.len()
            invariant
                self.wf(),
                first <= at <= x.insts.len(),
                behind(from) <= first || first == x.insts.len(),
                first <= behind(from),
                forall|j: int|
                    behind(from) <= j < at ==> !touches(self.rep@, #[trigger] x.insts[j], root),
            decreases x.insts.len() - at,
        {
            let ops: Vec<usize> = x.insts[at].operands();
            let ds: Vec<usize> = x.insts[at].results();
            if self.meets(&ops, root) || self.meets(&ds, root) {
                assert(touches(self.rep@, x.insts[at as int], root));
                return false;
            }
            at = at + 1;
        }
        let ops: Vec<usize> = x.term.all_operands();
        let mut n: u8 = 0;
        let mut i: usize = 0;
        while i < ops.len()
            invariant
                self.wf(),
                i <= ops.len(),
                ops@ == x.term.all_reads(),
                n <= 1,
                n == conflicts(self.rep@, ops@, root, a, i as int),
                forall|j: int|
                    behind(from) <= j < x.insts.len() ==> !touches(
                        self.rep@,
                        #[trigger] x.insts[j],
                        root,
                    ),
            decreases ops.len() - i,
        {
            if self.find(ops[i]) == root || ops[i] == a {
                if n == 1 {
                    proof {
                        lemma_conflicts(
                            self.rep@,
                            ops@,
                            root,
                            a,
                            i as int + 1,
                            ops.len() as int,
                        );
                    }
                    return false;
                }
                n = n + 1;
            }
            i = i + 1;
        }
        true
    }
}

proof fn lemma_conflicts(rep: Seq<usize>, vs: Seq<usize>, root: usize, a: usize, i: int, n: int)
    requires
        i <= n,
    ensures
        conflicts(rep, vs, root, a, i) <= conflicts(rep, vs, root, a, n),
    decreases n - i,
{
    if i < n {
        lemma_conflicts(rep, vs, root, a, i, n - 1);
    }
}

impl Forest {
    fn edge(&mut self, d: &DefTable, width: &Vec<u32>, x: &Block, b: usize, p: usize, a: usize)
        requires
            old(self).wf(),
            width.len() == old(self).parent.len(),
        ensures
            final(self).wf(),
            final(self).parent.len() == old(self).parent.len(),
            final(self).classes() == old(self).classes().edge(d@, width@, *x, b, p, a),
    {
        if ent(width, a, 0) != 8 || ent(width, p, 0) != 8 {
            return;
        }
        let home: bool = ent(&self.pin, a, None).is_some();
        let made: Option<usize> = ent(&d.block, a, None);
        let of_entry: bool = home && made == Some(0usize) && b == 0;
        if !of_entry && (ent(&d.is_param, a, true) || made != Some(b)) {
            return;
        }
        if ent(&d.uses, a, 0) != 1 || self.find(a) != a {
            return;
        }
        let root: usize = self.find(p);
        if root == a {
            return;
        }
        if home && self.pins(root) {
            return;
        }
        assert(self.classes().candidate(d@, width@, b, p, a));
        let mut i: usize = 0;
        while i < self.taken.len()
            invariant
                i <= self.taken.len(),
                *self == *old(self),
                self.wf(),
                self.classes().candidate(d@, width@, b, p, a),
                root == rep_of(self.rep@, p),
                forall|k: int| 0 <= k < i ==> self.taken[k] != root,
            decreases self.taken.len() - i,
        {
            if self.taken[i] == root {
                assert(self.taken@.contains(root));
                return;
            }
            i = i + 1;
        }
        assert(!self.taken@.contains(root));
        self.taken.push(root);
        if self.merge_is_safe(x, root, a, ent(&d.index, a, None)) {
            assert(self.parent[p as int] < self.parent.len());
            assert(self.rep@[self.rep@[p as int] as int] == self.rep@[p as int]);
            self.join(a, root);
        }
    }

    fn args(
        &mut self,
        d: &DefTable,
        width: &Vec<u32>,
        x: &Block,
        b: usize,
        ps: &Vec<usize>,
        args: &Vec<usize>,
    )
        requires
            old(self).wf(),
            width.len() == old(self).parent.len(),
        ensures
            final(self).wf(),
            final(self).parent.len() == old(self).parent.len(),
            final(self).classes() == old(self).classes().args(d@, width@, *x, b, ps@, args@, 0),
    {
        let mut i: usize = 0;
        while i < args.len() && i < ps.len()
            invariant
                self.wf(),
                width.len() == self.parent.len(),
                self.parent.len() == old(self).parent.len(),
                i <= args.len(),
                self.classes().args(d@, width@, *x, b, ps@, args@, i as int) == old(
                    self,
                ).classes().args(d@, width@, *x, b, ps@, args@, 0),
            decreases args.len() - i,
        {
            self.edge(d, width, x, b, ps[i], args[i]);
            i = i + 1;
        }
    }

    fn returned(
        &mut self,
        d: &DefTable,
        width: &Vec<u32>,
        x: &Block,
        b: usize,
        home: &Vec<u32>,
        vs: &Vec<usize>,
    )
        requires
            old(self).wf(),
        ensures
            final(self).wf(),
            final(self).parent.len() == old(self).parent.len(),
            final(self).classes() == old(self).classes().returned(
                d@,
                width@,
                *x,
                b,
                home@,
                vs@,
                0,
            ),
    {
        let mut i: usize = 0;
        while i < vs.len() && i < home.len()
            invariant
                self.wf(),
                self.parent.len() == old(self).parent.len(),
                i <= vs.len(),
                self.classes().returned(d@, width@, *x, b, home@, vs@, i as int) == old(
                    self,
                ).classes().returned(d@, width@, *x, b, home@, vs@, 0),
            decreases vs.len() - i,
        {
            let v: usize = vs[i];
            if ent(width, v, 0) == 8 && !ent(&d.is_param, v, true) && ent(&d.block, v, None) == Some(
                b,
            ) && ent(&d.uses, v, 0) == 1 && self.find(v) == v && ent(&self.pin, v, None).is_none()
                && self.merge_is_safe(x, v, v, ent(&d.index, v, None)) {
                put(&mut self.pin, v, Some(home[i]));
            }
            i = i + 1;
        }
    }

    /// The classes of a body's values.
    fn coalesce(&mut self, code: &Code, d: &DefTable, width: &Vec<u32>, ret: &Vec<u32>)
        requires
            old(self).wf(),
            width.len() == old(self).parent.len(),
        ensures
            final(self).wf(),
            final(self).parent.len() == old(self).parent.len(),
            final(self).classes() == old(self).classes().blocks(d@, width@, *code, ret@, 0),
    {
        let mut b: usize = 0;
        while b < code.blocks.len()
            invariant
                self.wf(),
                width.len() == self.parent.len(),
                self.parent.len() == old(self).parent.len(),
                b <= code.blocks.len(),
                self.classes().blocks(d@, width@, *code, ret@, b as int) == old(
                    self,
                ).classes().blocks(d@, width@, *code, ret@, 0),
            decreases code.blocks.len() - b,
        {
            let ghost before = self.classes();
            let x: &Block = &code.blocks[b];
            self.taken = Vec::new();
            assert(self.taken@ =~= Seq::empty());
            let ghost start = self.classes();
            assert(start == Classes { taken: Seq::empty(), ..before });
            let ts: Vec<&Target> = x.term.targets();
            let mut i: usize = 0;
            while i < ts.len()
                invariant
                    self.wf(),
                    width.len() == self.parent.len(),
                    self.parent.len() == old(self).parent.len(),
                    i <= ts.len(),
                    b < code.blocks.len(),
                    *x == code.blocks[b as int],
                    ts.len() == x.term.edges().len(),
                    forall|k: int| 0 <= k < ts.len() ==> *(#[trigger] ts[k]) == x.term.edges()[k],
                    self.classes().edges(d@, width@, *code, b, x.term.edges(), i as int)
                        == start.edges(d@, width@, *code, b, x.term.edges(), 0),
                decreases ts.len() - i,
            {
                let ps: Vec<usize> = code.params_of(ts[i].block);
                self.args(d, width, x, b, &ps, &ts[i].args);
                i = i + 1;
            }
            match &x.term {
                Term::Return(vs) => {
                    self.returned(d, width, x, b, ret, vs);
                },
                _ => {},
            }
            b = b + 1;
        }
    }

    /// Every value by itself, and the parameters at home.
    fn apart(code: &Code, params: &Vec<u32>) -> (r: Forest)
        ensures
            r.wf(),
            r.parent.len() == code.types.len(),
            r.classes() == apart(*code, params@),
    {
        let n: usize = code.types.len();
        let mut parent: Vec<usize> = Vec::new();
        let mut v: usize = 0;
        while v < n
            invariant
                v <= n,
                parent@ == Seq::new(v as nat, |i: int| i as usize),
            decreases n - v,
        {
            parent.push(v);
            v = v + 1;
            assert(parent@ =~= Seq::new(v as nat, |i: int| i as usize));
        }
        let mut pin: Vec<Option<u32>> = filled(n, None);
        let ghost start = pin@;
        let ps: Vec<usize> = code.params_of(0);
        let mut k: usize = 0;
        while k < ps.len()
            invariant
                k <= ps.len(),
                pin.len() == n,
                entry_pins(pin@, ps@, params@, k as int) == entry_pins(start, ps@, params@, 0),
            decreases ps.len() - k,
        {
            let home: Option<u32> = if k < params.len() {
                Some(params[k])
            } else {
                None
            };
            put(&mut pin, ps[k], home);
            k = k + 1;
        }
        let ghost rep = Seq::new(n as nat, |i: int| i as usize);
        Forest {
            parent,
            pin,
            taken: Vec::new(),
            rep: Ghost(rep),
            stamp: Ghost(Seq::new(n as nat, |i: int| 0nat)),
            now: Ghost(0nat),
        }
    }
}

/// What the classes without a home still take.
pub open spec fn pending(home: Seq<Option<u32>>, wide: Seq<u32>, n: int) -> nat
    decreases n,
{
    if n <= 0 {
        0
    } else {
        pending(home, wide, n - 1) + (if home[n - 1] is None {
            wide[n - 1] as nat
        } else {
            0
        })
    }
}

/// The first `n` numbers, added up.
pub open spec fn total(w: Seq<u32>, n: int) -> nat
    decreases n,
{
    if n <= 0 {
        0
    } else {
        total(w, n - 1) + w[n - 1] as nat
    }
}

proof fn lemma_pending_total(home: Seq<Option<u32>>, wide: Seq<u32>, n: int)
    ensures
        pending(home, wide, n) <= total(wide, n),
    decreases n,
{
    if n > 0 {
        lemma_pending_total(home, wide, n - 1);
    }
}

/// A class that finds a home no longer takes anything.
proof fn lemma_pending_homed(home: Seq<Option<u32>>, wide: Seq<u32>, r: int, o: u32, n: int)
    requires
        0 <= r < n <= home.len(),
        n <= wide.len(),
        home[r] is None,
    ensures
        pending(home.update(r, Some(o)), wide, n) + wide[r] == pending(home, wide, n),
    decreases n,
{
    if n - 1 == r {
        lemma_pending_same(home, home.update(r, Some(o)), wide, r);
    } else {
        lemma_pending_homed(home, wide, r, o, n - 1);
    }
}

proof fn lemma_pending_same(a: Seq<Option<u32>>, b: Seq<Option<u32>>, wide: Seq<u32>, n: int)
    requires
        n <= a.len(),
        n <= b.len(),
        forall|i: int| 0 <= i < n ==> a[i] == b[i],
    ensures
        pending(a, wide, n) == pending(b, wide, n),
    decreases n,
{
    if n > 0 {
        lemma_pending_same(a, b, wide, n - 1);
    }
}

/// A number raised raises the sum by as much.
proof fn lemma_total_update(w: Seq<u32>, r: int, x: u32, n: int)
    requires
        0 <= r < w.len(),
        n <= w.len(),
    ensures
        r < n ==> total(w.update(r, x), n) == total(w, n) - w[r] + x,
        r >= n ==> total(w.update(r, x), n) == total(w, n),
    decreases n,
{
    if n > 0 {
        lemma_total_update(w, r, x, n - 1);
    }
}

proof fn lemma_class_widths(rep: Seq<usize>, width: Seq<u32>, n: int)
    requires
        0 <= n <= rep.len(),
        width.len() == rep.len(),
    ensures
        class_widths(rep, width, n).len() == rep.len(),
        total(class_widths(rep, width, n), rep.len() as int) <= total(width, n),
    decreases n,
{
    if n > 0 {
        lemma_class_widths(rep, width, n - 1);
        let before = class_widths(rep, width, n - 1);
        let r = rep_of(rep, (n - 1) as usize) as int;
        if 0 <= r < before.len() {
            let x = if before[r] < width[n - 1] {
                width[n - 1]
            } else {
                before[r]
            };
            lemma_total_update(before, r, x, rep.len() as int);
        }
    } else {
        lemma_total_zero(class_widths(rep, width, n), rep.len() as int);
    }
}

proof fn lemma_total_zero(w: Seq<u32>, n: int)
    requires
        n <= w.len(),
        forall|i: int| 0 <= i < n ==> w[i] == 0,
    ensures
        total(w, n) == 0,
    decreases n,
{
    if n > 0 {
        lemma_total_zero(w, n - 1);
    }
}

/// The widths of the values, where they fit, come to what the values take in a frame.
proof fn lemma_widths_total(tables: Tables, code: Code, n: int)
    requires
        0 <= n <= code.types.len(),
        crate::frames::slots_bytes(tables, code.types@, code.types.len() as int) <= u32::MAX,
    ensures
        total(widths(tables, code), n) == crate::frames::slots_bytes(tables, code.types@, n),
    decreases n,
{
    if n > 0 {
        lemma_widths_total(tables, code, n - 1);
        lemma_slots_part(tables, code.types@, n, code.types.len() as int);
    }
}

proof fn lemma_slots_part(tables: Tables, types: Seq<Type>, i: int, n: int)
    requires
        0 < i <= n,
    ensures
        slot_bytes(tables, types[i - 1]) <= crate::frames::slots_bytes(tables, types, n),
    decreases n - i,
{
    if i < n {
        lemma_slots_part(tables, types, i, n - 1);
    }
}

/// Where every value lives in the frame, and where the scratch begins.
pub fn slots(tables: &Tables, code: &Code, frame: &FrameSig) -> (r: (Vec<u32>, u32))
    requires
        frame.param_end + crate::frames::slots_bytes(
            *tables,
            code.types@,
            code.types.len() as int,
        ) <= u32::MAX,
    ensures
        r.0@ == slots_of(*tables, *code, *frame).slot,
        r.1 == slots_of(*tables, *code, *frame).at,
{
    let n: usize = code.types.len();
    let ghost ws = widths(*tables, *code);
    let mut width: Vec<u32> = Vec::new();
    let mut v: usize = 0;
    while v < n
        invariant
            v <= n,
            n == code.types.len(),
            ws == widths(*tables, *code),
            width.len() == v,
            forall|k: int| 0 <= k < v ==> #[trigger] width[k] == ws[k],
        decreases n - v,
    {
        width.push(slot_of_width(type_width(tables, code.types[v])) as u32);
        v = v + 1;
    }
    assert(width@ =~= ws);
    let d: DefTable = DefTable::of(code);
    let mut f: Forest = Forest::apart(code, &frame.params);
    f.coalesce(code, &d, &width, &frame.ret);
    let ghost c = classes_of(*tables, *code, frame.ret@, frame.params@);
    assert(f.classes() == c);
    let ghost rep = c.rep;
    let mut home: Vec<Option<u32>> = filled(n, None);
    let mut i: usize = 0;
    assert(home@ =~= homes(c, 0));
    while i < n
        invariant
            i <= n,
            n == f.parent.len(),
            f.wf(),
            f.classes() == c,
            home.len() == n,
            home@ == homes(c, i as int),
        decreases n - i,
    {
        match f.pin[i] {
            Some(o) => {
                let r: usize = f.find(i);
                put(&mut home, r, Some(o));
            },
            None => {},
        }
        i = i + 1;
    }
    let mut wide: Vec<u32> = filled(n, 0u32);
    let mut k: usize = 0;
    assert(wide@ =~= class_widths(rep, ws, 0));
    while k < n
        invariant
            k <= n,
            n == f.parent.len(),
            f.wf(),
            f.rep@ == rep,
            width@ == ws,
            width.len() == n,
            wide.len() == n,
            wide@ == class_widths(rep, ws, k as int),
        decreases n - k,
    {
        let r: usize = f.find(k);
        let w: u32 = ent(&wide, r, 0);
        put(
            &mut wide,
            r,
            if w < width[k] {
                width[k]
            } else {
                w
            },
        );
        k = k + 1;
    }
    let ghost wd = class_widths(rep, ws, n as int);
    let ghost start = Given { slot: Seq::empty(), home: homes(c, n as int), at: frame.param_end as nat };
    let ghost room = frame.param_end + total(ws, n as int);
    proof {
        lemma_class_widths(rep, ws, n as int);
        lemma_pending_total(home@, wd, n as int);
        lemma_widths_total(*tables, *code, n as int);
    }
    let mut slot: Vec<u32> = Vec::new();
    let mut at: u32 = frame.param_end;
    let mut m: usize = 0;
    assert(slot@ =~= Seq::empty());
    while m < n
        invariant
            m <= n,
            n == f.parent.len(),
            f.wf(),
            f.rep@ == rep,
            wide@ == wd,
            wide.len() == n,
            home.len() == n,
            at + pending(home@, wd, n as int) <= room,
            room <= u32::MAX,
            given(rep, wd, start, m as int) == (Given {
                slot: slot@,
                home: home@,
                at: at as nat,
            }),
        decreases n - m,
    {
        assert(f.parent[m as int] < n);
        let r: usize = f.find(m);
        match ent(&home, r, None) {
            Some(o) => slot.push(o),
            None => {
                proof {
                    lemma_pending_homed(home@, wd, r as int, at, n as int);
                }
                slot.push(at);
                put(&mut home, r, Some(at));
                at = at + wide[r];
            },
        }
        m = m + 1;
    }
    (slot, at)
}

// ---------------------------------------------------------------------------
// What the classes and the slots keep
// ---------------------------------------------------------------------------

proof fn lemma_reads_keep(d: Defs, vs: Seq<usize>, i: int)
    ensures
        d.reads(vs, i).is_param == d.is_param,
    decreases vs.len() - i,
{
    if i < vs.len() {
        lemma_reads_keep(Defs { uses: used(d.uses, vs[i]), ..d }, vs, i + 1);
    }
}

proof fn lemma_results_keep(d: Defs, vs: Seq<usize>, b: usize, k: usize, i: int)
    ensures
        d.results(vs, b, k, i).is_param == d.is_param,
    decreases vs.len() - i,
{
    if i < vs.len() {
        lemma_results_keep(d.result(vs[i], b, k), vs, b, k, i + 1);
    }
}

proof fn lemma_insts_keep(d: Defs, is: Seq<Inst>, b: usize, k: int)
    ensures
        d.insts(is, b, k).is_param == d.is_param,
    decreases is.len() - k,
{
    if k < is.len() {
        let e = d.reads(is[k].reads(), 0);
        lemma_reads_keep(d, is[k].reads(), 0);
        lemma_results_keep(e, is[k].defines(), b, k as usize, 0);
        lemma_insts_keep(e.results(is[k].defines(), b, k as usize, 0), is, b, k + 1);
    }
}

/// Marks are only added.
pub open spec fn grows(a: Seq<bool>, b: Seq<bool>) -> bool {
    a.len() == b.len() && forall|i: int| 0 <= i < a.len() && a[i] ==> #[trigger] b[i]
}

proof fn lemma_params_mark(d: Defs, vs: Seq<usize>, b: usize, i: int)
    requires
        0 <= i,
    ensures
        grows(d.is_param, d.params(vs, b, i).is_param),
        forall|k: int|
            i <= k < vs.len() && vs[k] < d.is_param.len() ==> d.params(vs, b, i).is_param[#[trigger] vs[k]
                as int],
    decreases vs.len() - i,
{
    if i < vs.len() {
        let e = d.param(vs[i], b);
        lemma_params_mark(e, vs, b, i + 1);
        let f = d.params(vs, b, i);
        assert(f == e.params(vs, b, i + 1));
        assert forall|k: int| i <= k < vs.len() && vs[k] < d.is_param.len() implies f.is_param[
        #[trigger] vs[k] as int] by {
            if k == i {
                assert(e.is_param[vs[i] as int]);
            }
        }
        assert forall|j: int| 0 <= j < d.is_param.len() && d.is_param[j] implies #[trigger] f.is_param[j] by {
            assert(e.is_param[j]);
        }
    }
}

proof fn lemma_blocks_mark(d: Defs, code: Code, b: int, x: usize, k: int)
    requires
        0 <= b,
    ensures
        grows(d.is_param, d.blocks(code, b).is_param),
        b <= x < code.blocks.len() && 0 <= k < code.blocks[x as int].params.len()
            && code.blocks[x as int].params[k] < d.is_param.len() ==> d.blocks(
            code,
            b,
        ).is_param[code.blocks[x as int].params[k] as int],
    decreases code.blocks.len() - b,
{
    if b < code.blocks.len() {
        let y = code.blocks[b];
        let e = d.params(y.params@, b as usize, 0);
        lemma_params_mark(d, y.params@, b as usize, 0);
        let f = e.insts(y.insts@, b as usize, 0);
        lemma_insts_keep(e, y.insts@, b as usize, 0);
        lemma_reads_keep(f, y.term.all_reads(), 0);
        let g = d.whole(y, b as usize);
        assert(g.is_param == e.is_param);
        lemma_blocks_mark(g, code, b + 1, x, k);
        let h = d.blocks(code, b);
        assert(h == g.blocks(code, b + 1));
        assert forall|j: int| 0 <= j < d.is_param.len() && d.is_param[j] implies #[trigger] h.is_param[j] by {
            assert(e.is_param[j]);
        }
        if x == b && 0 <= k < y.params.len() && y.params[k] < d.is_param.len() {
            assert(e.is_param[y.params@[k] as int]);
        }
    }
}

/// A parameter of a block is known as one.
proof fn lemma_param_known(code: Code, x: usize, k: int)
    requires
        x < code.blocks.len(),
        0 <= k < code.params(x).len(),
        code.params(x)[k] < code.types.len(),
    ensures
        defs_of(code).is_param[code.params(x)[k] as int],
        defs_of(code).is_param.len() == code.types.len(),
{
    lemma_blocks_mark(Defs::new(code.types@.len()), code, 0, x, k);
}

proof fn lemma_defs_len(code: Code)
    ensures
        defs_of(code).is_param.len() == code.types.len(),
{
    lemma_blocks_mark(Defs::new(code.types@.len()), code, 0, 0, 0);
}

/// What classes keep: a representative stands for itself, only a parameter stands for others, and
/// no class has two homes.
pub open spec fn orderly(d: Defs, c: Classes) -> bool {
    &&& c.rep.len() == c.pin.len()
    &&& c.rep.len() == d.is_param.len()
    &&& forall|v: int|
        0 <= v < c.rep.len() ==> (#[trigger] c.rep[v]) < c.rep.len() && c.rep[c.rep[v] as int]
            == c.rep[v] && (c.rep[v] != v ==> d.is_param[c.rep[v] as int])
    &&& forall|x: int, y: int|
        0 <= x < c.rep.len() && 0 <= y < c.rep.len() && c.rep[x] == c.rep[y] && (
        #[trigger] c.pin[x]) is Some && (#[trigger] c.pin[y]) is Some ==> x == y
}

proof fn lemma_edge_orderly(
    d: Defs,
    c: Classes,
    width: Seq<u32>,
    x: Block,
    b: usize,
    p: usize,
    a: usize,
)
    requires
        orderly(d, c),
        width.len() == c.rep.len(),
        c.rep.len() <= usize::MAX,
        p < c.rep.len() ==> d.is_param[p as int],
    ensures
        orderly(d, c.edge(d, width, x, b, p, a)),
        c.edge(d, width, x, b, p, a).rep.len() == c.rep.len(),
{
    let root = rep_of(c.rep, p);
    let e = c.edge(d, width, x, b, p, a);
    if c.candidate(d, width, b, p, a) && !c.taken.contains(root) && safe(
        x,
        c.rep,
        root,
        a,
        at_or(d.index, a as int, None),
    ) {
        assert(c.rep[p as int] < c.rep.len());
        assert(c.rep[a as int] == a);
        assert(d.is_param[root as int]);
        assert forall|v: int| 0 <= v < e.rep.len() implies (#[trigger] e.rep[v]) < e.rep.len()
            && e.rep[e.rep[v] as int] == e.rep[v] && (e.rep[v] != v ==> d.is_param[e.rep[v] as int]) by {
            assert(c.rep[v] < c.rep.len());
            assert(c.rep[c.rep[p as int] as int] == c.rep[p as int]);
        }
        assert forall|s: int, t: int|
            0 <= s < e.rep.len() && 0 <= t < e.rep.len() && e.rep[s] == e.rep[t] && (
            #[trigger] e.pin[s]) is Some && (#[trigger] e.pin[t]) is Some implies s == t by {
            assert(c.rep[s] < c.rep.len() && c.rep[t] < c.rep.len());
            if c.rep[s] != c.rep[t] {
                let (u, w) = if c.rep[s] == a {
                    (s, t)
                } else {
                    (t, s)
                };
                assert(c.rep[u] == a && c.rep[w] == root);
                assert(c.pin[u] is Some && c.pin[w] is Some);
                if u != a {
                    assert(d.is_param[a as int]);
                    assert(c.pin[a as int] is Some);
                    assert(u == a);
                }
                assert(rep_of(c.rep, w as usize) == root);
                assert(pinned_class(c.rep, c.pin, root));
            }
        }
    }
}

proof fn lemma_args_orderly(
    d: Defs,
    c: Classes,
    width: Seq<u32>,
    x: Block,
    b: usize,
    ps: Seq<usize>,
    args: Seq<usize>,
    i: int,
)
    requires
        0 <= i,
        orderly(d, c),
        width.len() == c.rep.len(),
        c.rep.len() <= usize::MAX,
        forall|k: int| 0 <= k < ps.len() && ps[k] < c.rep.len() ==> d.is_param[#[trigger] ps[k] as int],
    ensures
        orderly(d, c.args(d, width, x, b, ps, args, i)),
        c.args(d, width, x, b, ps, args, i).rep.len() == c.rep.len(),
    decreases args.len() - i,
{
    if i < args.len() && i < ps.len() {
        lemma_edge_orderly(d, c, width, x, b, ps[i], args[i]);
        lemma_args_orderly(
            d,
            c.edge(d, width, x, b, ps[i], args[i]),
            width,
            x,
            b,
            ps,
            args,
            i + 1,
        );
    }
}

proof fn lemma_edges_orderly(
    c: Classes,
    width: Seq<u32>,
    code: Code,
    b: usize,
    ts: Seq<Target>,
    i: int,
)
    requires
        0 <= i,
        orderly(defs_of(code), c),
        width.len() == c.rep.len(),
        c.rep.len() == code.types.len(),
    ensures
        orderly(defs_of(code), c.edges(defs_of(code), width, code, b, ts, i)),
        c.edges(defs_of(code), width, code, b, ts, i).rep.len() == c.rep.len(),
    decreases ts.len() - i,
{
    if i < ts.len() {
        let d = defs_of(code);
        let ps = code.params(ts[i].block);
        assert forall|k: int| 0 <= k < ps.len() && ps[k] < c.rep.len() implies d.is_param[
        #[trigger] ps[k] as int] by {
            lemma_param_known(code, ts[i].block, k);
        }
        let x = code.blocks[b as int];
        lemma_args_orderly(d, c, width, x, b, ps, ts[i].args@, 0);
        lemma_edges_orderly(
            c.args(d, width, x, b, ps, ts[i].args@, 0),
            width,
            code,
            b,
            ts,
            i + 1,
        );
    }
}

proof fn lemma_returned_orderly(
    d: Defs,
    c: Classes,
    width: Seq<u32>,
    x: Block,
    b: usize,
    home: Seq<u32>,
    vs: Seq<usize>,
    i: int,
)
    requires
        0 <= i,
        orderly(d, c),
        c.rep.len() <= usize::MAX,
    ensures
        orderly(d, c.returned(d, width, x, b, home, vs, i)),
        c.returned(d, width, x, b, home, vs, i).rep.len() == c.rep.len(),
    decreases vs.len() - i,
{
    if i < vs.len() && i < home.len() {
        let v = vs[i];
        if c.returnable(d, width, x, b, v) {
            let e = Classes { pin: set_at(c.pin, v as int, Some(home[i])), ..c };
            assert forall|s: int, t: int|
                0 <= s < e.rep.len() && 0 <= t < e.rep.len() && e.rep[s] == e.rep[t] && (
                #[trigger] e.pin[s]) is Some && (#[trigger] e.pin[t]) is Some implies s == t by {
                assert(c.rep[s] < c.rep.len() && c.rep[t] < c.rep.len());
                if s != t {
                    if s == v {
                        assert(d.is_param[v as int]);
                    } else if t == v {
                        assert(d.is_param[v as int]);
                    } else {
                        assert(c.pin[s] is Some && c.pin[t] is Some);
                    }
                }
            }
            lemma_returned_orderly(d, e, width, x, b, home, vs, i + 1);
        } else {
            lemma_returned_orderly(d, c, width, x, b, home, vs, i + 1);
        }
    }
}

proof fn lemma_blocks_orderly(
    c: Classes,
    width: Seq<u32>,
    code: Code,
    home: Seq<u32>,
    b: int,
)
    requires
        0 <= b,
        orderly(defs_of(code), c),
        width.len() == c.rep.len(),
        c.rep.len() == code.types.len(),
    ensures
        orderly(defs_of(code), c.blocks(defs_of(code), width, code, home, b)),
    decreases code.blocks.len() - b,
{
    if b < code.blocks.len() {
        let d = defs_of(code);
        let x = code.blocks[b];
        let e = Classes { taken: Seq::empty(), ..c };
        assert(orderly(d, e)) by {
            assert forall|s: int, t: int|
                0 <= s < e.rep.len() && 0 <= t < e.rep.len() && e.rep[s] == e.rep[t] && (
                #[trigger] e.pin[s]) is Some && (#[trigger] e.pin[t]) is Some implies s == t by {
                assert(c.pin[s] is Some && c.pin[t] is Some);
            }
        }
        lemma_edges_orderly(e, width, code, b as usize, x.term.edges(), 0);
        let f = e.edges(d, width, code, b as usize, x.term.edges(), 0);
        match x.term {
            Term::Return(vs) => {
                lemma_returned_orderly(d, f, width, x, b as usize, home, vs@, 0);
            },
            _ => {},
        }
        lemma_blocks_orderly(
            c.block(d, width, code, b as usize, home),
            width,
            code,
            home,
            b + 1,
        );
    }
}

/// No class of a body's values has two homes, a representative stands for itself, and only a
/// parameter stands for others.
pub proof fn no_class_has_two_homes(tables: Tables, code: Code, ret: Seq<u32>, params: Seq<u32>)
    ensures
        orderly(defs_of(code), classes_of(tables, code, ret, params)),
{
    let c = apart(code, params);
    lemma_defs_len(code);
    lemma_entry_pins(Seq::new(code.types@.len(), |i: int| None), code.params(0), params, 0);
    assert(orderly(defs_of(code), c));
    lemma_blocks_orderly(c, widths(tables, code), code, ret, 0);
}

proof fn lemma_entry_pins(pin: Seq<Option<u32>>, ps: Seq<usize>, at: Seq<u32>, i: int)
    ensures
        entry_pins(pin, ps, at, i).len() == pin.len(),
    decreases ps.len() - i,
{
    if i < ps.len() {
        let home = if i < at.len() {
            Some(at[i])
        } else {
            None
        };
        lemma_entry_pins(set_at(pin, ps[i] as int, home), ps, at, i + 1);
    }
}

/// What is kept as slots are given out: a value has the slot of its class, and the fresh slots are
/// behind the start, before the next one, and apart.
pub open spec fn tidy(rep: Seq<usize>, wide: Seq<u32>, start: Given, g: Given) -> bool {
    &&& g.home.len() == start.home.len()
    &&& start.at <= g.at
    &&& forall|v: int|
        0 <= v < g.slot.len() ==> g.home[rep[v] as int] == Some(#[trigger] g.slot[v])
    &&& forall|r: int|
        0 <= r < start.home.len() && start.home[r] is Some ==> (#[trigger] g.home[r])
            == start.home[r]
    &&& forall|r: int|
        0 <= r < start.home.len() && start.home[r] is None && (#[trigger] g.home[r]) is Some
            ==> start.at <= g.home[r]->0 && g.home[r]->0 + wide[r] <= g.at
    &&& forall|r: int, q: int|
        0 <= r < start.home.len() && 0 <= q < start.home.len() && r != q && start.home[r] is None
            && start.home[q] is None && (#[trigger] g.home[r]) is Some && (#[trigger] g.home[q]) is Some
            ==> g.home[r]->0 + wide[r] <= g.home[q]->0 || g.home[q]->0 + wide[q] <= g.home[r]->0
}

proof fn lemma_given(rep: Seq<usize>, wide: Seq<u32>, start: Given, n: int)
    requires
        0 <= n <= rep.len(),
        rep.len() == wide.len(),
        rep.len() == start.home.len(),
        rep.len() <= usize::MAX,
        start.slot.len() == 0,
        forall|v: int| 0 <= v < rep.len() ==> (#[trigger] rep[v]) < rep.len(),
        given(rep, wide, start, n).at <= u32::MAX,
    ensures
        tidy(rep, wide, start, given(rep, wide, start, n)),
        given(rep, wide, start, n).slot.len() == n,
    decreases n,
{
    if n > 0 {
        let g = given(rep, wide, start, n - 1);
        let h = given(rep, wide, start, n);
        let r = rep[n - 1] as int;
        assert(rep_of(rep, (n - 1) as usize) == rep[n - 1]);
        assert(g.at <= h.at);
        lemma_given(rep, wide, start, n - 1);
        assert(rep[n - 1] < rep.len());
        assert forall|v: int| 0 <= v < h.slot.len() implies h.home[rep[v] as int] == Some(
            #[trigger] h.slot[v],
        ) by {
            if v < n - 1 {
                assert(g.home[rep[v] as int] == Some(g.slot[v]));
            }
        }
    }
}

/// Values of one class have one slot, and values of two classes that have no home of their own have
/// slots that do not overlap, behind the parameters and before the scratch.
pub proof fn slots_are_apart(tables: Tables, code: Code, frame: FrameSig, v: int, w: int)
    requires
        0 <= v < code.types.len(),
        0 <= w < code.types.len(),
        slots_of(tables, code, frame).at <= u32::MAX,
    ensures
        ({
            let g = slots_of(tables, code, frame);
            let c = classes_of(tables, code, frame.ret@, frame.params@);
            let n = code.types.len() as int;
            let wide = class_widths(c.rep, widths(tables, code), n);
            let home = homes(c, n);
            &&& g.slot.len() == n
            &&& c.rep[v] == c.rep[w] ==> g.slot[v] == g.slot[w]
            &&& home[c.rep[v] as int] is None ==> frame.param_end <= g.slot[v] && g.slot[v]
                + wide[c.rep[v] as int] <= g.at
            &&& home[c.rep[v] as int] is Some ==> Some(g.slot[v]) == home[c.rep[v] as int]
            &&& c.rep[v] != c.rep[w] && home[c.rep[v] as int] is None && home[c.rep[w] as int] is None
                ==> g.slot[v] + wide[c.rep[v] as int] <= g.slot[w] || g.slot[w]
                + wide[c.rep[w] as int] <= g.slot[v]
        }),
{
    no_class_has_two_homes(tables, code, frame.ret@, frame.params@);
    let c = classes_of(tables, code, frame.ret@, frame.params@);
    let n = code.types.len() as int;
    lemma_defs_len(code);
    lemma_class_widths(c.rep, widths(tables, code), n);
    lemma_homes_len(c, n);
    let wide = class_widths(c.rep, widths(tables, code), n);
    let start = Given { slot: Seq::empty(), home: homes(c, n), at: frame.param_end as nat };
    lemma_given(c.rep, wide, start, n);
    let g = given(c.rep, wide, start, n);
    assert(g == slots_of(tables, code, frame));
    assert(g.home[c.rep[v] as int] == Some(g.slot[v]));
    assert(g.home[c.rep[w] as int] == Some(g.slot[w]));
    assert(c.rep[v] < n && c.rep[w] < n);
}

proof fn lemma_homes_len(c: Classes, n: int)
    ensures
        homes(c, n).len() == c.rep.len(),
    decreases n,
{
    if n > 0 {
        lemma_homes_len(c, n - 1);
    }
}

} // verus!
