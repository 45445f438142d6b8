//! What a body's instructions can leave to their neighbours.
//!
//! A literal whose every use is an immediate operand needs no slot. A comparison that only the
//! branch behind it reads is the branch's to make, and so is the tag that only a switch reads. And
//! nothing lives in a register across an instruction whose stencil calls.

use crate::abi::Loc;
use crate::flow::Plan;
use crate::ir::{Block, Code, Const, Inst, Term, Type};
use crate::library::Library;
use crate::prim::{binop_name, op_name, prim_tag, tag_of, BinOp, Prim};
use crate::select::place_of;
use crate::slots::{filled, set_at};
use crate::text::{join2, join5, own, same};
use crate::types::{at_or, ent, put};
use vstd::prelude::*;

verus! {

/// The word of a number that is subtracted from zero.
pub open spec fn negated(x: u64) -> u64 {
    if x == 0 {
        0
    } else {
        (0x1_0000_0000_0000_0000 - x) as u64
    }
}

/// The word that a literal is, where a stencil can take it as an immediate.
pub open spec fn literal_of(c: Const, ty: Type) -> Option<u64> {
    match c {
        Const::Bool(b) => Some(
            if b {
                1u64
            } else {
                0
            },
        ),
        Const::Char(ch) => Some(ch as u64),
        Const::Int { bits, negative } => Some(
            if negative {
                negated(bits as u64)
            } else {
                bits as u64
            },
        ),
        Const::Float { wide, narrow } => Some(
            if ty == Type::F32 {
                narrow as u64
            } else {
                wide
            },
        ),
        _ => None,
    }
}

/// The word that a literal is, where a stencil can take it as an immediate.
pub fn literal(c: &Const, ty: Type) -> (r: Option<u64>)
    ensures
        r == literal_of(*c, ty),
{
    match c {
        Const::Bool(b) => Some(
            if *b {
                1u64
            } else {
                0
            },
        ),
        Const::Char(ch) => Some((*ch as u32) as u64),
        Const::Int { bits, negative } => {
            let x: u64 = *bits as u64;
            if *negative {
                if x == 0 {
                    Some(0)
                } else {
                    Some(u64::MAX - x + 1)
                }
            } else {
                Some(x)
            }
        },
        Const::Float { wide, narrow } => if ty == Type::F32 {
            Some(*narrow as u64)
        } else {
            Some(*wide)
        },
        _ => None,
    }
}

/// Whether nothing lives in a register across an instruction.
pub open spec fn barrier(i: Inst) -> bool {
    match i {
        Inst::CallIntrinsic { dests, key, args } => key@ != "testing_assert.report"@,
        Inst::Binary { dest, op, prim, lhs, rhs } => prim == Prim::Str || prim == Prim::Template,
        Inst::Call { .. } => true,
        Inst::CallIndirect { .. } => true,
        Inst::Derived { .. } => true,
        Inst::Abort { .. } => true,
        Inst::MakeArray { .. } => true,
        Inst::ArrayGet { .. } => true,
        Inst::ArraySlice { .. } => true,
        Inst::DecRef { .. } => true,
        _ => false,
    }
}

/// Whether nothing lives in a register across an instruction.
pub fn is_barrier(i: &Inst) -> (r: bool)
    ensures
        r == barrier(*i),
{
    match i {
        Inst::CallIntrinsic { dests, key, args } => !same(key.as_str(), "testing_assert.report"),
        Inst::Binary { dest, op, prim, lhs, rhs } => *prim == Prim::Str || *prim == Prim::Template,
        Inst::Call { .. } => true,
        Inst::CallIndirect { .. } => true,
        Inst::Derived { .. } => true,
        Inst::Abort { .. } => true,
        Inst::MakeArray { .. } => true,
        Inst::ArrayGet { .. } => true,
        Inst::ArraySlice { .. } => true,
        Inst::DecRef { .. } => true,
        _ => false,
    }
}

/// The literals of a block's values, from instruction `k` on.
pub open spec fn block_literals(t: Seq<Option<u64>>, code: Code, is: Seq<Inst>, k: int) -> Seq<
    Option<u64>,
>
    decreases is.len() - k,
{
    if k >= is.len() {
        t
    } else {
        let next = match is[k] {
            Inst::Const { dest, value } => set_at(
                t,
                dest as int,
                literal_of(value, code.ty(dest)),
            ),
            _ => t,
        };
        block_literals(next, code, is, k + 1)
    }
}

/// The literals of a body's values, from block `b` on.
pub open spec fn literals_from(t: Seq<Option<u64>>, code: Code, b: int) -> Seq<Option<u64>>
    decreases code.blocks.len() - b,
{
    if b >= code.blocks.len() {
        t
    } else {
        literals_from(block_literals(t, code, code.blocks[b].insts@, 0), code, b + 1)
    }
}

/// The literals of a body's values.
pub open spec fn literals_of(code: Code) -> Seq<Option<u64>> {
    literals_from(Seq::new(code.types@.len(), |i: int| None), code, 0)
}

/// The key of a binary stencil whose right operand is an immediate.
pub open spec fn immediate_key(op: BinOp, prim: Prim) -> Option<Seq<char>> {
    match tag_of(prim) {
        Some(t) => Some("bin/"@ + op_name(op) + "/"@ + t.0 + "/fi/f"@),
        None => None,
    }
}

/// Whether the right operand of an instruction is taken as an immediate.
pub open spec fn takes_immediate(lib: Library, lits: Seq<Option<u64>>, i: Inst) -> bool {
    match i {
        Inst::Binary { dest, op, prim, lhs, rhs } => at_or(lits, rhs as int, None) is Some
            && immediate_key(op, prim) is Some && lib.holds(immediate_key(op, prim)->0),
        _ => false,
    }
}

/// Which values are used, and which are used otherwise than as an immediate.
pub struct Kinds {
    pub any: Seq<bool>,
    pub other: Seq<bool>,
}

impl Kinds {
    /// A use that is no immediate.
    pub open spec fn plain(self, v: usize) -> Kinds {
        Kinds { any: set_at(self.any, v as int, true), other: set_at(self.other, v as int, true) }
    }

    /// Uses that are no immediates, from use `i` on.
    pub open spec fn plains(self, vs: Seq<usize>, i: int) -> Kinds
        decreases vs.len() - i,
    {
        if i >= vs.len() {
            self
        } else {
            self.plain(vs[i]).plains(vs, i + 1)
        }
    }

    /// The uses of an instruction.
    pub open spec fn inst(self, lib: Library, lits: Seq<Option<u64>>, i: Inst) -> Kinds {
        if takes_immediate(lib, lits, i) {
            match i {
                Inst::Binary { dest, op, prim, lhs, rhs } => {
                    let k = self.plain(lhs);
                    Kinds { any: set_at(k.any, rhs as int, true), ..k }
                },
                _ => self,
            }
        } else {
            self.plains(i.reads(), 0)
        }
    }

    /// The uses of instructions, from instruction `k` on.
    pub open spec fn insts(self, lib: Library, lits: Seq<Option<u64>>, is: Seq<Inst>, k: int) -> Kinds
        decreases is.len() - k,
    {
        if k >= is.len() {
            self
        } else {
            self.inst(lib, lits, is[k]).insts(lib, lits, is, k + 1)
        }
    }

    /// The uses of a body, from block `b` on.
    pub open spec fn blocks(self, lib: Library, lits: Seq<Option<u64>>, code: Code, b: int) -> Kinds
        decreases code.blocks.len() - b,
    {
        if b >= code.blocks.len() {
            self
        } else {
            self.insts(lib, lits, code.blocks[b].insts@, 0).plains(
                code.blocks[b].term.all_reads(),
                0,
            ).blocks(lib, lits, code, b + 1)
        }
    }
}

/// The uses of a body's values.
pub open spec fn kinds_of(lib: Library, code: Code) -> Kinds {
    let n = code.types@.len();
    Kinds { any: Seq::new(n, |i: int| false), other: Seq::new(n, |i: int| false) }.blocks(
        lib,
        literals_of(code),
        code,
        0,
    )
}

/// Which values are literals that are only ever used as immediates.
pub open spec fn folded_of(lib: Library, code: Code) -> Seq<bool> {
    let k = kinds_of(lib, code);
    let lits = literals_of(code);
    Seq::new(
        code.types@.len(),
        |v: int| at_or(lits, v, None) is Some && at_or(k.any, v, false) && !at_or(k.other, v, false),
    )
}

struct KindTable {
    any: Vec<bool>,
    other: Vec<bool>,
}

impl View for KindTable {
    type V = Kinds;

    closed spec fn view(&self) -> Kinds {
        Kinds { any: self.any@, other: self.other@ }
    }
}

impl KindTable {
    fn plains(&mut self, vs: &Vec<usize>)
        ensures
            final(self)@ == old(self)@.plains(vs@, 0),
    {
        let mut i: usize = 0;
        while i < vs.len()
            invariant
                i <= vs.len(),
                self@.plains(vs@, i as int) == old(self)@.plains(vs@, 0),
            decreases vs.len() - i,
        {
            put(&mut self.any, vs[i], true);
            put(&mut self.other, vs[i], true);
            i = i + 1;
        }
    }

    fn inst(&mut self, lib: &Library, lits: &Vec<Option<u64>>, i: &Inst)
        ensures
            final(self)@ == old(self)@.inst(*lib, lits@, *i),
    {
        if let Inst::Binary { dest, op, prim, lhs, rhs } = i {
            if ent(lits, *rhs, None).is_some() {
                match prim_tag(*prim) {
                    Some(t) => {
                        let key: String = join5("bin/", binop_name(*op), "/", t.0, "/fi/f");
                        if lib.get(key.as_str()).is_some() {
                            put(&mut self.any, *lhs, true);
                            put(&mut self.other, *lhs, true);
                            put(&mut self.any, *rhs, true);
                            return;
                        }
                    },
                    None => {},
                }
            }
        }
        let ops: Vec<usize> = i.operands();
        self.plains(&ops);
    }
}

/// Which values are literals, and which of them never need a slot because every use of them is an
/// immediate operand of a stencil that has an immediate variant.
pub fn constants(lib: &Library, code: &Code) -> (r: (Vec<Option<u64>>, Vec<bool>))
    ensures
        r.0@ == literals_of(*code),
        r.1@ == folded_of(*lib, *code),
{
    let n: usize = code.types.len();
    let mut lits: Vec<Option<u64>> = filled(n, None);
    let ghost start = lits@;
    let mut b: usize = 0;
    while b < code.blocks.len()
        invariant
            b <= code.blocks.len(),
            literals_from(lits@, *code, b as int) == literals_from(start, *code, 0),
        decreases code.blocks.len() - b,
    {
        let is: &Vec<Inst> = &code.blocks[b].insts;
        let ghost before = lits@;
        let mut k: usize = 0;
        while k < is.len()
            invariant
                k <= is.len(),
                block_literals(lits@, *code, is@, k as int) == block_literals(
                    before,
                    *code,
                    is@,
                    0,
                ),
            decreases is.len() - k,
        {
            if let Inst::Const { dest, value } = &is[k] {
                let x: Option<u64> = literal(value, code.ty_of(*dest));
                put(&mut lits, *dest, x);
            }
            k = k + 1;
        }
        b = b + 1;
    }
    let mut kinds = KindTable { any: filled(n, false), other: filled(n, false) };
    let ghost first = kinds@;
    let ghost ls = lits@;
    let mut c: usize = 0;
    while c < code.blocks.len()
        invariant
            c <= code.blocks.len(),
            lits@ == ls,
            kinds@.blocks(*lib, ls, *code, c as int) == first.blocks(*lib, ls, *code, 0),
        decreases code.blocks.len() - c,
    {
        let is: &Vec<Inst> = &code.blocks[c].insts;
        let ghost before = kinds@;
        let mut k: usize = 0;
        while k < is.len()
            invariant
                k <= is.len(),
                lits@ == ls,
                kinds@.insts(*lib, ls, is@, k as int) == before.insts(*lib, ls, is@, 0),
            decreases is.len() - k,
        {
            kinds.inst(lib, &lits, &is[k]);
            k = k + 1;
        }
        let ops: Vec<usize> = code.blocks[c].term.all_operands();
        kinds.plains(&ops);
        c = c + 1;
    }
    let mut folded: Vec<bool> = Vec::new();
    let mut v: usize = 0;
    while v < n
        invariant
            v <= n,
            n == code.types.len(),
            lits@ == literals_of(*code),
            kinds@ == kinds_of(*lib, *code),
            folded.len() == v,
            forall|i: int| 0 <= i < v ==> #[trigger] folded[i] == folded_of(*lib, *code)[i],
        decreases n - v,
    {
        folded.push(
            ent(&lits, v, None).is_some() && ent(&kinds.any, v, false) && !ent(
                &kinds.other,
                v,
                false,
            ),
        );
        v = v + 1;
    }
    assert(folded@ =~= folded_of(*lib, *code));
    (lits, folded)
}

/// How often `v` stands among the first `n` values.
pub open spec fn count(vs: Seq<usize>, v: usize, n: int) -> nat
    decreases n,
{
    if n <= 0 {
        0
    } else {
        count(vs, v, n - 1) + (if vs[n - 1] == v {
            1nat
        } else {
            0
        })
    }
}

/// How often the instructions from `from` up to `n` read `v`.
pub open spec fn reads_between(is: Seq<Inst>, v: usize, from: int, n: int) -> nat
    decreases n,
{
    if n <= from || n <= 0 {
        0
    } else {
        reads_between(is, v, from, n - 1) + count(
            is[n - 1].reads(),
            v,
            is[n - 1].reads().len() as int,
        )
    }
}

/// How often a terminator reads `v`.
pub open spec fn term_reads(t: Term, v: usize) -> nat {
    count(t.all_reads(), v, t.all_reads().len() as int)
}

/// How often a block reads `v` from instruction `from` on.
pub open spec fn block_reads(x: Block, v: usize, from: int) -> nat {
    reads_between(x.insts@, v, from, x.insts.len() as int) + term_reads(x.term, v)
}

/// How often the first `n` blocks read `v`, block `b` only from instruction `from` on.
pub open spec fn uses_from(code: Code, b: int, v: usize, from: int, n: int) -> nat
    decreases n,
{
    if n <= 0 {
        0
    } else {
        uses_from(code, b, v, from, n - 1) + block_reads(
            code.blocks[n - 1],
            v,
            if n - 1 == b {
                from
            } else {
                0
            },
        )
    }
}

/// How often `v` is used, but for block `b` up to instruction `k`.
pub open spec fn uses_after(code: Code, b: int, v: usize, k: int) -> nat {
    uses_from(code, b, v, k + 1, code.blocks.len() as int)
}

/// A count of none, one or many.
pub open spec fn tally(n: nat) -> u8 {
    if n >= 2 {
        2
    } else {
        n as u8
    }
}

fn add_count(n: u8, vs: &Vec<usize>, v: usize, Ghost(before): Ghost<nat>) -> (r: u8)
    requires
        n == tally(before),
    ensures
        r == tally(before + count(vs@, v, vs.len() as int)),
{
    let mut out: u8 = n;
    let mut i: usize = 0;
    while i < vs.len()
        invariant
            i <= vs.len(),
            out == tally(before + count(vs@, v, i as int)),
        decreases vs.len() - i,
    {
        if vs[i] == v && out < 2 {
            out = out + 1;
        }
        i = i + 1;
    }
    out
}

/// Whether `v` is used exactly once, but for block `b` up to instruction `k`.
pub fn used_once_after(code: &Code, b: usize, v: usize, k: usize) -> (r: bool)
    requires
        k < usize::MAX,
    ensures
        r == (uses_after(*code, b as int, v, k as int) == 1),
{
    let mut n: u8 = 0;
    let mut c: usize = 0;
    while c < code.blocks.len()
        invariant
            c <= code.blocks.len(),
            k < usize::MAX,
            n == tally(uses_from(*code, b as int, v, k + 1, c as int)),
        decreases code.blocks.len() - c,
    {
        let x: &Block = &code.blocks[c];
        let from: usize = if c == b {
            k + 1
        } else {
            0
        };
        let ghost start = uses_from(*code, b as int, v, k + 1, c as int);
        let mut i: usize = from;
        assert(reads_between(x.insts@, v, from as int, from as int) == 0);
        while i < x.insts.len()
            invariant
                from <= i,
                i <= x.insts.len() || i == from,
                n == tally(start + reads_between(x.insts@, v, from as int, i as int)),
            decreases x.insts.len() - i,
        {
            let ops: Vec<usize> = x.insts[i].operands();
            n =
            add_count(
                n,
                &ops,
                v,
                Ghost((start + reads_between(x.insts@, v, from as int, i as int)) as nat),
            );
            i = i + 1;
        }
        if from > x.insts.len() {
            proof {
                lemma_no_reads(x.insts@, v, from as int, x.insts.len() as int);
            }
        }
        let ops: Vec<usize> = x.term.all_operands();
        n =
        add_count(
            n,
            &ops,
            v,
            Ghost(
                (start + reads_between(x.insts@, v, from as int, x.insts.len() as int)) as nat,
            ),
        );
        c = c + 1;
    }
    n == 1
}

proof fn lemma_no_reads(is: Seq<Inst>, v: usize, from: int, n: int)
    requires
        n <= from,
    ensures
        reads_between(is, v, from, n) == 0,
{
}

/// The last of the first `n` instructions that defines `v`.
pub open spec fn last_def(is: Seq<Inst>, v: usize, n: int) -> Option<int>
    decreases n,
{
    if n <= 0 {
        None
    } else if is[n - 1].defines().contains(v) {
        Some(n - 1)
    } else {
        last_def(is, v, n - 1)
    }
}

fn last_def_of(is: &Vec<Inst>, v: usize) -> (r: Option<usize>)
    ensures
        match r {
            Some(k) => k < is.len() && last_def(is@, v, is.len() as int) == Some(k as int),
            None => last_def(is@, v, is.len() as int) is None,
        },
{
    let mut n: usize = is.len();
    while n > 0
        invariant
            n <= is.len(),
            last_def(is@, v, n as int) == last_def(is@, v, is.len() as int),
        decreases n,
    {
        let ds: Vec<usize> = is[n - 1].results();
        let mut i: usize = 0;
        while i < ds.len()
            invariant
                0 < n <= is.len(),
                i <= ds.len(),
                ds@ == is[n - 1].defines(),
                last_def(is@, v, n as int) == last_def(is@, v, is.len() as int),
                forall|k: int| 0 <= k < i ==> ds[k] != v,
            decreases ds.len() - i,
        {
            if ds[i] == v {
                assert(ds@.contains(v));
                return Some(n - 1);
            }
            i = i + 1;
        }
        n = n - 1;
    }
    None
}

/// What a terminator takes over, as a value.
pub struct Pv {
    pub skip: Seq<bool>,
    pub compare: Option<(BinOp, Prim, usize, usize)>,
    pub tagsw: Option<usize>,
}

impl View for Plan {
    type V = Pv;

    open spec fn view(&self) -> Pv {
        Pv { skip: self.skip@, compare: self.compare, tagsw: self.tagsw }
    }
}

/// The letters of a comparison's operands.
pub open spec fn operand_letters(
    reg: Seq<Option<Loc>>,
    folded: Seq<bool>,
    lhs: usize,
    rhs: usize,
) -> Seq<char> {
    place_of(reg, lhs as int).letters() + (if at_or(folded, rhs as int, false) {
        "i"@
    } else {
        place_of(reg, rhs as int).letters()
    })
}

/// The key of a branch on a comparison.
pub open spec fn compare_key(
    reg: Seq<Option<Loc>>,
    folded: Seq<bool>,
    op: BinOp,
    prim: Prim,
    lhs: usize,
    rhs: usize,
) -> Option<Seq<char>> {
    match tag_of(prim) {
        Some(t) => Some(
            "brcmp/"@ + op_name(op) + "/"@ + t.0 + "/"@ + operand_letters(reg, folded, lhs, rhs),
        ),
        None => None,
    }
}

/// The instructions that are literals without a slot.
pub open spec fn dropped(folded: Seq<bool>, is: Seq<Inst>) -> Seq<bool> {
    Seq::new(
        is.len(),
        |k: int|
            match is[k] {
                Inst::Const { dest, value } => at_or(folded, dest as int, false),
                _ => false,
            },
    )
}

/// The comparison that a branch makes itself, and the instruction that made it.
pub open spec fn fused_compare(
    lib: Library,
    code: Code,
    b: int,
    reg: Seq<Option<Loc>>,
    folded: Seq<bool>,
) -> Option<(int, (BinOp, Prim, usize, usize))> {
    let x = code.blocks[b];
    match x.term {
        Term::Branch { cond, then, else_ } => match last_def(
            x.insts@,
            cond,
            x.insts.len() as int,
        ) {
            Some(k) => match x.insts[k] {
                Inst::Binary { dest, op, prim, lhs, rhs } => {
                    let key = compare_key(reg, folded, op, prim, lhs, rhs);
                    if op.compares() && uses_after(code, b, cond, k) == 1 && key is Some
                        && lib.holds(key->0) {
                        Some((k, (op, prim, lhs, rhs)))
                    } else {
                        None
                    }
                },
                _ => None,
            },
            None => None,
        },
        _ => None,
    }
}

/// The enum whose tag a switch reads itself, and the instruction that read it.
pub open spec fn fused_tag(code: Code, b: int) -> Option<(int, usize)> {
    let x = code.blocks[b];
    match x.term {
        Term::Switch { on, cases, default } => match last_def(x.insts@, on, x.insts.len() as int) {
            Some(k) => match x.insts[k] {
                Inst::GetTag { dest, agg } => if uses_after(code, b, on, k) == 1 {
                    Some((k, agg))
                } else {
                    None
                },
                _ => None,
            },
            None => None,
        },
        _ => None,
    }
}

/// What the terminator of block `b` takes over.
pub open spec fn plan_of(
    lib: Library,
    code: Code,
    b: int,
    reg: Seq<Option<Loc>>,
    folded: Seq<bool>,
) -> Pv {
    let skip = dropped(folded, code.blocks[b].insts@);
    match fused_compare(lib, code, b, reg, folded) {
        Some(c) => Pv { skip: skip.update(c.0, true), compare: Some(c.1), tagsw: None },
        None => match fused_tag(code, b) {
            Some(t) => Pv { skip: skip.update(t.0, true), compare: None, tagsw: Some(t.1) },
            None => Pv { skip, compare: None, tagsw: None },
        },
    }
}

/// What the terminator of block `b` takes over.
pub fn plan_block(
    lib: &Library,
    code: &Code,
    b: usize,
    reg: &Vec<Option<Loc>>,
    folded: &Vec<bool>,
) -> (r: Plan)
    requires
        b < code.blocks.len(),
    ensures
        r@ == plan_of(*lib, *code, b as int, reg@, folded@),
        r.skip.len() == code.blocks[b as int].insts.len(),
{
    let x: &Block = &code.blocks[b];
    let mut skip: Vec<bool> = Vec::new();
    let mut i: usize = 0;
    while i < x.insts.len()
        invariant
            i <= x.insts.len(),
            skip.len() == i,
            forall|k: int| 0 <= k < i ==> #[trigger] skip[k] == dropped(folded@, x.insts@)[k],
        decreases x.insts.len() - i,
    {
        let d: bool = match &x.insts[i] {
            Inst::Const { dest, value } => ent(folded, *dest, false),
            _ => false,
        };
        skip.push(d);
        i = i + 1;
    }
    assert(skip@ =~= dropped(folded@, x.insts@));
    match &x.term {
        Term::Branch { cond, then, else_ } => {
            match last_def_of(&x.insts, *cond) {
                Some(k) => {
                    if let Inst::Binary { dest, op, prim, lhs, rhs } = &x.insts[k] {
                        if op.is_comparison() && used_once_after(code, b, *cond, k) {
                            match prim_tag(*prim) {
                                Some(t) => {
                                    let a: String = loc_of(reg, *lhs).tag();
                                    let c: String = if ent(folded, *rhs, false) {
                                        own("i")
                                    } else {
                                        loc_of(reg, *rhs).tag()
                                    };
                                    let letters: String = join2(a.as_str(), c.as_str());
                                    let head: String = join5(
                                        "brcmp/",
                                        binop_name(*op),
                                        "/",
                                        t.0,
                                        "/",
                                    );
                                    let key: String = join2(head.as_str(), letters.as_str());
                                    if lib.get(key.as_str()).is_some() {
                                        skip.set(k, true);
                                        return Plan {
                                            skip,
                                            compare: Some((*op, *prim, *lhs, *rhs)),
                                            tagsw: None,
                                        };
                                    }
                                },
                                None => {},
                            }
                        }
                    }
                },
                None => {},
            }
        },
        Term::Switch { on, cases, default } => {
            match last_def_of(&x.insts, *on) {
                Some(k) => {
                    if let Inst::GetTag { dest, agg } = &x.insts[k] {
                        if used_once_after(code, b, *on, k) {
                            skip.set(k, true);
                            return Plan { skip, compare: None, tagsw: Some(*agg) };
                        }
                    }
                },
                None => {},
            }
        },
        _ => {},
    }
    Plan { skip, compare: None, tagsw: None }
}

fn loc_of(reg: &Vec<Option<Loc>>, v: usize) -> (r: Loc)
    ensures
        r == place_of(reg@, v as int),
{
    match ent(reg, v, None) {
        Some(l) => l,
        None => Loc::Frame,
    }
}

} // verus!
