//! Terminators: branches, switches, returns, and the copies their edges make.
use vstd::prelude::*;

use crate::abi::Loc;
use crate::edges::sequence;
use crate::edges::shuffle;
use crate::edges::Cell;
use crate::edges::Move;
use crate::ir::Code;
use crate::ir::Target;
use crate::ir::Term;
use crate::ir::Type;
use crate::prim::binop_name;
use crate::prim::op_name;
use crate::prim::prim_tag;
use crate::prim::tag_of;
use crate::prim::BinOp;
use crate::prim::Prim;
use crate::select::Emit;
use crate::select::Env;
use crate::select::Sel;
use crate::select::H;
use crate::select::V;
use crate::text::decimal;
use crate::text::decimal_of;
use crate::text::join2;
use crate::text::join4;
use crate::text::join5;
use crate::text::own;
use crate::types::EnumRepr;
use crate::types::Layout;

verus! {

/// What a block's terminator takes from the block's last instructions.
pub struct Plan {
    /// The instructions the terminator stands for.
    pub skip: Vec<bool>,
    /// A comparison fused with the branch on it.
    pub compare: Option<(BinOp, Prim, usize, usize)>,
    /// The enum whose tag a switch reads in place.
    pub tagsw: Option<usize>,
}

/// The hole that reads fused copy `i`.
pub open spec fn copy_src(i: int) -> H {
    if i == 0 {
        H::A
    } else if i == 1 {
        H::B
    } else if i == 2 {
        H::C
    } else {
        H::E
    }
}

/// The hole that writes fused copy `i`.
pub open spec fn copy_dst(i: int) -> H {
    if i == 0 {
        H::D
    } else if i == 1 {
        H::N
    } else if i == 2 {
        H::P
    } else {
        H::Q
    }
}

/// The holes of fused copies from copy `i` on.
pub open spec fn copy_binds(pairs: Seq<(u64, u64)>, i: int) -> Seq<(H, V)>
    decreases pairs.len() - i,
{
    if i >= pairs.len() {
        Seq::empty()
    } else {
        seq![(copy_src(i), V::I(pairs[i].1)), (copy_dst(i), V::I(pairs[i].0))] + copy_binds(
            pairs,
            i + 1,
        )
    }
}

impl Env {
    /// Whether every parameter an edge assigns from parameter `i` on is a word
    /// of the frame.
    pub open spec fn framed(self, code: Code, params: Seq<usize>, args: Seq<usize>, i: int) -> bool
        decreases params.len() - i,
    {
        if i >= params.len() {
            true
        } else {
            !(self.loc(params[i]) is Reg) && (i < args.len() ==> self.slot_bytes(
                code.ty(params[i]),
            ) == 8) && self.framed(code, params, args, i + 1)
        }
    }

    /// The copies between different slots an edge makes from parameter `i` on.
    pub open spec fn pairs(self, params: Seq<usize>, args: Seq<usize>, i: int) -> Seq<(u64, u64)>
        decreases params.len() - i,
    {
        if i >= params.len() || i >= args.len() {
            Seq::empty()
        } else {
            let d = self.at(params[i]);
            let s = self.at(args[i]);
            (if d != s {
                seq![(d, s)]
            } else {
                Seq::empty()
            }) + self.pairs(params, args, i + 1)
        }
    }

    /// The copies into registers an edge makes from parameter `i` on.
    pub open spec fn reg_moves(self, code: Code, params: Seq<usize>, args: Seq<usize>, i: int) -> Seq<
        Move,
    >
        decreases params.len() - i,
    {
        if i >= params.len() || i >= args.len() {
            Seq::empty()
        } else {
            let rest = self.reg_moves(code, params, args, i + 1);
            match (self.loc(params[i]), self.loc(args[i])) {
                (Loc::Reg(k), Loc::Reg(j)) => if j == k {
                    rest
                } else {
                    seq![
                        Move {
                            to: Cell::Reg(k),
                            from: Cell::Reg(j),
                            n: 8,
                            float: code.ty(params[i]) == Type::F64,
                        },
                    ] + rest
                },
                (Loc::Reg(k), _) => seq![
                    Move {
                        to: Cell::Reg(k),
                        from: Cell::Slot(self.at(args[i])),
                        n: 8,
                        float: code.ty(params[i]) == Type::F64,
                    },
                ] + rest,
                _ => rest,
            }
        }
    }

    /// Whether an edge writes the slot of parameter `p` from `a`: it is not in a
    /// register, or its slot is kept in step and the register was not written
    /// in place.
    pub open spec fn slot_written(self, p: usize, a: usize) -> bool {
        match self.loc(p) {
            Loc::Reg(k) => self.write_through(p) && self.loc(a) != Loc::Reg(k),
            _ => true,
        }
    }

    /// The copies into slots an edge makes from parameter `i` on.
    pub open spec fn slot_moves(
        self,
        code: Code,
        params: Seq<usize>,
        args: Seq<usize>,
        i: int,
    ) -> Seq<Move>
        decreases params.len() - i,
    {
        if i >= params.len() || i >= args.len() {
            Seq::empty()
        } else {
            let rest = self.slot_moves(code, params, args, i + 1);
            let d = self.at(params[i]);
            let s = self.at(args[i]);
            if self.slot_written(params[i], args[i]) && d != s {
                seq![
                    Move {
                        to: Cell::Slot(d),
                        from: Cell::Slot(s),
                        n: self.slot_bytes(code.ty(params[i])),
                        float: false,
                    },
                ] + rest
            } else {
                rest
            }
        }
    }

    /// The stencil of a branch's test, where there is one.
    pub open spec fn cond_key(
        self,
        cond: usize,
        compare: Option<(BinOp, Prim, usize, usize)>,
    ) -> Option<Seq<char>> {
        match compare {
            Some(c) => match tag_of(c.1) {
                None => None,
                Some(t) => {
                    let lb = if self.folded(c.3) {
                        "i"@
                    } else {
                        self.loc(c.3).letters()
                    };
                    let k = "brcmp/"@ + op_name(c.0) + "/"@ + t.0 + "/"@ + self.loc(c.2).letters()
                        + lb;
                    if self.has(k) {
                        Some(k)
                    } else {
                        None
                    }
                },
            },
            None => {
                let k = "br/"@ + self.loc(cond).letters();
                if self.has(k) {
                    Some(k)
                } else {
                    None
                }
            },
        }
    }

    /// Where an enum's discriminant is: its offset, the width of the tag or the
    /// variant the null pointer stands for, and whether it is the latter.
    pub open spec fn tag_field(self, code: Code, agg: usize) -> (u64, u32, bool) {
        let base = self.at(agg);
        match code.ty(agg) {
            Type::Agg(id) => match self.layout(id).tagging() {
                Some(EnumRepr::Bare { tag }) => (base, tag, false),
                Some(EnumRepr::Tagged { tag }) => (base, tag, false),
                Some(EnumRepr::Niche { null_at }) => (
                    (base + null_at) as u64,
                    self.layout(id).empty_variant() as u32,
                    true,
                ),
                None => (base, 8, false),
            },
            _ => (base, 8, false),
        }
    }
}

/// The stencil that tests a tag of `w` bytes in place, where there is one.
pub open spec fn tag_test(w: u32) -> Option<Seq<char>> {
    if w == 1 {
        Some("tagbr/eq8"@)
    } else if w == 4 {
        Some("tagbr/eq32"@)
    } else if w == 8 {
        Some("tagbr/eq"@)
    } else {
        None
    }
}

/// Where a jump goes: nowhere where its block is laid out next.
pub open spec fn to_block(block: usize, next: Option<usize>) -> V {
    if next == Some(block) {
        V::Fall
    } else {
        V::Blk(block)
    }
}

impl Sel {
    /// One copy.
    pub open spec fn copy(self, m: Move) -> Sel {
        match (m.to, m.from) {
            (Cell::Reg(k), Cell::Reg(j)) => self.emit(
                (if m.float {
                    "mvg/r"@
                } else {
                    "mvr/r"@
                }) + decimal(k as nat) + "/r"@ + decimal(j as nat),
                seq![(H::Cont, V::Fall)],
            ),
            (Cell::Reg(k), Cell::Slot(o)) => self.emit(
                (if m.float {
                    "ldg/r"@
                } else {
                    "ld/r"@
                }) + decimal(k as nat),
                seq![(H::A, V::I(o)), (H::Cont, V::Fall)],
            ),
            (Cell::Slot(t), Cell::Reg(j)) => self.store_reg(t, j, m.float),
            (Cell::Slot(d), Cell::Slot(s)) => self.mv(d, s, m.n),
        }
    }

    /// A register into a slot.
    pub open spec fn store_reg(self, d: u64, k: u8, float: bool) -> Sel {
        self.emit(
            (if float {
                "stwg/r"@
            } else {
                "stw/r"@
            }) + decimal(k as nat),
            seq![(H::D, V::I(d)), (H::Cont, V::Fall)],
        )
    }

    /// Copies from copy `i` on.
    pub open spec fn copies(self, ms: Seq<Move>, i: int) -> Sel
        decreases ms.len() - i,
    {
        if i >= ms.len() {
            self
        } else {
            self.copy(ms[i]).copies(ms, i + 1)
        }
    }

    /// Copies that are made at once.
    pub open spec fn copies_at_once(self, ms: Seq<Move>, tmp: u64) -> Sel {
        let r = shuffle(ms, tmp);
        let s = self.copies(r.0, 0);
        if r.1 {
            s
        } else {
            s.unsupported("an edge whose copies reach into the scratch words"@)
        }
    }

    /// The slots of the parameters whose register was written in place, from
    /// parameter `i` on.
    pub open spec fn edge_stores(
        self,
        e: Env,
        code: Code,
        params: Seq<usize>,
        args: Seq<usize>,
        i: int,
    ) -> Sel
        decreases params.len() - i,
    {
        if i >= params.len() || i >= args.len() {
            self
        } else {
            let s = match e.loc(params[i]) {
                Loc::Reg(k) => if e.loc(args[i]) == Loc::Reg(k) && e.write_through(params[i]) {
                    self.store_reg(e.at(params[i]), k, code.ty(params[i]) == Type::F64)
                } else {
                    self
                },
                _ => self,
            };
            s.edge_stores(e, code, params, args, i + 1)
        }
    }

    /// The parallel copy of an edge's arguments: the registers first, because
    /// the frame half can overwrite the slots they read.
    pub open spec fn edge(self, e: Env, code: Code, t: Target) -> Sel {
        let params = code.params(t.block);
        self.edge_stores(e, code, params, t.args@, 0).copies_at_once(
            e.reg_moves(code, params, t.args@, 0),
            e.word(7),
        ).copies_at_once(e.slot_moves(code, params, t.args@, 0), e.word(6))
    }

    /// Whether an edge's copies and its jump are one stencil.
    pub open spec fn fuses(e: Env, code: Code, t: Target) -> bool {
        let params = code.params(t.block);
        let pairs = e.pairs(params, t.args@, 0);
        e.framed(code, params, t.args@, 0) && 0 < pairs.len() <= 4 && e.has(
            "movjump/"@ + decimal(pairs.len()),
        )
    }

    /// An edge's copies and its jump as one stencil.
    pub open spec fn jump_fused(self, e: Env, code: Code, t: Target) -> Sel {
        let pairs = e.pairs(code.params(t.block), t.args@, 0);
        self.emit(
            "movjump/"@ + decimal(pairs.len()),
            copy_binds(pairs, 0).push((H::T, V::Blk(t.block))),
        )
    }

    /// A branch's test.
    pub open spec fn cond(
        self,
        e: Env,
        cond: usize,
        compare: Option<(BinOp, Prim, usize, usize)>,
        tv: V,
        fv: V,
        fall: Option<H>,
    ) -> Sel {
        match e.cond_key(cond, compare) {
            None => self.unsupported("stencil: the level has no branch stencil"@),
            Some(k) => {
                let key = match fall {
                    Some(f) => e.arm(k, f),
                    None => k,
                };
                match compare {
                    Some(c) => self.emit(
                        key,
                        seq![
                            (H::A, V::I(e.at(c.2))),
                            (H::B, V::I(e.at(c.3))),
                            (H::K, V::I(e.constant(c.3))),
                            (H::T, tv),
                            (H::F, fv),
                        ],
                    ),
                    None => self.test(key, e.at(cond), tv, fv),
                }
            },
        }
    }

    /// A two-way branch. With arguments on an edge, one arm's copies fall
    /// through and the other's are behind a label; the label is on the arm whose
    /// block is laid out next, so that its jump goes too.
    pub open spec fn branch(
        self,
        e: Env,
        code: Code,
        next: Option<usize>,
        cond: usize,
        then: Target,
        else_: Target,
        compare: Option<(BinOp, Prim, usize, usize)>,
    ) -> Sel {
        if then.args.len() == 0 && else_.args.len() == 0 {
            self.cond(
                e,
                cond,
                compare,
                to_block(then.block, next),
                to_block(else_.block, next),
                if next == Some(then.block) {
                    Some(H::T)
                } else if next == Some(else_.block) {
                    Some(H::F)
                } else {
                    None
                },
            )
        } else {
            let lf = self.next();
            if next == Some(then.block) {
                self.fresh().cond(
                    e,
                    cond,
                    compare,
                    V::Blk(lf),
                    V::Fall,
                    Some(H::F),
                ).edge(e, code, else_).jump(V::Blk(else_.block)).place(lf).edge(
                    e,
                    code,
                    then,
                ).jump(V::Fall)
            } else {
                self.fresh().cond(
                    e,
                    cond,
                    compare,
                    V::Fall,
                    V::Blk(lf),
                    Some(H::T),
                ).edge(e, code, then).jump(V::Blk(then.block)).place(lf).edge(
                    e,
                    code,
                    else_,
                ).jump(to_block(else_.block, next))
            }
        }
    }

    /// Where a switch reads its discriminant, once it is there.
    pub open spec fn switch_source(self, e: Env, code: Code, tagsw: Option<usize>) -> Sel {
        match tagsw {
            None => self,
            Some(agg) => {
                let f = e.tag_field(code, agg);
                if f.2 {
                    self.niche_tag(e.word(3), f.0, f.1 as u64)
                } else if tag_test(f.1) is Some {
                    self
                } else {
                    self.load_w(e.word(3), f.0, f.1 as u64)
                }
            },
        }
    }

    /// The cases of a switch from case `i` on. The discriminant is at `src`, and
    /// `fused` is the stencil that tests it in place. Where the switch is total
    /// its last case needs no test.
    pub open spec fn switch_cases(
        self,
        e: Env,
        code: Code,
        next: Option<usize>,
        src: u64,
        fused: Option<Seq<char>>,
        cases: Seq<(u64, Target)>,
        default: Option<Target>,
        i: int,
    ) -> Sel
        decreases cases.len() - i,
    {
        if i >= cases.len() {
            match default {
                Some(t) => self.edge(e, code, t).jump(V::Blk(t.block)),
                None => self.emit("unreachable"@, Seq::empty()),
            }
        } else {
            let k = cases[i].0;
            let t = cases[i].1;
            if default is None && cases.len() > 1 && i == cases.len() - 1 {
                self.edge(e, code, t).jump(to_block(t.block, next))
            } else {
                let lnext = self.next();
                let direct = code.params(t.block).len() == 0;
                let s = self.fresh().emit(
                    e.arm(
                        match fused {
                            Some(f) => f,
                            None => "brcmp/eq/u64/fi"@,
                        },
                        H::T,
                    ),
                    seq![
                        (H::A, V::I(src)),
                        (
                            H::T,
                            if direct {
                                V::Blk(t.block)
                            } else {
                                V::Fall
                            },
                        ),
                        (H::F, V::Blk(lnext)),
                        (
                            if fused is Some {
                                H::N
                            } else {
                                H::K
                            },
                            V::I(k),
                        ),
                    ],
                );
                let s = if direct {
                    s
                } else {
                    s.edge(e, code, t).jump(V::Blk(t.block))
                };
                s.place(lnext).switch_cases(
                    e,
                    code,
                    next,
                    src,
                    fused,
                    cases,
                    default,
                    i + 1,
                )
            }
        }
    }

    /// A switch.
    pub open spec fn switch(
        self,
        e: Env,
        code: Code,
        next: Option<usize>,
        on: usize,
        cases: Seq<(u64, Target)>,
        default: Option<Target>,
        tagsw: Option<usize>,
    ) -> Sel {
        self.switch_source(e, code, tagsw).switch_cases(
            e,
            code,
            next,
            switch_at(e, code, on, tagsw),
            switch_fused(e, code, tagsw),
            cases,
            default,
            0,
        )
    }

    /// A function's results from result `i` on, into its return area.
    pub open spec fn give_rets(self, e: Env, code: Code, vs: Seq<usize>, i: int) -> Sel
        decreases vs.len() - i,
    {
        if i >= vs.len() || i >= e.frame.ret.len() {
            self
        } else {
            self.mv(
                e.frame.ret[i] as u64,
                e.at(vs[i]),
                e.slot_bytes(code.ty(vs[i])),
            ).give_rets(e, code, vs, i + 1)
        }
    }

    /// A terminator. `next` is the block laid out after it.
    pub open spec fn term(
        self,
        e: Env,
        code: Code,
        next: Option<usize>,
        t: Term,
        compare: Option<(BinOp, Prim, usize, usize)>,
        tagsw: Option<usize>,
    ) -> Sel {
        match t {
            Term::Jump(x) => if next != Some(x.block) && Sel::fuses(e, code, x) {
                self.jump_fused(e, code, x)
            } else {
                self.edge(e, code, x).jump(to_block(x.block, next))
            },
            Term::Branch { cond, then, else_ } => self.branch(
                e,
                code,
                next,
                cond,
                then,
                else_,
                compare,
            ),
            Term::Switch { on, cases, default } => self.switch(
                e,
                code,
                next,
                on,
                cases@,
                default,
                tagsw,
            ),
            Term::Return(vs) => self.give_rets(e, code, vs@, 0).ret(),
            Term::Unreachable => self.emit("unreachable"@, Seq::empty()),
        }
    }
}

/// The frame offset a switch reads its discriminant at.
pub open spec fn switch_at(e: Env, code: Code, on: usize, tagsw: Option<usize>) -> u64 {
    match tagsw {
        None => e.at(on),
        Some(agg) => {
            let f = e.tag_field(code, agg);
            if !f.2 && tag_test(f.1) is Some {
                f.0
            } else {
                e.word(3)
            }
        },
    }
}

/// The stencil a switch tests its discriminant in place with.
pub open spec fn switch_fused(e: Env, code: Code, tagsw: Option<usize>) -> Option<Seq<char>> {
    match tagsw {
        None => None,
        Some(agg) => {
            let f = e.tag_field(code, agg);
            if f.2 {
                None
            } else {
                tag_test(f.1)
            }
        },
    }
}

fn to_block_of(block: usize, next: Option<usize>) -> (r: V)
    ensures
        r == to_block(block, next),
{
    match next {
        Some(n) => if n == block {
            V::Fall
        } else {
            V::Blk(block)
        },
        None => V::Blk(block),
    }
}

fn is_next(block: usize, next: Option<usize>) -> (r: bool)
    ensures
        r == (next == Some(block)),
{
    match next {
        Some(n) => n == block,
        None => false,
    }
}

impl<'a> Emit<'a> {
    fn store_reg(&mut self, d: u64, k: u8, float: bool)
        ensures
            final(self)@ == old(self)@.store_reg(d, k, float),
            final(self).env() == old(self).env(),
    {
        let n: String = decimal_of(k as u64);
        let key: String = if float {
            join2("stwg/r", n.as_str())
        } else {
            join2("stw/r", n.as_str())
        };
        self.emit(key.as_str(), vec![(H::D, V::I(d)), (H::Cont, V::Fall)]);
    }

    /// One copy.
    fn reg_move(&mut self, m: Move)
        ensures
            final(self)@ == old(self)@.copy(m),
            final(self).env() == old(self).env(),
    {
        match (m.to, m.from) {
            (Cell::Reg(k), Cell::Reg(j)) => {
                let a: String = decimal_of(k as u64);
                let b: String = decimal_of(j as u64);
                let key: String = if m.float {
                    join4("mvg/r", a.as_str(), "/r", b.as_str())
                } else {
                    join4("mvr/r", a.as_str(), "/r", b.as_str())
                };
                let binds: Vec<(H, V)> = vec![(H::Cont, V::Fall)];
                assert(binds@ =~= seq![(H::Cont, V::Fall)]);
                self.emit(key.as_str(), binds);
            },
            (Cell::Reg(k), Cell::Slot(o)) => {
                let a: String = decimal_of(k as u64);
                let key: String = if m.float {
                    join2("ldg/r", a.as_str())
                } else {
                    join2("ld/r", a.as_str())
                };
                self.emit(key.as_str(), vec![(H::A, V::I(o)), (H::Cont, V::Fall)]);
            },
            (Cell::Slot(t), Cell::Reg(j)) => self.store_reg(t, j, m.float),
            (Cell::Slot(d), Cell::Slot(s)) => self.mv(d, s, m.n),
        }
    }

    fn copies_at_once(&mut self, ms: Vec<Move>, tmp: u64)
        ensures
            final(self)@ == old(self)@.copies_at_once(ms@, tmp),
            final(self).env() == old(self).env(),
    {
        let r: (Vec<Move>, bool) = sequence(ms, tmp);
        let mut i: usize = 0;
        while i < r.0.len()
            invariant
                i <= r.0.len(),
                self.env() == old(self).env(),
                self@.copies(r.0@, i as int) == old(self)@.copies(r.0@, 0),
            decreases r.0.len() - i,
        {
            self.reg_move(r.0[i]);
            i = i + 1;
        }
        if !r.1 {
            self.unsupported(own("an edge whose copies reach into the scratch words"));
        }
    }

    fn edge_stores(&mut self, code: &Code, params: &Vec<usize>, args: &Vec<usize>)
        ensures
            final(self)@ == old(self)@.edge_stores(
                old(self).env(),
                *code,
                params@,
                args@,
                0,
            ),
            final(self).env() == old(self).env(),
    {
        let mut i: usize = 0;
        while i < params.len() && i < args.len()
            invariant
                i <= params.len(),
                self.env() == old(self).env(),
                self@.edge_stores(self.env(), *code, params@, args@, i as int) == old(
                    self,
                )@.edge_stores(self.env(), *code, params@, args@, 0),
            decreases params.len() - i,
        {
            match self.loc(params[i]) {
                Loc::Reg(k) => {
                    if self.loc(args[i]) == Loc::Reg(k) && self.write_through(params[i]) {
                        let d: u64 = self.at(params[i]);
                        self.store_reg(d, k, code.ty_of(params[i]) == Type::F64);
                    }
                },
                _ => {},
            }
            i = i + 1;
        }
    }

    fn reg_moves(&self, code: &Code, params: &Vec<usize>, args: &Vec<usize>) -> (r: Vec<Move>)
        ensures
            r@ == self.env().reg_moves(*code, params@, args@, 0),
    {
        let ghost all = self.env().reg_moves(*code, params@, args@, 0);
        let mut out: Vec<Move> = Vec::new();
        let mut i: usize = 0;
        while i < params.len() && i < args.len()
            invariant
                i <= params.len(),
                i <= args.len(),
                all == out@ + self.env().reg_moves(*code, params@, args@, i as int),
            decreases params.len() - i,
        {
            let ghost before = out@;
            let ghost next = self.env().reg_moves(*code, params@, args@, i as int + 1);
            match self.loc(params[i]) {
                Loc::Reg(k) => {
                    let from: Cell = match self.loc(args[i]) {
                        Loc::Reg(j) => Cell::Reg(j),
                        _ => Cell::Slot(self.at(args[i])),
                    };
                    if from != Cell::Reg(k) {
                        let m: Move = Move {
                            to: Cell::Reg(k),
                            from,
                            n: 8,
                            float: code.ty_of(params[i]) == Type::F64,
                        };
                        out.push(m);
                        assert(all =~= before + (seq![m] + next));
                    }
                },
                _ => {},
            }
            assert(all =~= out@ + next);
            i = i + 1;
        }
        assert(all =~= out@);
        out
    }

    fn slot_moves(&self, code: &Code, params: &Vec<usize>, args: &Vec<usize>) -> (r: Vec<Move>)
        ensures
            r@ == self.env().slot_moves(*code, params@, args@, 0),
    {
        let ghost all = self.env().slot_moves(*code, params@, args@, 0);
        let mut out: Vec<Move> = Vec::new();
        let mut i: usize = 0;
        while i < params.len() && i < args.len()
            invariant
                i <= params.len(),
                i <= args.len(),
                all == out@ + self.env().slot_moves(*code, params@, args@, i as int),
            decreases params.len() - i,
        {
            let ghost before = out@;
            let ghost next = self.env().slot_moves(*code, params@, args@, i as int + 1);
            let written: bool = match self.loc(params[i]) {
                Loc::Reg(k) => self.write_through(params[i]) && self.loc(args[i]) != Loc::Reg(k),
                _ => true,
            };
            let d: u64 = self.at(params[i]);
            let s: u64 = self.at(args[i]);
            if written && d != s {
                let m: Move = Move {
                    to: Cell::Slot(d),
                    from: Cell::Slot(s),
                    n: self.slot_bytes_of(code.ty_of(params[i])),
                    float: false,
                };
                out.push(m);
                assert(all =~= before + (seq![m] + next));
            }
            assert(all =~= out@ + next);
            i = i + 1;
        }
        assert(all =~= out@);
        out
    }

    /// The parallel copy of an edge's arguments.
    pub fn edge(&mut self, code: &Code, t: &Target)
        ensures
            final(self)@ == old(self)@.edge(old(self).env(), *code, *t),
            final(self).env() == old(self).env(),
    {
        let params: Vec<usize> = code.params_of(t.block);
        let w6: u64 = self.word(6);
        let w7: u64 = self.word(7);
        self.edge_stores(code, &params, &t.args);
        let regs: Vec<Move> = self.reg_moves(code, &params, &t.args);
        self.copies_at_once(regs, w7);
        let slots: Vec<Move> = self.slot_moves(code, &params, &t.args);
        self.copies_at_once(slots, w6);
    }

    fn framed(&self, code: &Code, params: &Vec<usize>, args: &Vec<usize>) -> (r: bool)
        ensures
            r == self.env().framed(*code, params@, args@, 0),
    {
        let mut i: usize = 0;
        while i < params.len()
            invariant
                i <= params.len(),
                self.env().framed(*code, params@, args@, 0) == self.env().framed(
                    *code,
                    params@,
                    args@,
                    i as int,
                ),
            decreases params.len() - i,
        {
            match self.loc(params[i]) {
                Loc::Reg(k) => {
                    return false;
                },
                _ => {},
            }
            if i < args.len() && self.slot_bytes_of(code.ty_of(params[i])) != 8 {
                return false;
            }
            i = i + 1;
        }
        true
    }

    fn pairs(&self, params: &Vec<usize>, args: &Vec<usize>) -> (r: Vec<(u64, u64)>)
        ensures
            r@ == self.env().pairs(params@, args@, 0),
    {
        let ghost all = self.env().pairs(params@, args@, 0);
        let mut out: Vec<(u64, u64)> = Vec::new();
        let mut i: usize = 0;
        while i < params.len() && i < args.len()
            invariant
                i <= params.len(),
                i <= args.len(),
                all == out@ + self.env().pairs(params@, args@, i as int),
            decreases params.len() - i,
        {
            let ghost before = out@;
            let ghost next = self.env().pairs(params@, args@, i as int + 1);
            let d: u64 = self.at(params[i]);
            let s: u64 = self.at(args[i]);
            if d != s {
                out.push((d, s));
                assert(all =~= before + (seq![(d, s)] + next));
            } else {
                assert(all =~= before + (Seq::<(u64, u64)>::empty() + next));
            }
            assert(all =~= out@ + next);
            i = i + 1;
        }
        assert(all =~= out@);
        out
    }

    /// An edge's copies and its jump as one stencil. Answers whether they were.
    fn jump_fused(&mut self, code: &Code, t: &Target) -> (r: bool)
        ensures
            r == Sel::fuses(old(self).env(), *code, *t),
            final(self)@ == if r {
                old(self)@.jump_fused(old(self).env(), *code, *t)
            } else {
                old(self)@
            },
            final(self).env() == old(self).env(),
    {
        let params: Vec<usize> = code.params_of(t.block);
        if !self.framed(code, &params, &t.args) {
            return false;
        }
        let pairs: Vec<(u64, u64)> = self.pairs(&params, &t.args);
        if pairs.len() == 0 || pairs.len() > 4 {
            return false;
        }
        let n: String = decimal_of(pairs.len() as u64);
        let key: String = join2("movjump/", n.as_str());
        if !self.has(key.as_str()) {
            return false;
        }
        let mut binds: Vec<(H, V)> = Vec::new();
        let ghost all = copy_binds(pairs@, 0);
        let mut i: usize = 0;
        while i < pairs.len()
            invariant
                i <= pairs.len(),
                all == binds@ + copy_binds(pairs@, i as int),
            decreases pairs.len() - i,
        {
            let ghost before = binds@;
            let (src, dst): (H, H) = if i == 0 {
                (H::A, H::D)
            } else if i == 1 {
                (H::B, H::N)
            } else if i == 2 {
                (H::C, H::P)
            } else {
                (H::E, H::Q)
            };
            let ghost next = copy_binds(pairs@, i as int + 1);
            binds.push((src, V::I(pairs[i].1)));
            binds.push((dst, V::I(pairs[i].0)));
            assert(all =~= binds@ + next);
            i = i + 1;
        }
        assert(all =~= binds@);
        binds.push((H::T, V::Blk(t.block)));
        self.emit(key.as_str(), binds);
        true
    }

    fn cond_key(&self, cond: usize, compare: Option<(BinOp, Prim, usize, usize)>) -> (r: Option<
        String,
    >)
        ensures
            match r {
                Some(k) => self.env().cond_key(cond, compare) == Some(k@),
                None => self.env().cond_key(cond, compare) is None,
            },
    {
        let k: String = match compare {
            Some(c) => match prim_tag(c.1) {
                None => {
                    return None;
                },
                Some(t) => {
                    let la: String = self.loc(c.2).tag();
                    let lb: String = if self.folded(c.3) {
                        own("i")
                    } else {
                        self.loc(c.3).tag()
                    };
                    let head: String = join5("brcmp/", binop_name(c.0), "/", t.0, "/");
                    let mid: String = join2(head.as_str(), la.as_str());
                    join2(mid.as_str(), lb.as_str())
                },
            },
            None => {
                let l: String = self.loc(cond).tag();
                join2("br/", l.as_str())
            },
        };
        if self.has(k.as_str()) {
            Some(k)
        } else {
            None
        }
    }

    fn cond(
        &mut self,
        cond: usize,
        compare: Option<(BinOp, Prim, usize, usize)>,
        tv: V,
        fv: V,
        fall: Option<H>,
    )
        ensures
            final(self)@ == old(self)@.cond(old(self).env(), cond, compare, tv, fv, fall),
            final(self).env() == old(self).env(),
    {
        let k: String = match self.cond_key(cond, compare) {
            Some(k) => k,
            None => {
                self.unsupported(own("stencil: the level has no branch stencil"));
                return;
            },
        };
        let key: String = match fall {
            Some(f) => self.arm_key(k.as_str(), f),
            None => k,
        };
        match compare {
            Some(c) => {
                let a: u64 = self.at(c.2);
                let b: u64 = self.at(c.3);
                let lit: u64 = self.constant(c.3);
                self.emit(
                    key.as_str(),
                    vec![
                        (H::A, V::I(a)),
                        (H::B, V::I(b)),
                        (H::K, V::I(lit)),
                        (H::T, tv),
                        (H::F, fv),
                    ],
                );
            },
            None => {
                let a: u64 = self.at(cond);
                self.test(key.as_str(), a, tv, fv);
            },
        }
    }

    fn branch(
        &mut self,
        code: &Code,
        next: Option<usize>,
        cond: usize,
        then: &Target,
        else_: &Target,
        compare: Option<(BinOp, Prim, usize, usize)>,
    )
        ensures
            final(self)@ == old(self)@.branch(
                old(self).env(),
                *code,
                next,
                cond,
                *then,
                *else_,
                compare,
            ),
            final(self).env() == old(self).env(),
    {
        if then.args.len() == 0 && else_.args.len() == 0 {
            let fall: Option<H> = if is_next(then.block, next) {
                Some(H::T)
            } else if is_next(else_.block, next) {
                Some(H::F)
            } else {
                None
            };
            self.cond(
                cond,
                compare,
                to_block_of(then.block, next),
                to_block_of(else_.block, next),
                fall,
            );
            return;
        }
        let lf: usize = self.label();
        if is_next(then.block, next) {
            self.cond(cond, compare, V::Blk(lf), V::Fall, Some(H::F));
            self.edge(code, else_);
            self.jump(V::Blk(else_.block));
            self.place(lf);
            self.edge(code, then);
            self.jump(V::Fall);
        } else {
            self.cond(cond, compare, V::Fall, V::Blk(lf), Some(H::T));
            self.edge(code, then);
            self.jump(V::Blk(then.block));
            self.place(lf);
            self.edge(code, else_);
            self.jump(to_block_of(else_.block, next));
        }
    }

    fn tag_field(&self, code: &Code, agg: usize) -> (r: (u64, u32, bool))
        ensures
            r == self.env().tag_field(*code, agg),
    {
        let base: u64 = self.at(agg);
        match code.ty_of(agg) {
            Type::Agg(id) => {
                let l: &'a Layout = self.layout(id);
                match l.enum_repr() {
                    Some(EnumRepr::Bare { tag }) => (base, tag, false),
                    Some(EnumRepr::Tagged { tag }) => (base, tag, false),
                    Some(EnumRepr::Niche { null_at }) => (
                        base + null_at as u64,
                        l.null_variant() as u32,
                        true,
                    ),
                    None => (base, 8, false),
                }
            },
            _ => (base, 8, false),
        }
    }

    #[verifier::rlimit(40)]
    fn switch(
        &mut self,
        code: &Code,
        next: Option<usize>,
        on: usize,
        cases: &Vec<(u64, Target)>,
        default: &Option<Target>,
        tagsw: Option<usize>,
    )
        ensures
            final(self)@ == old(self)@.switch(
                old(self).env(),
                *code,
                next,
                on,
                cases@,
                *default,
                tagsw,
            ),
            final(self).env() == old(self).env(),
    {
        let mut src: u64 = self.at(on);
        let mut fused: Option<&'static str> = None;
        let s0: u64 = self.word(3);
        match tagsw {
            Some(agg) => {
                let f: (u64, u32, bool) = self.tag_field(code, agg);
                src = s0;
                if f.2 {
                    self.niche_tag(s0, f.0, f.1 as u64);
                } else if f.1 == 1 {
                    fused = Some("tagbr/eq8");
                    src = f.0;
                } else if f.1 == 4 {
                    fused = Some("tagbr/eq32");
                    src = f.0;
                } else if f.1 == 8 {
                    fused = Some("tagbr/eq");
                    src = f.0;
                } else {
                    self.load_w(s0, f.0, f.1 as u64);
                }
            },
            None => {},
        }
        let ghost e = self.env();
        let ghost start = self@;
        let ghost fkey = switch_fused(e, *code, tagsw);
        assert(src == switch_at(e, *code, on, tagsw));
        assert(match fused {
            Some(f) => fkey == Some(f@),
            None => fkey is None,
        });
        let base: &str = match fused {
            Some(f) => f,
            None => "brcmp/eq/u64/fi",
        };
        let key: String = self.arm_key(base, H::T);
        let mut i: usize = 0;
        while i < cases.len()
            invariant
                i <= cases.len(),
                self.env() == e,
                e == old(self).env(),
                key@ == e.arm(
                    match fkey {
                        Some(f) => f,
                        None => "brcmp/eq/u64/fi"@,
                    },
                    H::T,
                ),
                fused.is_some() == (fkey is Some),
                self@.switch_cases(e, *code, next, src, fkey, cases@, *default, i as int)
                    == start.switch_cases(e, *code, next, src, fkey, cases@, *default, 0),
                start.switch_cases(e, *code, next, src, fkey, cases@, *default, 0) == old(
                    self,
                )@.switch(e, *code, next, on, cases@, *default, tagsw),
            decreases cases.len() - i,
        {
            let k: u64 = cases[i].0;
            let t: &Target = &cases[i].1;
            if default.is_none() && cases.len() > 1 && i == cases.len() - 1 {
                self.edge(code, t);
                self.jump(to_block_of(t.block, next));
                return;
            }
            let lnext: usize = self.label();
            let direct: bool = code.params_of(t.block).len() == 0;
            let tv: V = if direct {
                V::Blk(t.block)
            } else {
                V::Fall
            };
            let lit: H = if fused.is_some() {
                H::N
            } else {
                H::K
            };
            self.emit(
                key.as_str(),
                vec![(H::A, V::I(src)), (H::T, tv), (H::F, V::Blk(lnext)), (lit, V::I(k))],
            );
            if !direct {
                self.edge(code, t);
                self.jump(V::Blk(t.block));
            }
            self.place(lnext);
            i = i + 1;
        }
        match default {
            Some(t) => {
                self.edge(code, t);
                self.jump(V::Blk(t.block));
            },
            None => self.emit("unreachable", Vec::new()),
        }
    }

    fn give_rets(&mut self, code: &Code, vs: &Vec<usize>)
        ensures
            final(self)@ == old(self)@.give_rets(old(self).env(), *code, vs@, 0),
            final(self).env() == old(self).env(),
    {
        let mut i: usize = 0;
        while i < vs.len() && i < self.st.frame.ret.len()
            invariant
                i <= vs.len(),
                self.env() == old(self).env(),
                self@.give_rets(self.env(), *code, vs@, i as int) == old(self)@.give_rets(
                    self.env(),
                    *code,
                    vs@,
                    0,
                ),
            decreases vs.len() - i,
        {
            let n: u64 = self.slot_bytes_of(code.ty_of(vs[i]));
            let from: u64 = self.at(vs[i]);
            let to: u64 = self.st.frame.ret[i] as u64;
            self.mv(to, from, n);
            i = i + 1;
        }
    }

    /// A terminator. `next` is the block laid out after it.
    pub fn term(&mut self, code: &Code, next: Option<usize>, t: &Term, plan: &Plan)
        ensures
            final(self)@ == old(self)@.term(
                old(self).env(),
                *code,
                next,
                *t,
                plan.compare,
                plan.tagsw,
            ),
            final(self).env() == old(self).env(),
    {
        match t {
            Term::Jump(x) => {
                if !is_next(x.block, next) && self.jump_fused(code, x) {
                    return;
                }
                self.edge(code, x);
                self.jump(to_block_of(x.block, next));
            },
            Term::Branch { cond, then, else_ } => self.branch(
                code,
                next,
                *cond,
                then,
                else_,
                plan.compare,
            ),
            Term::Switch { on, cases, default } => self.switch(
                code,
                next,
                *on,
                cases,
                default,
                plan.tagsw,
            ),
            Term::Return(vs) => {
                self.give_rets(code, vs);
                self.ret();
            },
            Term::Unreachable => self.emit("unreachable", Vec::new()),
        }
    }
}

} // verus!
