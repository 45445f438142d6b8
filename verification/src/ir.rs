//! The intermediate representation the selector reads.
//!
//! A value, a block, a function and a type are each an index: into a body's
//! values, a body's blocks, a program's functions and its type tables.
use vstd::prelude::*;

use crate::prim::BinOp;
use crate::prim::Prim;
use crate::prim::StructuralOp;
use crate::prim::UnOp;
use crate::types::at_or;
use crate::types::ent;
use crate::types::Tables;

verus! {

/// The machine type of a value.
#[derive(Clone, Copy, PartialEq, Eq, Structural, Debug)]
pub enum Type {
    I1,
    I8,
    I16,
    I32,
    I64,
    I128,
    F32,
    F64,
    Ptr,
    Unit,
    /// A value of a source type, by its index in the type tables.
    Agg(usize),
}

/// Who releases a parameter.
#[derive(Clone, Copy, PartialEq, Eq, Structural, Debug)]
pub enum Ownership {
    Own,
    Borrow,
}

/// A literal.
#[derive(Clone, PartialEq, Eq, Debug)]
pub enum Const {
    Unit,
    Undef,
    Null,
    Bool(bool),
    Char(char),
    /// A magnitude and its sign.
    Int { bits: u128, negative: bool },
    /// A double's bit pattern, and the pattern of the same number as a single.
    Float { wide: u64, narrow: u32 },
    Str(String),
}

/// One instruction.
#[derive(Clone, PartialEq, Eq, Debug)]
pub enum Inst {
    Const { dest: usize, value: Const },
    Unary { dest: usize, op: UnOp, prim: Prim, arg: usize },
    Binary { dest: usize, op: BinOp, prim: Prim, lhs: usize, rhs: usize },
    Call { dests: Vec<usize>, func: usize, args: Vec<usize> },
    CallIndirect { dests: Vec<usize>, callee: usize, args: Vec<usize> },
    CallIntrinsic { dests: Vec<usize>, key: String, args: Vec<usize> },
    MakeStruct { dest: usize, fields: Vec<usize> },
    GetField { dest: usize, agg: usize, index: usize },
    MakeEnum { dest: usize, variant: usize, fields: Vec<usize> },
    GetPayload { dest: usize, agg: usize, variant: usize, index: usize },
    GetTag { dest: usize, agg: usize },
    MakeClosure { dest: usize, func: usize, env: Option<usize> },
    IncRef { value: usize },
    DecRef { value: usize, drop: Option<usize> },
    Abort { message: String },
    MakeArray { dest: usize, elems: Vec<usize> },
    ArrayGet { dest: usize, array: usize, index: usize },
    ArrayLen { dest: usize, array: usize },
    ArraySlice { dest: usize, array: usize, from: usize },
    Derived { dest: usize, op: StructuralOp, ty: usize, args: Vec<usize> },
}

/// Where an edge goes and what it hands the block there.
#[derive(Clone, PartialEq, Eq, Debug)]
pub struct Target {
    pub block: usize,
    pub args: Vec<usize>,
}

/// How a block ends.
#[derive(Clone, PartialEq, Eq, Debug)]
pub enum Term {
    Jump(Target),
    Branch { cond: usize, then: Target, else_: Target },
    Switch { on: usize, cases: Vec<(u64, Target)>, default: Option<Target> },
    Return(Vec<usize>),
    Unreachable,
}

/// One block.
#[derive(Clone, PartialEq, Eq, Debug)]
pub struct Block {
    pub params: Vec<usize>,
    pub insts: Vec<Inst>,
    pub term: Term,
}

/// One body: its blocks, the first of which is the entry, and the type of each
/// of its values.
#[derive(Clone, PartialEq, Eq, Debug)]
pub struct Code {
    pub blocks: Vec<Block>,
    pub types: Vec<Type>,
}

/// What a function's body is.
#[derive(Clone, PartialEq, Eq, Debug)]
pub enum Body {
    Code(Code),
    /// The runtime supplies the body, under this key.
    Runtime(String),
}

/// One function.
#[derive(Clone, PartialEq, Eq, Debug)]
pub struct Func {
    pub symbol: String,
    pub params: Vec<Type>,
    pub rets: Vec<Type>,
    /// Who releases each parameter.
    pub owned: Vec<Ownership>,
    pub body: Body,
}

/// A whole program.
#[derive(Clone, PartialEq, Eq, Debug)]
pub struct Program {
    pub funcs: Vec<Func>,
    pub tables: Tables,
}

impl Inst {
    /// The values an instruction reads, in order.
    pub open spec fn reads(self) -> Seq<usize> {
        match self {
            Inst::Const { dest, value } => Seq::empty(),
            Inst::Unary { dest, op, prim, arg } => seq![arg],
            Inst::Binary { dest, op, prim, lhs, rhs } => seq![lhs, rhs],
            Inst::Call { dests, func, args } => args@,
            Inst::CallIndirect { dests, callee, args } => seq![callee] + args@,
            Inst::CallIntrinsic { dests, key, args } => args@,
            Inst::MakeStruct { dest, fields } => fields@,
            Inst::GetField { dest, agg, index } => seq![agg],
            Inst::MakeEnum { dest, variant, fields } => fields@,
            Inst::GetPayload { dest, agg, variant, index } => seq![agg],
            Inst::GetTag { dest, agg } => seq![agg],
            Inst::MakeClosure { dest, func, env } => match env {
                Some(e) => seq![e],
                None => Seq::empty(),
            },
            Inst::IncRef { value } => seq![value],
            Inst::DecRef { value, drop } => seq![value],
            Inst::Abort { message } => Seq::empty(),
            Inst::MakeArray { dest, elems } => elems@,
            Inst::ArrayGet { dest, array, index } => seq![array, index],
            Inst::ArrayLen { dest, array } => seq![array],
            Inst::ArraySlice { dest, array, from } => seq![array, from],
            Inst::Derived { dest, op, ty, args } => args@,
        }
    }

    /// The values an instruction reads, in order.
    pub fn operands(&self) -> (r: Vec<usize>)
        ensures
            r@ == self.reads(),
    {
        match self {
            Inst::Const { dest, value } => Vec::new(),
            Inst::Unary { dest, op, prim, arg } => vec![*arg],
            Inst::Binary { dest, op, prim, lhs, rhs } => vec![*lhs, *rhs],
            Inst::Call { dests, func, args } => copy_of(args),
            Inst::CallIndirect { dests, callee, args } => {
                let mut v: Vec<usize> = vec![*callee];
                let mut w: Vec<usize> = copy_of(args);
                v.append(&mut w);
                v
            },
            Inst::CallIntrinsic { dests, key, args } => copy_of(args),
            Inst::MakeStruct { dest, fields } => copy_of(fields),
            Inst::GetField { dest, agg, index } => vec![*agg],
            Inst::MakeEnum { dest, variant, fields } => copy_of(fields),
            Inst::GetPayload { dest, agg, variant, index } => vec![*agg],
            Inst::GetTag { dest, agg } => vec![*agg],
            Inst::MakeClosure { dest, func, env } => match env {
                Some(e) => vec![*e],
                None => Vec::new(),
            },
            Inst::IncRef { value } => vec![*value],
            Inst::DecRef { value, drop } => vec![*value],
            Inst::Abort { message } => Vec::new(),
            Inst::MakeArray { dest, elems } => copy_of(elems),
            Inst::ArrayGet { dest, array, index } => vec![*array, *index],
            Inst::ArrayLen { dest, array } => vec![*array],
            Inst::ArraySlice { dest, array, from } => vec![*array, *from],
            Inst::Derived { dest, op, ty, args } => copy_of(args),
        }
    }

    /// The values an instruction defines, in order.
    pub open spec fn defines(self) -> Seq<usize> {
        match self {
            Inst::Const { dest, value } => seq![dest],
            Inst::Unary { dest, op, prim, arg } => seq![dest],
            Inst::Binary { dest, op, prim, lhs, rhs } => seq![dest],
            Inst::Call { dests, func, args } => dests@,
            Inst::CallIndirect { dests, callee, args } => dests@,
            Inst::CallIntrinsic { dests, key, args } => dests@,
            Inst::MakeStruct { dest, fields } => seq![dest],
            Inst::GetField { dest, agg, index } => seq![dest],
            Inst::MakeEnum { dest, variant, fields } => seq![dest],
            Inst::GetPayload { dest, agg, variant, index } => seq![dest],
            Inst::GetTag { dest, agg } => seq![dest],
            Inst::MakeClosure { dest, func, env } => seq![dest],
            Inst::IncRef { value } => Seq::empty(),
            Inst::DecRef { value, drop } => Seq::empty(),
            Inst::Abort { message } => Seq::empty(),
            Inst::MakeArray { dest, elems } => seq![dest],
            Inst::ArrayGet { dest, array, index } => seq![dest],
            Inst::ArrayLen { dest, array } => seq![dest],
            Inst::ArraySlice { dest, array, from } => seq![dest],
            Inst::Derived { dest, op, ty, args } => seq![dest],
        }
    }

    /// The values an instruction defines, in order.
    pub fn results(&self) -> (r: Vec<usize>)
        ensures
            r@ == self.defines(),
    {
        match self {
            Inst::Const { dest, value } => vec![*dest],
            Inst::Unary { dest, op, prim, arg } => vec![*dest],
            Inst::Binary { dest, op, prim, lhs, rhs } => vec![*dest],
            Inst::Call { dests, func, args } => copy_of(dests),
            Inst::CallIndirect { dests, callee, args } => copy_of(dests),
            Inst::CallIntrinsic { dests, key, args } => copy_of(dests),
            Inst::MakeStruct { dest, fields } => vec![*dest],
            Inst::GetField { dest, agg, index } => vec![*dest],
            Inst::MakeEnum { dest, variant, fields } => vec![*dest],
            Inst::GetPayload { dest, agg, variant, index } => vec![*dest],
            Inst::GetTag { dest, agg } => vec![*dest],
            Inst::MakeClosure { dest, func, env } => vec![*dest],
            Inst::IncRef { value } => Vec::new(),
            Inst::DecRef { value, drop } => Vec::new(),
            Inst::Abort { message } => Vec::new(),
            Inst::MakeArray { dest, elems } => vec![*dest],
            Inst::ArrayGet { dest, array, index } => vec![*dest],
            Inst::ArrayLen { dest, array } => vec![*dest],
            Inst::ArraySlice { dest, array, from } => vec![*dest],
            Inst::Derived { dest, op, ty, args } => vec![*dest],
        }
    }
}

/// A copy of a list of indices.
pub fn copy_of(v: &Vec<usize>) -> (r: Vec<usize>)
    ensures
        r@ == v@,
{
    let mut out: Vec<usize> = Vec::new();
    let mut i: usize = 0;
    while i < v.len()
        invariant
            i <= v.len(),
            out@ == v@.subrange(0, i as int),
        decreases v.len() - i,
    {
        out.push(v[i]);
        i = i + 1;
    }
    assert(v@.subrange(0, i as int) =~= v@);
    out
}

/// The targets of a switch's cases.
pub open spec fn case_targets(cases: Seq<(u64, Target)>) -> Seq<Target> {
    Seq::new(cases.len(), |i: int| cases[i].1)
}

impl Term {
    /// The values a terminator itself reads, in order.
    pub open spec fn reads(self) -> Seq<usize> {
        match self {
            Term::Jump(t) => Seq::empty(),
            Term::Branch { cond, then, else_ } => seq![cond],
            Term::Switch { on, cases, default } => seq![on],
            Term::Return(vs) => vs@,
            Term::Unreachable => Seq::empty(),
        }
    }

    /// The values a terminator itself reads, in order.
    pub fn operands(&self) -> (r: Vec<usize>)
        ensures
            r@ == self.reads(),
    {
        match self {
            Term::Jump(t) => Vec::new(),
            Term::Branch { cond, then, else_ } => vec![*cond],
            Term::Switch { on, cases, default } => vec![*on],
            Term::Return(vs) => copy_of(vs),
            Term::Unreachable => Vec::new(),
        }
    }

    /// The values a terminator reads: its own, and behind them what the first `n` edges hand over.
    pub open spec fn passes(self, n: int) -> Seq<usize>
        decreases n,
    {
        if n <= 0 {
            self.reads()
        } else {
            self.passes(n - 1) + self.edges()[n - 1].args@
        }
    }

    /// Every value a terminator reads, its edges' arguments with them.
    pub open spec fn all_reads(self) -> Seq<usize> {
        self.passes(self.edges().len() as int)
    }

    /// Every value a terminator reads, its edges' arguments with them.
    pub fn all_operands(&self) -> (r: Vec<usize>)
        ensures
            r@ == self.all_reads(),
    {
        let ts: Vec<&Target> = self.targets();
        let mut out: Vec<usize> = self.operands();
        let mut i: usize = 0;
        while i < ts.len()
            invariant
                i <= ts.len(),
                ts.len() == self.edges().len(),
                forall|k: int| 0 <= k < ts.len() ==> *(#[trigger] ts[k]) == self.edges()[k],
                out@ == self.passes(i as int),
            decreases ts.len() - i,
        {
            let mut args: Vec<usize> = copy_of(&ts[i].args);
            out.append(&mut args);
            i = i + 1;
        }
        out
    }

    /// The edges out of a block, in order.
    pub open spec fn edges(self) -> Seq<Target> {
        match self {
            Term::Jump(t) => seq![t],
            Term::Branch { cond, then, else_ } => seq![then, else_],
            Term::Switch { on, cases, default } => match default {
                Some(d) => case_targets(cases@).push(d),
                None => case_targets(cases@),
            },
            Term::Return(vs) => Seq::empty(),
            Term::Unreachable => Seq::empty(),
        }
    }

    /// The edges out of a block, in order.
    pub fn targets(&self) -> (r: Vec<&Target>)
        ensures
            r.len() == self.edges().len(),
            forall|i: int| 0 <= i < r.len() ==> *(#[trigger] r[i]) == self.edges()[i],
    {
        match self {
            Term::Jump(t) => vec![t],
            Term::Branch { cond, then, else_ } => vec![then, else_],
            Term::Switch { on, cases, default } => {
                let mut out: Vec<&Target> = Vec::new();
                let mut i: usize = 0;
                while i < cases.len()
                    invariant
                        i <= cases.len(),
                        out.len() == i,
                        forall|j: int| 0 <= j < i ==> *(#[trigger] out[j]) == cases[j].1,
                    decreases cases.len() - i,
                {
                    out.push(&cases[i].1);
                    i = i + 1;
                }
                match default {
                    Some(d) => {
                        out.push(d);
                    },
                    None => {},
                }
                out
            },
            Term::Return(vs) => Vec::new(),
            Term::Unreachable => Vec::new(),
        }
    }
}

impl Code {
    /// How many values the body has.
    pub fn values(&self) -> (r: usize)
        ensures
            r == self.types.len(),
    {
        self.types.len()
    }

    /// The type of a value; a value the body does not have holds nothing.
    pub open spec fn ty(self, v: usize) -> Type {
        at_or(self.types@, v as int, Type::Unit)
    }

    /// The type of a value; a value the body does not have holds nothing.
    pub fn ty_of(&self, v: usize) -> (r: Type)
        ensures
            r == self.ty(v),
    {
        ent(&self.types, v, Type::Unit)
    }

    /// The parameters of a block; a block the body does not have takes none.
    pub open spec fn params(self, b: usize) -> Seq<usize> {
        if b < self.blocks.len() {
            self.blocks[b as int].params@
        } else {
            Seq::empty()
        }
    }

    /// The parameters of a block; a block the body does not have takes none.
    pub fn params_of(&self, b: usize) -> (r: Vec<usize>)
        ensures
            r@ == self.params(b),
    {
        if b < self.blocks.len() {
            copy_of(&self.blocks[b].params)
        } else {
            Vec::new()
        }
    }
}

} // verus!
