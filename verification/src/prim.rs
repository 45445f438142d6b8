//! The primitive types and the operators the selector knows.
use vstd::prelude::*;

use crate::text::same;

verus! {

/// A primitive type of the source language.
#[derive(Clone, Copy, PartialEq, Eq, Structural, Debug)]
pub enum Prim {
    Bool,
    I8,
    I16,
    I32,
    I64,
    U8,
    U16,
    U32,
    U64,
    Char,
    F32,
    F64,
    I128,
    U128,
    Str,
    Template,
}

/// A binary operator.
#[derive(Clone, Copy, PartialEq, Eq, Structural, Debug)]
pub enum BinOp {
    Add,
    Sub,
    Mul,
    Div,
    Rem,
    BitAnd,
    BitOr,
    BitXor,
    Eq,
    Ne,
    Lt,
    Le,
    Gt,
    Ge,
}

/// A unary operator.
#[derive(Clone, Copy, PartialEq, Eq, Structural, Debug)]
pub enum UnOp {
    Not,
    Neg,
    BitNot,
}

/// A derived operation that reaches a backend by name.
#[derive(Clone, Copy, PartialEq, Eq, Structural, Debug)]
pub enum StructuralOp {
    Show,
    Eq,
    Cmp,
    Hash,
    ToJson,
}

impl StructuralOp {
    /// The operation's name.
    pub open spec fn text(self) -> Seq<char> {
        match self {
            StructuralOp::Show => "Show"@,
            StructuralOp::Eq => "Eq"@,
            StructuralOp::Cmp => "Cmp"@,
            StructuralOp::Hash => "Hash"@,
            StructuralOp::ToJson => "ToJson"@,
        }
    }

    /// The operation's name.
    pub fn name(self) -> (r: &'static str)
        ensures
            r@ == self.text(),
    {
        match self {
            StructuralOp::Show => "Show",
            StructuralOp::Eq => "Eq",
            StructuralOp::Cmp => "Cmp",
            StructuralOp::Hash => "Hash",
            StructuralOp::ToJson => "ToJson",
        }
    }
}

impl BinOp {
    /// Whether the operator answers a truth value.
    pub open spec fn compares(self) -> bool {
        self == BinOp::Eq || self == BinOp::Ne || self == BinOp::Lt || self == BinOp::Le || self
            == BinOp::Gt || self == BinOp::Ge
    }

    /// Whether the operator answers a truth value.
    pub fn is_comparison(self) -> (r: bool)
        ensures
            r == self.compares(),
    {
        match self {
            BinOp::Eq | BinOp::Ne | BinOp::Lt | BinOp::Le | BinOp::Gt | BinOp::Ge => true,
            _ => false,
        }
    }

    /// The operator's own name, as a diagnostic spells it.
    pub open spec fn text(self) -> Seq<char> {
        match self {
            BinOp::Add => "Add"@,
            BinOp::Sub => "Sub"@,
            BinOp::Mul => "Mul"@,
            BinOp::Div => "Div"@,
            BinOp::Rem => "Rem"@,
            BinOp::BitAnd => "BitAnd"@,
            BinOp::BitOr => "BitOr"@,
            BinOp::BitXor => "BitXor"@,
            BinOp::Eq => "Eq"@,
            BinOp::Ne => "Ne"@,
            BinOp::Lt => "Lt"@,
            BinOp::Le => "Le"@,
            BinOp::Gt => "Gt"@,
            BinOp::Ge => "Ge"@,
        }
    }

    /// The operator's own name, as a diagnostic spells it.
    pub fn name(self) -> (r: &'static str)
        ensures
            r@ == self.text(),
    {
        match self {
            BinOp::Add => "Add",
            BinOp::Sub => "Sub",
            BinOp::Mul => "Mul",
            BinOp::Div => "Div",
            BinOp::Rem => "Rem",
            BinOp::BitAnd => "BitAnd",
            BinOp::BitOr => "BitOr",
            BinOp::BitXor => "BitXor",
            BinOp::Eq => "Eq",
            BinOp::Ne => "Ne",
            BinOp::Lt => "Lt",
            BinOp::Le => "Le",
            BinOp::Gt => "Gt",
            BinOp::Ge => "Ge",
        }
    }
}

impl Prim {
    /// Whether the type is one of the two floats.
    pub open spec fn float(self) -> bool {
        self == Prim::F32 || self == Prim::F64
    }

    /// Whether the type is one of the two floats.
    pub fn is_float(self) -> (r: bool)
        ensures
            r == self.float(),
    {
        match self {
            Prim::F32 | Prim::F64 => true,
            _ => false,
        }
    }

    /// Whether the type is one of the ten integers.
    pub open spec fn integer(self) -> bool {
        self == Prim::I8 || self == Prim::I16 || self == Prim::I32 || self == Prim::I64 || self
            == Prim::I128 || self == Prim::U8 || self == Prim::U16 || self == Prim::U32 || self
            == Prim::U64 || self == Prim::U128
    }

    /// Whether the type is one of the ten integers.
    pub fn is_integer(self) -> (r: bool)
        ensures
            r == self.integer(),
    {
        match self {
            Prim::I8
            | Prim::I16
            | Prim::I32
            | Prim::I64
            | Prim::I128
            | Prim::U8
            | Prim::U16
            | Prim::U32
            | Prim::U64
            | Prim::U128 => true,
            _ => false,
        }
    }

    /// Whether the type is a string, rendered or still a template.
    pub open spec fn stringy(self) -> bool {
        self == Prim::Str || self == Prim::Template
    }

    /// Whether the type is a string, rendered or still a template.
    pub fn is_stringy(self) -> (r: bool)
        ensures
            r == self.stringy(),
    {
        match self {
            Prim::Str | Prim::Template => true,
            _ => false,
        }
    }

    /// The type's name in the source language.
    pub open spec fn text(self) -> Seq<char> {
        match self {
            Prim::Bool => "Bool"@,
            Prim::I8 => "I8"@,
            Prim::I16 => "I16"@,
            Prim::I32 => "I32"@,
            Prim::I64 => "I64"@,
            Prim::U8 => "U8"@,
            Prim::U16 => "U16"@,
            Prim::U32 => "U32"@,
            Prim::U64 => "U64"@,
            Prim::Char => "Char"@,
            Prim::F32 => "F32"@,
            Prim::F64 => "F64"@,
            Prim::I128 => "I128"@,
            Prim::U128 => "U128"@,
            Prim::Str => "Str"@,
            Prim::Template => "Template"@,
        }
    }

    /// The type's name in the source language.
    pub fn name(self) -> (r: &'static str)
        ensures
            r@ == self.text(),
    {
        match self {
            Prim::Bool => "Bool",
            Prim::I8 => "I8",
            Prim::I16 => "I16",
            Prim::I32 => "I32",
            Prim::I64 => "I64",
            Prim::U8 => "U8",
            Prim::U16 => "U16",
            Prim::U32 => "U32",
            Prim::U64 => "U64",
            Prim::Char => "Char",
            Prim::F32 => "F32",
            Prim::F64 => "F64",
            Prim::I128 => "I128",
            Prim::U128 => "U128",
            Prim::Str => "Str",
            Prim::Template => "Template",
        }
    }

    /// The lowest and the highest value of an integer type.
    pub open spec fn range(self) -> (int, int) {
        match self {
            Prim::I8 => (-0x80, 0x7f),
            Prim::I16 => (-0x8000, 0x7fff),
            Prim::I32 => (-0x8000_0000, 0x7fff_ffff),
            Prim::I64 => (-0x8000_0000_0000_0000, 0x7fff_ffff_ffff_ffff),
            Prim::I128 => (
                -0x8000_0000_0000_0000_0000_0000_0000_0000,
                0x7fff_ffff_ffff_ffff_ffff_ffff_ffff_ffff,
            ),
            Prim::U8 => (0, 0xff),
            Prim::U16 => (0, 0xffff),
            Prim::U32 => (0, 0xffff_ffff),
            Prim::U64 => (0, 0xffff_ffff_ffff_ffff),
            _ => (0, 0xffff_ffff_ffff_ffff_ffff_ffff_ffff_ffff),
        }
    }

    /// The lowest and the highest value of an integer type, and `None` for a
    /// type that is not one.
    pub fn int_range(self) -> (r: Option<(i128, u128)>)
        ensures
            match r {
                Some(p) => self.integer() && p.0 == self.range().0 && p.1 == self.range().1,
                None => !self.integer(),
            },
    {
        match self {
            Prim::I8 => Some((-0x80i128, 0x7fu128)),
            Prim::I16 => Some((-0x8000i128, 0x7fffu128)),
            Prim::I32 => Some((-0x8000_0000i128, 0x7fff_ffffu128)),
            Prim::I64 => Some((-0x8000_0000_0000_0000i128, 0x7fff_ffff_ffff_ffffu128)),
            Prim::I128 => Some((i128::MIN, 0x7fff_ffff_ffff_ffff_ffff_ffff_ffff_ffffu128)),
            Prim::U8 => Some((0i128, 0xffu128)),
            Prim::U16 => Some((0i128, 0xffffu128)),
            Prim::U32 => Some((0i128, 0xffff_ffffu128)),
            Prim::U64 => Some((0i128, 0xffff_ffff_ffff_ffffu128)),
            Prim::U128 => Some((0i128, 0xffff_ffff_ffff_ffff_ffff_ffff_ffff_ffffu128)),
            _ => None,
        }
    }
}

/// The tag, the width in bits and the signedness a primitive has in a stencil
/// key, for the primitives a stencil exists at.
pub open spec fn tag_of(p: Prim) -> Option<(Seq<char>, u32, bool)> {
    match p {
        Prim::Bool => Some(("u64"@, 64u32, false)),
        Prim::I8 => Some(("i8"@, 8u32, true)),
        Prim::I16 => Some(("i16"@, 16u32, true)),
        Prim::I32 => Some(("i32"@, 32u32, true)),
        Prim::I64 => Some(("i64"@, 64u32, true)),
        Prim::U8 => Some(("u8"@, 8u32, false)),
        Prim::U16 => Some(("u16"@, 16u32, false)),
        Prim::U32 => Some(("u32"@, 32u32, false)),
        Prim::U64 => Some(("u64"@, 64u32, false)),
        Prim::Char => Some(("u32"@, 32u32, false)),
        Prim::F32 => Some(("f32"@, 32u32, true)),
        Prim::F64 => Some(("f64"@, 64u32, true)),
        Prim::I128 => Some(("i128"@, 128u32, true)),
        Prim::U128 => Some(("u128"@, 128u32, false)),
        Prim::Str => None,
        Prim::Template => None,
    }
}

/// The tag, the width in bits and the signedness a primitive has in a stencil
/// key, for the primitives a stencil exists at.
pub fn prim_tag(p: Prim) -> (r: Option<(&'static str, u32, bool)>)
    ensures
        match r {
            Some(t) => tag_of(p) == Some((t.0@, t.1, t.2)),
            None => tag_of(p) is None,
        },
{
    Some(
        match p {
            Prim::Bool => ("u64", 64u32, false),
            Prim::I8 => ("i8", 8u32, true),
            Prim::I16 => ("i16", 16u32, true),
            Prim::I32 => ("i32", 32u32, true),
            Prim::I64 => ("i64", 64u32, true),
            Prim::U8 => ("u8", 8u32, false),
            Prim::U16 => ("u16", 16u32, false),
            Prim::U32 => ("u32", 32u32, false),
            Prim::U64 => ("u64", 64u32, false),
            Prim::Char => ("u32", 32u32, false),
            Prim::F32 => ("f32", 32u32, true),
            Prim::F64 => ("f64", 64u32, true),
            Prim::I128 => ("i128", 128u32, true),
            Prim::U128 => ("u128", 128u32, false),
            Prim::Str => return None,
            Prim::Template => return None,
        },
    )
}

/// The name an operator has in a stencil key.
pub open spec fn op_name(op: BinOp) -> Seq<char> {
    match op {
        BinOp::Add => "add"@,
        BinOp::Sub => "sub"@,
        BinOp::Mul => "mul"@,
        BinOp::Div => "div"@,
        BinOp::Rem => "rem"@,
        BinOp::BitAnd => "and"@,
        BinOp::BitOr => "or"@,
        BinOp::BitXor => "xor"@,
        BinOp::Eq => "eq"@,
        BinOp::Ne => "ne"@,
        BinOp::Lt => "lt"@,
        BinOp::Le => "le"@,
        BinOp::Gt => "gt"@,
        BinOp::Ge => "ge"@,
    }
}

/// The name an operator has in a stencil key.
pub fn binop_name(op: BinOp) -> (r: &'static str)
    ensures
        r@ == op_name(op),
{
    match op {
        BinOp::Add => "add",
        BinOp::Sub => "sub",
        BinOp::Mul => "mul",
        BinOp::Div => "div",
        BinOp::Rem => "rem",
        BinOp::BitAnd => "and",
        BinOp::BitOr => "or",
        BinOp::BitXor => "xor",
        BinOp::Eq => "eq",
        BinOp::Ne => "ne",
        BinOp::Lt => "lt",
        BinOp::Le => "le",
        BinOp::Gt => "gt",
        BinOp::Ge => "ge",
    }
}

/// The primitive of a name, where the name is one's.
pub open spec fn named(s: Seq<char>) -> Option<Prim> {
    if s == "Bool"@ {
        Some(Prim::Bool)
    } else if s == "I8"@ {
        Some(Prim::I8)
    } else if s == "I16"@ {
        Some(Prim::I16)
    } else if s == "I32"@ {
        Some(Prim::I32)
    } else if s == "I64"@ {
        Some(Prim::I64)
    } else if s == "U8"@ {
        Some(Prim::U8)
    } else if s == "U16"@ {
        Some(Prim::U16)
    } else if s == "U32"@ {
        Some(Prim::U32)
    } else if s == "U64"@ {
        Some(Prim::U64)
    } else if s == "F32"@ {
        Some(Prim::F32)
    } else if s == "F64"@ {
        Some(Prim::F64)
    } else if s == "Char"@ {
        Some(Prim::Char)
    } else if s == "I128"@ {
        Some(Prim::I128)
    } else if s == "U128"@ {
        Some(Prim::U128)
    } else if s == "Str"@ {
        Some(Prim::Str)
    } else if s == "Template"@ {
        Some(Prim::Template)
    } else {
        None
    }
}

/// The primitive of a name, where the name is one's.
pub fn prim_of_name(s: &str) -> (r: Option<Prim>)
    ensures
        r == named(s@),
{
    if same(s, "Bool") {
        Some(Prim::Bool)
    } else if same(s, "I8") {
        Some(Prim::I8)
    } else if same(s, "I16") {
        Some(Prim::I16)
    } else if same(s, "I32") {
        Some(Prim::I32)
    } else if same(s, "I64") {
        Some(Prim::I64)
    } else if same(s, "U8") {
        Some(Prim::U8)
    } else if same(s, "U16") {
        Some(Prim::U16)
    } else if same(s, "U32") {
        Some(Prim::U32)
    } else if same(s, "U64") {
        Some(Prim::U64)
    } else if same(s, "F32") {
        Some(Prim::F32)
    } else if same(s, "F64") {
        Some(Prim::F64)
    } else if same(s, "Char") {
        Some(Prim::Char)
    } else if same(s, "I128") {
        Some(Prim::I128)
    } else if same(s, "U128") {
        Some(Prim::U128)
    } else if same(s, "Str") {
        Some(Prim::Str)
    } else if same(s, "Template") {
        Some(Prim::Template)
    } else {
        None
    }
}

/// Every primitive is found again by its name.
pub proof fn every_primitive_is_found_by_its_name(p: Prim)
    ensures
        named(p.text()) == Some(p),
{
    reveal_strlit("Bool");
    reveal_strlit("I8");
    reveal_strlit("I16");
    reveal_strlit("I32");
    reveal_strlit("I64");
    reveal_strlit("U8");
    reveal_strlit("U16");
    reveal_strlit("U32");
    reveal_strlit("U64");
    reveal_strlit("F32");
    reveal_strlit("F64");
    reveal_strlit("Char");
    reveal_strlit("I128");
    reveal_strlit("U128");
    reveal_strlit("Str");
    reveal_strlit("Template");
    assert("I8"@[1] == '8' && "I16"@[1] == '1' && "I32"@[1] == '3' && "I64"@[1] == '6');
    assert("U8"@[1] == '8' && "U16"@[1] == '1' && "U32"@[1] == '3' && "U64"@[1] == '6');
    assert("F32"@[1] == '3' && "F64"@[1] == '6');
    assert("I8"@[0] == 'I' && "I16"@[0] == 'I' && "I32"@[0] == 'I' && "I64"@[0] == 'I');
    assert("U8"@[0] == 'U' && "U16"@[0] == 'U' && "U32"@[0] == 'U' && "U64"@[0] == 'U');
    assert("F32"@[0] == 'F' && "F64"@[0] == 'F' && "Str"@[0] == 'S' && "Bool"@[0] == 'B');
    assert("Char"@[0] == 'C' && "I128"@[0] == 'I' && "U128"@[0] == 'U' && "Template"@[0] == 'T');
    assert(named("Bool"@) == Some(Prim::Bool));
    assert(named("I8"@) == Some(Prim::I8));
    assert(named("I16"@) == Some(Prim::I16));
    assert(named("I32"@) == Some(Prim::I32));
    assert(named("I64"@) == Some(Prim::I64));
    assert(named("U8"@) == Some(Prim::U8));
    assert(named("U16"@) == Some(Prim::U16));
    assert(named("U32"@) == Some(Prim::U32));
    assert(named("U64"@) == Some(Prim::U64));
    assert(named("Char"@) == Some(Prim::Char));
    assert(named("F32"@) == Some(Prim::F32));
    assert(named("F64"@) == Some(Prim::F64));
    assert("I128"@.len() == 4 && "U128"@.len() == 4 && "Bool"@.len() == 4 && "Char"@.len() == 4);
    assert("I128"@ != "Bool"@ && "I128"@ != "Char"@ && "U128"@ != "Bool"@ && "U128"@ != "Char"@);
    assert("I128"@ != "U128"@);
    assert(named("I128"@) == Some(Prim::I128));
    assert(named("U128"@) == Some(Prim::U128));
    assert(named("Str"@) == Some(Prim::Str));
    assert(named("Template"@) == Some(Prim::Template));
}

} // verus!
