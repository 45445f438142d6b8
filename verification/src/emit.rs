//! Instruction selection: one instruction to one or more stencils.
//!
//! Each arm names a stencil key, or falls back to a shorter sequence of more
//! general ones where the library has no such stencil.
use vstd::prelude::*;
use vstd::utf8::encode_utf8;

use crate::abi::Loc;
use crate::ir::Body;
use crate::ir::Code;
use crate::ir::Const;
use crate::ir::Program;
use crate::ir::Type;
use crate::keys::inline_runtime_key;
use crate::keys::inlined;
use crate::lists::Operands;
use crate::lists::EQUAL;
use crate::lists::GREATER;
use crate::lists::LESS;
use crate::prim::binop_name;
use crate::prim::op_name;
use crate::prim::prim_tag;
use crate::prim::tag_of;
use crate::prim::BinOp;
use crate::prim::Prim;
use crate::prim::StructuralOp;
use crate::prim::UnOp;
use crate::select::plus;
use crate::select::Emit;
use crate::select::Env;
use crate::select::FrameSig;
use crate::select::Helper;
use crate::select::Item;
use crate::select::Op;
use crate::select::Ret;
use crate::select::Sel;
use crate::select::Src;
use crate::select::H;
use crate::select::V;
use crate::text::decimal;
use crate::text::decimal_of;
use crate::text::join2;
use crate::text::join3;
use crate::text::join4;
use crate::text::join5;
use crate::text::own;
use crate::types::arm_of;
use crate::types::at_or;
use crate::types::ent;
use crate::types::json_arm;
use crate::types::EnumRepr;
use crate::types::JsonArm;
use crate::types::Layout;
use crate::types::Shape;
use crate::types::TypeInfo;
use crate::walk::ENV_COPY_WORD;
use crate::walk::ENV_FIELDS;
use crate::walk::ENV_WORD;
use crate::walk::RAW_WORD;

verus! {

/// How many values a field of `w` bytes has, for a field narrower than a word.
pub open spec fn span(w: u32) -> u64 {
    if w == 0 {
        1
    } else if w == 1 {
        0x100
    } else if w == 2 {
        0x1_0000
    } else if w == 3 {
        0x100_0000
    } else if w == 4 {
        0x1_0000_0000
    } else if w == 5 {
        0x100_0000_0000
    } else if w == 6 {
        0x1_0000_0000_0000
    } else {
        0x100_0000_0000_0000
    }
}

fn span_of(w: u32) -> (r: u64)
    ensures
        r == span(w),
        r > 0,
{
    if w == 0 {
        1
    } else if w == 1 {
        0x100
    } else if w == 2 {
        0x1_0000
    } else if w == 3 {
        0x100_0000
    } else if w == 4 {
        0x1_0000_0000
    } else if w == 5 {
        0x100_0000_0000
    } else if w == 6 {
        0x1_0000_0000_0000
    } else {
        0x100_0000_0000_0000
    }
}

/// The two's complement of a 128-bit magnitude.
pub open spec fn signed128(bits: u128, negative: bool) -> u128 {
    if negative && bits != 0 {
        (u128::MAX - bits + 1) as u128
    } else {
        bits
    }
}

/// The two's complement of a 64-bit magnitude.
pub open spec fn signed64(bits: u64, negative: bool) -> u64 {
    if negative && bits != 0 {
        (u64::MAX - bits + 1) as u64
    } else {
        bits
    }
}

/// What is refused where an instruction is at another type than its own.
pub open spec fn non_aggregate(what: Seq<char>) -> Seq<char> {
    what + " of a non-aggregate"@
}

/// The operands of a call, as frame offsets and types.
pub open spec fn operands_of(e: Env, code: Code, args: Seq<usize>) -> Seq<(u32, Type)> {
    Seq::new(args.len(), |i: int| (e.at(args[i]) as u32, code.ty(args[i])))
}

/// The first of some values as an operand.
pub open spec fn first_operand(e: Env, code: Code, vs: Seq<usize>) -> Option<(u32, Type)> {
    if vs.len() > 0 {
        Some((e.at(vs[0]) as u32, code.ty(vs[0])))
    } else {
        None
    }
}

/// Which of a concatenation's arguments is its context.
pub open spec fn concat_ctx(n: int) -> Option<int> {
    if n == 3 {
        Some(1)
    } else {
        None
    }
}

impl Env {
    /// Whether every use of a value is an immediate.
    pub open spec fn folded(self, v: usize) -> bool {
        at_or(self.side.folded, v as int, false)
    }

    /// The literal of a value, or zero.
    pub open spec fn constant(self, v: usize) -> u64 {
        match at_or(self.side.constants, v as int, None) {
            Some(k) => k,
            None => 0,
        }
    }

    /// Whether a value's slot is kept in step with its register.
    pub open spec fn write_through(self, v: usize) -> bool {
        at_or(self.side.wt, v as int, false)
    }

    /// The frame offset of argument `i`, or zero.
    pub open spec fn arg(self, args: Seq<usize>, i: int) -> u64 {
        if 0 <= i < args.len() {
            self.at(args[i])
        } else {
            0
        }
    }
}

impl Sel {
    /// A literal into a value's slot.
    pub open spec fn constant(self, e: Env, off: u64, ty: Type, value: Const) -> Sel {
        match value {
            Const::Unit => self.imm_to(off, 0),
            Const::Undef => self.imm_to(off, 0),
            Const::Null => self.imm_to(off, 0),
            Const::Bool(b) => self.imm_to(
                off,
                if b {
                    1
                } else {
                    0
                },
            ),
            Const::Char(c) => self.imm_to(off, (c as u32) as u64),
            Const::Int { bits, negative } => if e.width(ty) > 8 {
                let x = signed128(bits, negative);
                self.imm_to(off, x as u64).imm_to((off + 8) as u64, (x >> 64) as u64)
            } else {
                let x = signed64(bits as u64, negative);
                self.imm_to(
                    off,
                    if e.width(ty) == 8 {
                        x
                    } else {
                        x % span(e.width(ty))
                    },
                )
            },
            Const::Float { wide, narrow } => self.imm_to(
                off,
                if ty == Type::F32 {
                    narrow as u64
                } else {
                    wide
                },
            ),
            Const::Str(s) => self.str_literal(off, encode_utf8(s@)),
        }
    }

    /// A boxed field written: a block, the value in it, and its pointer.
    pub open spec fn box_into(self, e: Env, dest: u64, src: u64, size: u64) -> Sel {
        let ptr = e.word(0);
        let one = e.word(1);
        self.imm_to(one, 1).new_elems(ptr, one, size).imm_to(one, 0).elem_store(
            e,
            src,
            ptr,
            one,
            8,
            size,
        ).mv(dest, ptr, 8)
    }

    /// A boxed field read.
    pub open spec fn unbox_from(self, e: Env, dest: u64, at: u64, size: u64) -> Sel {
        let zero = e.word(1);
        self.imm_to(zero, 0).elem_load(e, dest, at, zero, 8, size)
    }

    /// One field written at `to`.
    pub open spec fn write_field(self, e: Env, boxed: bool, to: u64, src: u64, w: u64) -> Sel {
        if boxed {
            self.box_into(e, to, src, w)
        } else {
            self.store_w(to, src, w)
        }
    }

    /// One field read from `from`.
    pub open spec fn read_field(self, e: Env, boxed: bool, d: u64, from: u64, w: u64) -> Sel {
        if boxed {
            self.unbox_from(e, d, from, w)
        } else {
            self.load_w(d, from, w)
        }
    }

    /// The fields of a struct from field `i` on.
    pub open spec fn struct_fields(
        self,
        e: Env,
        code: Code,
        id: usize,
        d: u64,
        fields: Seq<usize>,
        i: int,
    ) -> Sel
        decreases fields.len() - i,
    {
        if i >= fields.len() {
            self
        } else {
            let info = e.prog.tables.at(id as int);
            let w = e.width(code.ty(fields[i]));
            let s = if w == 0 || i >= info.layout.fields.len() {
                self
            } else {
                self.write_field(
                    e,
                    info.field_boxed(i),
                    (d + info.layout.fields[i]) as u64,
                    e.at(fields[i]),
                    w as u64,
                )
            };
            s.struct_fields(e, code, id, d, fields, i + 1)
        }
    }

    /// A struct built in place.
    pub open spec fn make_struct(self, e: Env, code: Code, dest: usize, fields: Seq<usize>) -> Sel {
        match code.ty(dest) {
            Type::Agg(id) => self.struct_fields(e, code, id, e.at(dest), fields, 0),
            _ => self.unsupported(non_aggregate("MakeStruct"@)),
        }
    }

    /// A field of a struct.
    pub open spec fn get_field(self, e: Env, code: Code, dest: usize, agg: usize, index: usize) -> Sel {
        match code.ty(agg) {
            Type::Agg(id) => {
                let info = e.prog.tables.at(id as int);
                if index < info.layout.fields.len() {
                    self.read_field(
                        e,
                        info.field_boxed(index as int),
                        e.at(dest),
                        (e.at(agg) + info.layout.fields[index as int]) as u64,
                        e.width(code.ty(dest)) as u64,
                    )
                } else {
                    self
                }
            },
            _ => self.unsupported(non_aggregate("GetField"@)),
        }
    }

    /// The payload fields of a variant from field `i` on.
    pub open spec fn store_variant(
        self,
        e: Env,
        code: Code,
        id: usize,
        variant: usize,
        d: u64,
        fields: Seq<usize>,
        i: int,
    ) -> Sel
        decreases fields.len() - i,
    {
        if i >= fields.len() {
            self
        } else {
            let info = e.prog.tables.at(id as int);
            let s = match info.layout.payload(variant as int, i) {
                Some(o) => self.write_field(
                    e,
                    info.payload_boxed(variant as int, i),
                    (d + o) as u64,
                    e.at(fields[i]),
                    e.width(code.ty(fields[i])) as u64,
                ),
                None => self,
            };
            s.store_variant(e, code, id, variant, d, fields, i + 1)
        }
    }

    /// An enum built in place.
    pub open spec fn make_enum(
        self,
        e: Env,
        code: Code,
        dest: usize,
        variant: usize,
        fields: Seq<usize>,
    ) -> Sel {
        match code.ty(dest) {
            Type::Agg(id) => {
                let l = e.layout(id);
                let d = e.at(dest);
                match l.tagging() {
                    None => self.unsupported("MakeEnum of a non-enum layout"@),
                    Some(EnumRepr::Bare { tag }) => self.imm_w(d, tag as u64, variant as u64),
                    Some(EnumRepr::Tagged { tag }) => self.imm_w(
                        d,
                        tag as u64,
                        variant as u64,
                    ).store_variant(e, code, id, variant, d, fields, 0),
                    Some(EnumRepr::Niche { null_at }) => if l.arity(variant as int) == 0 {
                        self.imm_to((d + null_at) as u64, 0)
                    } else {
                        self.store_variant(e, code, id, variant, d, fields, 0)
                    },
                }
            },
            _ => self.unsupported(non_aggregate("MakeEnum"@)),
        }
    }

    /// A payload field of an enum.
    pub open spec fn get_payload(
        self,
        e: Env,
        code: Code,
        dest: usize,
        agg: usize,
        variant: usize,
        index: usize,
    ) -> Sel {
        match code.ty(agg) {
            Type::Agg(id) => {
                let info = e.prog.tables.at(id as int);
                match info.layout.payload(variant as int, index as int) {
                    Some(o) => self.read_field(
                        e,
                        info.payload_boxed(variant as int, index as int),
                        e.at(dest),
                        (e.at(agg) + o) as u64,
                        e.width(code.ty(dest)) as u64,
                    ),
                    None => self.unsupported("GetPayload of an absent field"@),
                }
            },
            _ => self.unsupported(non_aggregate("GetPayload"@)),
        }
    }

    /// The variant of an enum.
    pub open spec fn get_tag(self, e: Env, code: Code, dest: usize, agg: usize) -> Sel {
        match code.ty(agg) {
            Type::Agg(id) => if e.layout(id).tagging() is None {
                self.unsupported("GetTag of a non-enum layout"@)
            } else {
                self.load_disc(e.layout(id), e.at(agg), e.at(dest))
            },
            _ => self.unsupported(non_aggregate("GetTag"@)),
        }
    }

    /// A helper registered where `wanted`.
    pub open spec fn helper_if(self, wanted: bool, h: Helper) -> Sel {
        if wanted {
            self.helper(h)
        } else {
            self
        }
    }

    /// The index of such a helper.
    pub open spec fn helper_index_if(self, wanted: bool, h: Helper) -> Option<usize> {
        if wanted {
            Some(self.helper_index(h))
        } else {
            None
        }
    }

    /// One function pointer of an environment block.
    pub open spec fn env_word(self, e: Env, h: Option<usize>, at: u64) -> Sel {
        let word = e.word(2);
        self.sym_or_zero(word, h).emit(
            "pstore/8"@,
            seq![
                (H::A, V::I(e.word(0))),
                (H::B, V::I(word)),
                (H::N, V::I(at)),
                (H::Cont, V::Fall),
            ],
        )
    }

    /// An environment block: its release function, its copy function, and the
    /// captured record.
    pub open spec fn build_env(self, e: Env, code: Code, dest: u64, env: usize) -> Sel {
        let ty = code.ty(env);
        let size = e.width(ty) as u64;
        let block = e.word(0);
        let one = e.word(1);
        let s = self.imm_to(one, 1).new_elems(block, one, (size + ENV_FIELDS) as u64);
        let counted = e.counted_ty(ty);
        let walk = Helper::Walk { ty: counted->0, retain: false };
        let copy = Helper::Copy { ty: counted->0 };
        let s1 = s.helper_if(counted is Some, walk);
        let s2 = s1.helper_if(counted is Some, copy);
        let s = s2.env_word(e, s.helper_index_if(counted is Some, walk), 0).env_word(
            e,
            s1.helper_index_if(counted is Some, copy),
            ENV_COPY_WORD,
        );
        let s = if size > 0 {
            s.elem_store(e, e.at(env), block, one, ENV_FIELDS, size)
        } else {
            s
        };
        s.mv(dest, block, 8)
    }

    /// A closure built in place: its thunk and its environment.
    pub open spec fn make_closure(
        self,
        e: Env,
        code: Code,
        dest: usize,
        func: usize,
        env: Option<usize>,
    ) -> Sel {
        let d = e.at(dest);
        let want = match code.ty(dest) {
            Type::Agg(id) => match e.prog.tables.at(id as int).shape {
                Shape::Fn { params, ret } => Some(params.len()),
                _ => None,
            },
            _ => None,
        };
        match want {
            None => self.unsupported("MakeClosure of a value that is not a function"@),
            Some(args) => {
                let h = Helper::Thunk { func, args, boxed: env is Some };
                let s = self.helper(h).imm_to_ptr(d, V::Sym(self.helper_index(h)));
                match env {
                    Some(v) => s.build_env(e, code, (d + ENV_WORD) as u64, v),
                    None => s.imm_to((d + ENV_WORD) as u64, 0),
                }
            },
        }
    }

    /// The abort with a message.
    pub open spec fn abort(self, bytes: Seq<u8>) -> Sel {
        let p = self.literal();
        self.pool(bytes).emit(
            "abort"@,
            seq![(H::M, V::Ptr(p)), (H::N, V::I(bytes.len() as u64))],
        )
    }

    /// One element of `w` bytes stored into a block at offset `base`, from byte
    /// `done` on.
    pub open spec fn store_pieces(self, d0: u64, src: u64, base: u64, done: u64, w: u64) -> Sel
        decreases w - done,
    {
        if done >= w {
            self
        } else {
            let n = piece((w - done) as u64);
            self.emit(
                "pstore/"@ + decimal(n as nat),
                seq![
                    (H::A, V::I(d0)),
                    (H::B, V::I((src + done) as u64)),
                    (H::N, V::I((base + done) as u64)),
                    (H::Cont, V::Fall),
                ],
            ).store_pieces(d0, src, base, (done + n) as u64, w)
        }
    }

    /// The elements of a list from element `i` on, the first of them at offset
    /// `base`.
    pub open spec fn store_elems(
        self,
        e: Env,
        code: Code,
        d0: u64,
        stride: u64,
        elems: Seq<usize>,
        i: int,
        base: u64,
    ) -> Sel
        decreases elems.len() - i,
    {
        if i >= elems.len() {
            self
        } else {
            let w = e.width(code.ty(elems[i])) as u64;
            let n = if w < stride {
                w
            } else {
                stride
            };
            self.store_pieces(d0, e.at(elems[i]), base, 0, n).store_elems(
                e,
                code,
                d0,
                stride,
                elems,
                i + 1,
                (base + stride) as u64,
            )
        }
    }

    /// A list built in a fresh block.
    pub open spec fn make_array(self, e: Env, code: Code, dest: usize, elems: Seq<usize>) -> Sel {
        match e.element(code.ty(dest)) {
            None => self.unsupported("MakeArray of a non-list"@),
            Some(elem) => {
                let d0 = e.at(dest);
                let n = e.word(0);
                let stride = e.stride(elem) as u64;
                self.imm_to(n, elems.len() as u64).new_elems(d0, n, stride).imm_to(
                    (d0 + 8) as u64,
                    elems.len() as u64,
                ).store_elems(e, code, d0, stride, elems, 0, 0)
            },
        }
    }

    /// An element of a list, its index already checked.
    pub open spec fn array_get(self, e: Env, code: Code, dest: usize, array: usize, index: usize) -> Sel {
        match e.element(code.ty(array)) {
            None => self.unsupported("ArrayGet of a non-array"@),
            Some(elem) => {
                let s0 = e.word(6);
                self.mv(s0, e.at(array), 8).elem_load(
                    e,
                    e.at(dest),
                    s0,
                    e.at(index),
                    e.stride(elem) as u64,
                    e.elem_size(elem) as u64,
                )
            },
        }
    }

    /// A copy of a list from an index on.
    pub open spec fn array_slice(self, e: Env, code: Code, dest: usize, array: usize, from: usize) -> Sel {
        match e.element(code.ty(array)) {
            None => self.unsupported("ArraySlice of a non-array"@),
            Some(elem) => {
                let src = e.at(array);
                let len = (src + 8) as u64;
                let h = Helper::Walk { ty: elem, retain: true };
                let glue = match self.helper_index_if(e.owns(elem), h) {
                    Some(i) => Src::Sym(i),
                    None => Src::Imm(0),
                };
                self.helper_if(e.owns(elem), h).c_call(
                    "buri_rt_list_slice"@,
                    seq![
                        Src::Word(src),
                        Src::Word(len),
                        Src::Word(e.at(from)),
                        Src::Word(len),
                        Src::Imm(e.stride(elem) as u64),
                        glue,
                        Src::Addr(e.at(dest)),
                    ],
                    Seq::empty(),
                    e.at(dest),
                    Ret::Void,
                )
            },
        }
    }

    /// A derived operation left to the backend: only the rendering of a
    /// primitive is one.
    pub open spec fn structural(
        self,
        e: Env,
        code: Code,
        dest: usize,
        op: StructuralOp,
        ty: usize,
        args: Seq<usize>,
    ) -> Sel {
        let info = e.prog.tables.at(ty as int);
        if op != StructuralOp::Show {
            self.unsupported("Structural::"@ + op.text() + " on `"@ + info.name@ + "`"@)
        } else if args.len() == 0 {
            self
        } else {
            match info.prim {
                None => self.unsupported(
                    "Structural::Show of a non-primitive `"@ + info.name@ + "`"@,
                ),
                Some(p) => if p.stringy() {
                    self.mv(e.at(dest), e.at(args[0]), e.width(code.ty(dest)) as u64)
                } else {
                    self.add(
                        Item::Show {
                            prim: p,
                            src: e.at(args[0]),
                            dest: e.at(dest),
                            quoted: false,
                        },
                    )
                },
            }
        }
    }

    /// A comparison of two strings.
    pub open spec fn str_binary(self, e: Env, dest: usize, op: BinOp, lhs: usize, rhs: usize) -> Sel {
        if !op.compares() {
            self.unsupported("Binary "@ + op.text() + " at Str"@)
        } else {
            let raw = e.word(RAW_WORD as int);
            self.add(
                Item::StrCompare {
                    symbol: compare_symbol(op),
                    a: e.at(lhs),
                    b: e.at(rhs),
                    dest: raw,
                },
            ).add(
                Item::OrderTest {
                    raw,
                    dest: e.at(dest),
                    negate: op == BinOp::Ne,
                    want: compare_want(op),
                },
            )
        }
    }

    /// A binary operator: its own stencil, or a wider one between an extension
    /// of each operand and a truncation of the answer.
    pub open spec fn binary(
        self,
        e: Env,
        dest: usize,
        op: BinOp,
        p: Prim,
        lhs: usize,
        rhs: usize,
    ) -> Sel {
        match tag_of(p) {
            None => self.str_binary(e, dest, op, lhs, rhs),
            Some(t) => {
                let name = op_name(op);
                let d = e.at(dest);
                let a = e.at(lhs);
                let b = e.at(rhs);
                let la = e.loc(lhs);
                let lb = if e.folded(rhs) {
                    Loc::Imm
                } else {
                    e.loc(rhs)
                };
                let ld = e.loc(dest);
                let stem = "bin/"@ + name + "/"@ + t.0;
                let key = stem + "/"@ + la.letters() + lb.letters() + "/"@ + ld.letters();
                if e.has(key) {
                    self.emit(
                        key,
                        seq![
                            (H::A, V::I(a)),
                            (H::B, V::I(b)),
                            (H::D, V::I(d)),
                            (H::K, V::I(e.constant(rhs))),
                            (H::Cont, V::Fall),
                            (H::Cont0, V::Fall),
                        ],
                    )
                } else if la != Loc::Frame || lb != Loc::Frame || ld != Loc::Frame {
                    self.unsupported(
                        "Binary "@ + name + " at "@ + t.0 + " with no register variant"@,
                    )
                } else {
                    self.binary_wide(e, op, t, d, a, b)
                }
            },
        }
    }

    /// A narrow operator as a 64-bit one.
    pub open spec fn binary_wide(
        self,
        e: Env,
        op: BinOp,
        t: (Seq<char>, u32, bool),
        d: u64,
        a: u64,
        b: u64,
    ) -> Sel {
        let ext = (if t.2 {
            "sext/"@
        } else {
            "zext/"@
        }) + decimal(t.1 as nat);
        let key = "bin/"@ + op_name(op) + (if t.2 {
            "/i64/ff/f"@
        } else {
            "/u64/ff/f"@
        });
        let s = self.da(ext, e.word(0), a).da(ext, e.word(1), b).dab(
            key,
            if op.compares() {
                d
            } else {
                e.word(2)
            },
            e.word(0),
            e.word(1),
        );
        if op.compares() {
            s
        } else {
            s.da("zext/"@ + decimal(t.1 as nat), d, e.word(2))
        }
    }

    /// A unary operator.
    pub open spec fn unary(self, e: Env, dest: usize, op: UnOp, p: Prim, arg: usize) -> Sel {
        let d = e.at(dest);
        let a = e.at(arg);
        let place = e.loc(arg).letters() + "/"@ + e.loc(dest).letters();
        if op == UnOp::Not {
            self.da("un/lnot/b/"@ + place, d, a)
        } else {
            match tag_of(p) {
                None => self.unsupported("Unary at "@ + p.text()),
                Some(t) => {
                    let name = if op == UnOp::Neg {
                        "neg"@
                    } else {
                        "bnot"@
                    };
                    let key = "un/"@ + name + "/"@ + t.0 + "/"@ + place;
                    if e.has(key) {
                        self.da(key, d, a)
                    } else if e.loc(arg) != Loc::Frame || e.loc(dest) != Loc::Frame {
                        self.unsupported(
                            "Unary "@ + name + " at "@ + t.0 + " with no register variant"@,
                        )
                    } else {
                        self.da(
                            (if t.2 {
                                "sext/"@
                            } else {
                                "zext/"@
                            }) + decimal(t.1 as nat),
                            e.word(0),
                            a,
                        ).da(
                            "un/"@ + name + (if t.2 {
                                "/i64/f/f"@
                            } else {
                                "/u64/f/f"@
                            }),
                            e.word(2),
                            e.word(0),
                        ).da("zext/"@ + decimal(t.1 as nat), d, e.word(2))
                    }
                },
            }
        }
    }

    /// A call's arguments from argument `i` on, to where the callee's frame has
    /// them.
    pub open spec fn pass_args(
        self,
        e: Env,
        code: Code,
        offs: Seq<u32>,
        args: Seq<usize>,
        i: int,
    ) -> Sel
        decreases args.len() - i,
    {
        if i >= args.len() || i >= offs.len() {
            self
        } else {
            self.mv(
                (e.frame.size + offs[i]) as u64,
                e.at(args[i]),
                e.slot_bytes(code.ty(args[i])),
            ).pass_args(e, code, offs, args, i + 1)
        }
    }

    /// A call's results from result `i` on, from where the callee's frame has
    /// them.
    pub open spec fn take_rets(
        self,
        e: Env,
        code: Code,
        offs: Seq<u32>,
        dests: Seq<usize>,
        i: int,
    ) -> Sel
        decreases dests.len() - i,
    {
        if i >= dests.len() || i >= offs.len() {
            self
        } else {
            self.mv(
                e.at(dests[i]),
                (e.frame.size + offs[i]) as u64,
                e.slot_bytes(code.ty(dests[i])),
            ).take_rets(e, code, offs, dests, i + 1)
        }
    }

    /// A direct call.
    pub open spec fn call_plain(
        self,
        e: Env,
        code: Code,
        dests: Seq<usize>,
        func: usize,
        args: Seq<usize>,
    ) -> Sel {
        let callee = e.frame_of(func);
        self.pass_args(e, code, callee.params@, args, 0).call_fn(
            e.frame.size as u64,
            func,
        ).take_rets(e, code, callee.ret@, dests, 0)
    }

    /// A call. Where the callee is a runtime function, its body is emitted here
    /// if it is a loop or an entry of the runtime.
    pub open spec fn call(
        self,
        e: Env,
        code: Code,
        dests: Seq<usize>,
        func: usize,
        args: Seq<usize>,
    ) -> Sel {
        match runtime_key(e, func) {
            None => self.call_plain(e, code, dests, func, args),
            Some(key) => match e.loop_of_call(code, dests, key, args) {
                Some(p) => self.list_loop(e, p),
                None => {
                    let r = match first_operand(e, code, dests) {
                        Some(dest) => self.list_extra(
                            e,
                            key,
                            operands_of(e, code, args),
                            dest,
                        ),
                        None => (self, false),
                    };
                    if r.1 {
                        r.0
                    } else if inlined(e.prog.tables, key) {
                        self.add(
                            Item::Entry {
                                key,
                                dest: first_operand(e, code, dests),
                                args: operands_of(e, code, args),
                            },
                        )
                    } else {
                        self.call_plain(e, code, dests, func, args)
                    }
                },
            },
        }
    }

    /// The arguments of an indirect call from argument `i` on, the first of them
    /// at `at` in the callee's frame.
    pub open spec fn push_args(self, e: Env, code: Code, args: Seq<usize>, at: u64, i: int) -> Sel
        decreases args.len() - i,
    {
        if i >= args.len() {
            self
        } else {
            let n = e.slot_bytes(code.ty(args[i]));
            self.mv((e.frame.size + at) as u64, e.at(args[i]), n).push_args(
                e,
                code,
                args,
                (at + n) as u64,
                i + 1,
            )
        }
    }

    /// The results of an indirect call from result `i` on.
    pub open spec fn pull_rets(self, e: Env, code: Code, dests: Seq<usize>, at: u64, i: int) -> Sel
        decreases dests.len() - i,
    {
        if i >= dests.len() {
            self
        } else {
            let n = e.slot_bytes(code.ty(dests[i]));
            self.mv(e.at(dests[i]), (e.frame.size + at) as u64, n).pull_rets(
                e,
                code,
                dests,
                (at + n) as u64,
                i + 1,
            )
        }
    }

    /// A call through a closure: its results, its environment and its arguments
    /// are the callee's frame, in that order.
    pub open spec fn call_indirect(
        self,
        e: Env,
        code: Code,
        dests: Seq<usize>,
        callee: usize,
        args: Seq<usize>,
    ) -> Sel {
        let env_at = frame_end(e, code, dests, 0, 0);
        let c = e.at(callee);
        self.mv((e.frame.size + env_at) as u64, (c + 8) as u64, 8).push_args(
            e,
            code,
            args,
            (env_at + 8) as u64,
            0,
        ).call_ptr(c, e.frame.size as u64).pull_rets(e, code, dests, 0, 0)
    }

    /// A primitive as a JSON value, and the refusal where there is one.
    pub open spec fn json_prim(self, e: Env, code: Code, p: Prim, arg: usize, dest: usize) -> (
        Sel,
        Option<Seq<char>>,
    ) {
        match code.ty(dest) {
            Type::Agg(id) => {
                let info = e.prog.tables.at(id as int);
                match info.json.at(arm_of(p)) {
                    None => (
                        self,
                        Some(
                            "a `derive ToJson` answering `"@ + info.name@
                                + "`, which is not `core/json`'s `Json`"@,
                        ),
                    ),
                    Some(variant) => match info.layout.tagging() {
                        Some(EnumRepr::Tagged { tag }) => match info.layout.payload(
                            variant as int,
                            0,
                        ) {
                            None => (self, Some("a `Json` arm that carries no payload"@)),
                            Some(off) => {
                                let d = e.at(dest);
                                let a = e.at(arg);
                                let to = (d + off) as u64;
                                let w = e.width(code.ty(arg)) as u64;
                                let s = self.imm_w(d, tag as u64, variant as u64);
                                match arm_of(p) {
                                    JsonArm::Bool => (s.store_w(to, a, w), None),
                                    JsonArm::Num => {
                                        let r = s.convert(e, p, Prim::F64, a, e.word(0));
                                        match r.1 {
                                            Some(why) => r,
                                            None => (r.0.store_w(to, e.word(0), 8), None),
                                        }
                                    },
                                    JsonArm::Str => if p.stringy() {
                                        (s.rc(e, code, arg, true).mv(to, a, w), None)
                                    } else {
                                        (
                                            s.c_call(
                                                "buri_rt_char_to_str"@,
                                                seq![Src::Word(a), Src::Addr(to)],
                                                Seq::empty(),
                                                to,
                                                Ret::Void,
                                            ),
                                            None,
                                        )
                                    },
                                }
                            },
                        },
                        _ => (self, Some("a `Json` whose layout is not a tagged enum"@)),
                    },
                }
            },
            _ => (self, Some("a `derive ToJson` whose result is not an aggregate"@)),
        }
    }

    /// The pointer and the length of a string argument.
    pub open spec fn str_arg(self, at: u64, scratch: u64) -> Sel {
        self.add(Item::StrLen { at, scratch })
    }

    /// An abort with a string.
    pub open spec fn abort_with(self, symbol: Seq<char>, at: u64, scratch: u64) -> Sel {
        self.str_arg(at, scratch).c_call(
            symbol,
            seq![Src::Word((at + 8) as u64), Src::Word(scratch)],
            Seq::empty(),
            0,
            Ret::Void,
        )
    }

    /// An abort where the truth value at `at` is false.
    pub open spec fn report(self, e: Env, at: u64, text: u64, scratch: u64) -> Sel {
        let ok = self.next();
        self.fresh().test(e.arm("br/f"@, H::F), at, V::Blk(ok), V::Fall).abort_with(
            "buri_rt_abort_assert"@,
            text,
            scratch,
        ).place(ok)
    }

    /// The failure of a comparison, with the two values rendered.
    pub open spec fn report_shown(self, a: u64, b: u64, c: u64, scratch: u64) -> Sel {
        let s1 = (scratch + 8) as u64;
        let s2 = (scratch + 16) as u64;
        self.str_arg(a, scratch).str_arg(b, s1).str_arg(c, s2).c_call(
            "buri_rt_test_fail_compared"@,
            seq![
                Src::Word((a + 8) as u64),
                Src::Word(scratch),
                Src::Word((b + 8) as u64),
                Src::Word(s1),
                Src::Word((c + 8) as u64),
                Src::Word(s2),
            ],
            Seq::empty(),
            0,
            Ret::Void,
        )
    }
}

/// The strings of a concatenation: every argument but its context, from argument
/// `i` on.
pub open spec fn concat_parts(e: Env, args: Seq<usize>, i: int) -> Seq<u64>
    decreases args.len() - i,
{
    if i >= args.len() {
        Seq::empty()
    } else if concat_ctx(args.len() as int) == Some(i) {
        concat_parts(e, args, i + 1)
    } else {
        seq![e.at(args[i])] + concat_parts(e, args, i + 1)
    }
}

/// The end of some values laid out from `at` on, from value `i` on.
pub open spec fn frame_end(e: Env, code: Code, vs: Seq<usize>, at: u64, i: int) -> u64
    decreases vs.len() - i,
{
    if i >= vs.len() {
        at
    } else {
        frame_end(e, code, vs, (at + e.slot_bytes(code.ty(vs[i]))) as u64, i + 1)
    }
}

/// The intrinsic key of a runtime function.
pub open spec fn runtime_key(e: Env, func: usize) -> Option<Seq<char>> {
    if func < e.prog.funcs.len() {
        match e.prog.funcs[func as int].body {
            Body::Runtime(key) => Some(key@),
            _ => None,
        }
    } else {
        None
    }
}

/// The width of the widest store that fits.
pub open spec fn piece(left: u64) -> u64 {
    if left >= 8 {
        8
    } else if left >= 4 {
        4
    } else if left >= 2 {
        2
    } else {
        1
    }
}

/// The runtime function that compares two strings for an operator.
pub open spec fn compare_symbol(op: BinOp) -> Seq<char> {
    if op == BinOp::Eq || op == BinOp::Ne {
        "buri_rt_str_eq"@
    } else {
        "buri_rt_str_compare"@
    }
}

/// The answers of that function for which an ordering holds. An equality is
/// answered directly.
pub open spec fn compare_want(op: BinOp) -> Seq<u64> {
    match op {
        BinOp::Lt => seq![LESS],
        BinOp::Le => seq![LESS, EQUAL],
        BinOp::Gt => seq![GREATER],
        BinOp::Ge => seq![GREATER, EQUAL],
        _ => Seq::empty(),
    }
}

fn piece_of(left: u64) -> (r: u64)
    requires
        left > 0,
    ensures
        r == piece(left),
        0 < r <= left,
{
    if left >= 8 {
        8
    } else if left >= 4 {
        4
    } else if left >= 2 {
        2
    } else {
        1
    }
}

impl<'a> Emit<'a> {
    /// Whether every use of a value is an immediate.
    pub fn folded(&self, v: usize) -> (r: bool)
        ensures
            r == self.env().folded(v),
    {
        ent(&self.st.folded, v, false)
    }

    /// The literal of a value, or zero.
    pub fn constant(&self, v: usize) -> (r: u64)
        ensures
            r == self.env().constant(v),
    {
        match ent(&self.st.constants, v, None) {
            Some(k) => k,
            None => 0,
        }
    }

    /// Whether a value's slot is kept in step with its register.
    pub fn write_through(&self, v: usize) -> (r: bool)
        ensures
            r == self.env().write_through(v),
    {
        ent(&self.st.wt, v, false)
    }

    /// A literal into a value's slot.
    pub fn emit_constant(&mut self, off: u64, ty: Type, value: &Const)
        requires
            off <= 0xffff_ffff,
        ensures
            final(self)@ == old(self)@.constant(old(self).env(), off, ty, *value),
            final(self).env() == old(self).env(),
    {
        match value {
            Const::Unit => self.imm_to(off, 0),
            Const::Undef => self.imm_to(off, 0),
            Const::Null => self.imm_to(off, 0),
            Const::Bool(b) => self.imm_to(
                off,
                if *b {
                    1
                } else {
                    0
                },
            ),
            Const::Char(c) => self.imm_to(off, (*c as u32) as u64),
            Const::Int { bits, negative } => {
                let w: u32 = self.width_of(ty);
                if w > 8 {
                    let x: u128 = if *negative && *bits != 0 {
                        u128::MAX - *bits + 1
                    } else {
                        *bits
                    };
                    self.imm_to(off, x as u64);
                    self.imm_to(off + 8, (x >> 64) as u64);
                } else {
                    let low: u64 = *bits as u64;
                    let x: u64 = if *negative && low != 0 {
                        u64::MAX - low + 1
                    } else {
                        low
                    };
                    self.imm_to(
                        off,
                        if w == 8 {
                            x
                        } else {
                            x % span_of(w)
                        },
                    );
                }
            },
            Const::Float { wide, narrow } => self.imm_to(
                off,
                if ty == Type::F32 {
                    *narrow as u64
                } else {
                    *wide
                },
            ),
            Const::Str(text) => self.str_literal(off, text.as_str().as_bytes()),
        }
    }

    fn box_into(&mut self, dest: u64, src: u64, size: u64)
        ensures
            final(self)@ == old(self)@.box_into(old(self).env(), dest, src, size),
            final(self).env() == old(self).env(),
    {
        let ptr: u64 = self.word(0);
        let one: u64 = self.word(1);
        self.imm_to(one, 1);
        self.new_elems(ptr, one, size);
        self.imm_to(one, 0);
        self.elem_store(src, ptr, one, 8, size);
        self.mv(dest, ptr, 8);
    }

    fn unbox_from(&mut self, dest: u64, at: u64, size: u64)
        ensures
            final(self)@ == old(self)@.unbox_from(old(self).env(), dest, at, size),
            final(self).env() == old(self).env(),
    {
        let zero: u64 = self.word(1);
        self.imm_to(zero, 0);
        self.elem_load(dest, at, zero, 8, size);
    }

    fn write_field(&mut self, boxed: bool, to: u64, src: u64, w: u64)
        ensures
            final(self)@ == old(self)@.write_field(old(self).env(), boxed, to, src, w),
            final(self).env() == old(self).env(),
    {
        if boxed {
            self.box_into(to, src, w);
        } else {
            self.store_w(to, src, w);
        }
    }

    fn read_field(&mut self, boxed: bool, d: u64, from: u64, w: u64)
        ensures
            final(self)@ == old(self)@.read_field(old(self).env(), boxed, d, from, w),
            final(self).env() == old(self).env(),
    {
        if boxed {
            self.unbox_from(d, from, w);
        } else {
            self.load_w(d, from, w);
        }
    }

    fn refuse_non_aggregate(&mut self, what: &str)
        ensures
            final(self)@ == old(self)@.unsupported(non_aggregate(what@)),
            final(self).env() == old(self).env(),
    {
        let why: String = join2(what, " of a non-aggregate");
        self.unsupported(why);
    }

    pub fn make_struct(&mut self, code: &Code, dest: usize, fields: &Vec<usize>)
        ensures
            final(self)@ == old(self)@.make_struct(old(self).env(), *code, dest, fields@),
            final(self).env() == old(self).env(),
    {
        let id: usize = match code.ty_of(dest) {
            Type::Agg(id) => id,
            _ => {
                self.refuse_non_aggregate("MakeStruct");
                return;
            },
        };
        let prog: &'a Program = self.prog;
        let info: &'a TypeInfo = prog.tables.info(id);
        let d: u64 = self.at(dest);
        let mut i: usize = 0;
        while i < fields.len()
            invariant
                i <= fields.len(),
                *info == self.env().prog.tables.at(id as int),
                d <= 0xffff_ffff,
                self.env() == old(self).env(),
                self@.struct_fields(self.env(), *code, id, d, fields@, i as int) == old(
                    self,
                )@.struct_fields(self.env(), *code, id, d, fields@, 0),
            decreases fields.len() - i,
        {
            let w: u32 = self.width_of(code.ty_of(fields[i]));
            if w != 0 && i < info.layout.fields.len() {
                let src: u64 = self.at(fields[i]);
                self.write_field(
                    info.boxes_field(i),
                    d + info.layout.fields[i] as u64,
                    src,
                    w as u64,
                );
            }
            i = i + 1;
        }
    }

    pub fn get_field(&mut self, code: &Code, dest: usize, agg: usize, index: usize)
        ensures
            final(self)@ == old(self)@.get_field(old(self).env(), *code, dest, agg, index),
            final(self).env() == old(self).env(),
    {
        match code.ty_of(agg) {
            Type::Agg(id) => {
                let prog: &'a Program = self.prog;
                let info: &'a TypeInfo = prog.tables.info(id);
                if index < info.layout.fields.len() {
                    let w: u32 = self.width_of(code.ty_of(dest));
                    let d: u64 = self.at(dest);
                    let from: u64 = self.at(agg) + info.layout.fields[index] as u64;
                    self.read_field(info.boxes_field(index), d, from, w as u64);
                }
            },
            _ => self.refuse_non_aggregate("GetField"),
        }
    }

    fn store_variant(
        &mut self,
        code: &Code,
        id: usize,
        variant: usize,
        d: u64,
        fields: &Vec<usize>,
    )
        requires
            d <= 0xffff_ffff,
        ensures
            final(self)@ == old(self)@.store_variant(
                old(self).env(),
                *code,
                id,
                variant,
                d,
                fields@,
                0,
            ),
            final(self).env() == old(self).env(),
    {
        let prog: &'a Program = self.prog;
        let info: &'a TypeInfo = prog.tables.info(id);
        let mut i: usize = 0;
        while i < fields.len()
            invariant
                i <= fields.len(),
                *info == self.env().prog.tables.at(id as int),
                d <= 0xffff_ffff,
                self.env() == old(self).env(),
                self@.store_variant(self.env(), *code, id, variant, d, fields@, i as int) == old(
                    self,
                )@.store_variant(self.env(), *code, id, variant, d, fields@, 0),
            decreases fields.len() - i,
        {
            match info.layout.payload_field(variant, i) {
                Some(o) => {
                    let w: u32 = self.width_of(code.ty_of(fields[i]));
                    let src: u64 = self.at(fields[i]);
                    self.write_field(
                        info.boxes_payload(variant, i),
                        d + o as u64,
                        src,
                        w as u64,
                    );
                },
                None => {},
            }
            i = i + 1;
        }
    }

    pub fn make_enum(&mut self, code: &Code, dest: usize, variant: usize, fields: &Vec<usize>)
        ensures
            final(self)@ == old(self)@.make_enum(
                old(self).env(),
                *code,
                dest,
                variant,
                fields@,
            ),
            final(self).env() == old(self).env(),
    {
        let id: usize = match code.ty_of(dest) {
            Type::Agg(id) => id,
            _ => {
                self.refuse_non_aggregate("MakeEnum");
                return;
            },
        };
        let l: &'a Layout = self.layout(id);
        let d: u64 = self.at(dest);
        match l.enum_repr() {
            None => self.unsupported(own("MakeEnum of a non-enum layout")),
            Some(EnumRepr::Bare { tag }) => self.imm_w(d, tag as u64, variant as u64),
            Some(EnumRepr::Tagged { tag }) => {
                self.imm_w(d, tag as u64, variant as u64);
                self.store_variant(code, id, variant, d, fields);
            },
            Some(EnumRepr::Niche { null_at }) => {
                if l.arity_of(variant) == 0 {
                    self.imm_to(d + null_at as u64, 0);
                } else {
                    self.store_variant(code, id, variant, d, fields);
                }
            },
        }
    }

    pub fn get_payload(
        &mut self,
        code: &Code,
        dest: usize,
        agg: usize,
        variant: usize,
        index: usize,
    )
        ensures
            final(self)@ == old(self)@.get_payload(
                old(self).env(),
                *code,
                dest,
                agg,
                variant,
                index,
            ),
            final(self).env() == old(self).env(),
    {
        match code.ty_of(agg) {
            Type::Agg(id) => {
                let prog: &'a Program = self.prog;
                let info: &'a TypeInfo = prog.tables.info(id);
                match info.layout.payload_field(variant, index) {
                    Some(o) => {
                        let w: u32 = self.width_of(code.ty_of(dest));
                        let d: u64 = self.at(dest);
                        let from: u64 = self.at(agg) + o as u64;
                        self.read_field(info.boxes_payload(variant, index), d, from, w as u64);
                    },
                    None => self.unsupported(own("GetPayload of an absent field")),
                }
            },
            _ => self.refuse_non_aggregate("GetPayload"),
        }
    }

    pub fn get_tag(&mut self, code: &Code, dest: usize, agg: usize)
        ensures
            final(self)@ == old(self)@.get_tag(old(self).env(), *code, dest, agg),
            final(self).env() == old(self).env(),
    {
        match code.ty_of(agg) {
            Type::Agg(id) => {
                let l: &'a Layout = self.layout(id);
                if l.enum_repr().is_none() {
                    self.unsupported(own("GetTag of a non-enum layout"));
                } else {
                    let a: u64 = self.at(agg);
                    let d: u64 = self.at(dest);
                    self.load_disc(l, a, d);
                }
            },
            _ => self.refuse_non_aggregate("GetTag"),
        }
    }

    fn helper_if(&mut self, wanted: bool, h: Helper) -> (r: Option<usize>)
        ensures
            r == old(self)@.helper_index_if(wanted, h),
            final(self)@ == old(self)@.helper_if(wanted, h),
            final(self).env() == old(self).env(),
    {
        if wanted {
            Some(self.helper(h))
        } else {
            None
        }
    }

    fn env_word(&mut self, h: Option<usize>, at: u64)
        ensures
            final(self)@ == old(self)@.env_word(old(self).env(), h, at),
            final(self).env() == old(self).env(),
    {
        let block: u64 = self.word(0);
        let word: u64 = self.word(2);
        self.sym_or_zero(word, h);
        self.emit(
            "pstore/8",
            vec![(H::A, V::I(block)), (H::B, V::I(word)), (H::N, V::I(at)), (H::Cont, V::Fall)],
        );
    }

    /// An environment block: its release function, its copy function, and the
    /// captured record.
    pub fn build_env(&mut self, code: &Code, dest: u64, env: usize)
        ensures
            final(self)@ == old(self)@.build_env(old(self).env(), *code, dest, env),
            final(self).env() == old(self).env(),
    {
        let ty: Type = code.ty_of(env);
        let size: u64 = self.width_of(ty) as u64;
        let block: u64 = self.word(0);
        let one: u64 = self.word(1);
        self.imm_to(one, 1);
        self.new_elems(block, one, size + ENV_FIELDS);
        let (glue, copy): (Option<usize>, Option<usize>) = match self.counted_of(ty) {
            Some(t) => {
                let g: Option<usize> = self.helper_if(true, Helper::Walk { ty: t, retain: false });
                let c: Option<usize> = self.helper_if(true, Helper::Copy { ty: t });
                (g, c)
            },
            None => (None, None),
        };
        self.env_word(glue, 0);
        self.env_word(copy, ENV_COPY_WORD);
        if size > 0 {
            let src: u64 = self.at(env);
            self.elem_store(src, block, one, ENV_FIELDS, size);
        }
        self.mv(dest, block, 8);
    }

    pub fn make_closure(&mut self, code: &Code, dest: usize, func: usize, env: Option<usize>)
        ensures
            final(self)@ == old(self)@.make_closure(old(self).env(), *code, dest, func, env),
            final(self).env() == old(self).env(),
    {
        let d: u64 = self.at(dest);
        let want: Option<usize> = match code.ty_of(dest) {
            Type::Agg(id) => match &self.prog.tables.info(id).shape {
                Shape::Fn { params, ret } => Some(params.len()),
                _ => None,
            },
            _ => None,
        };
        match want {
            None => self.unsupported(own("MakeClosure of a value that is not a function")),
            Some(args) => {
                let thunk: usize = self.helper(
                    Helper::Thunk { func, args, boxed: env.is_some() },
                );
                self.imm_to_ptr(d, V::Sym(thunk));
                match env {
                    Some(v) => self.build_env(code, d + ENV_WORD, v),
                    None => self.imm_to(d + ENV_WORD, 0),
                }
            },
        }
    }

    pub fn abort(&mut self, message: &str)
        ensures
            final(self)@ == old(self)@.abort(encode_utf8(message@)),
            final(self).env() == old(self).env(),
    {
        let b: &[u8] = message.as_bytes();
        let n: u64 = b.len() as u64;
        let p: usize = self.pool(crate::select::bytes_of(b));
        self.emit("abort", vec![(H::M, V::Ptr(p)), (H::N, V::I(n))]);
    }

    fn store_pieces(&mut self, d0: u64, src: u64, base: u64, w: u64)
        ensures
            final(self)@ == old(self)@.store_pieces(d0, src, base, 0, w),
            final(self).env() == old(self).env(),
    {
        let mut done: u64 = 0;
        while done < w
            invariant
                done <= w,
                self.env() == old(self).env(),
                self@.store_pieces(d0, src, base, done, w) == old(self)@.store_pieces(
                    d0,
                    src,
                    base,
                    0,
                    w,
                ),
            decreases w - done,
        {
            let n: u64 = piece_of(w - done);
            let digits: String = decimal_of(n);
            let key: String = join2("pstore/", digits.as_str());
            self.emit(
                key.as_str(),
                vec![
                    (H::A, V::I(d0)),
                    (H::B, V::I(plus(src, done))),
                    (H::N, V::I(plus(base, done))),
                    (H::Cont, V::Fall),
                ],
            );
            done = done + n;
        }
    }

    pub fn make_array(&mut self, code: &Code, dest: usize, elems: &Vec<usize>)
        ensures
            final(self)@ == old(self)@.make_array(old(self).env(), *code, dest, elems@),
            final(self).env() == old(self).env(),
    {
        let elem: usize = match self.element_of(code.ty_of(dest)) {
            Some(t) => t,
            None => {
                self.unsupported(own("MakeArray of a non-list"));
                return;
            },
        };
        let d0: u64 = self.at(dest);
        let n: u64 = self.word(0);
        let stride: u64 = self.elem_stride(elem) as u64;
        self.imm_to(n, elems.len() as u64);
        self.new_elems(d0, n, stride);
        self.imm_to(d0 + 8, elems.len() as u64);
        let ghost start = self@;
        let mut i: usize = 0;
        let mut base: u64 = 0;
        while i < elems.len()
            invariant
                i <= elems.len(),
                self.env() == old(self).env(),
                self@.store_elems(self.env(), *code, d0, stride, elems@, i as int, base)
                    == start.store_elems(self.env(), *code, d0, stride, elems@, 0, 0),
            decreases elems.len() - i,
        {
            let w: u64 = self.width_of(code.ty_of(elems[i])) as u64;
            let src: u64 = self.at(elems[i]);
            self.store_pieces(
                d0,
                src,
                base,
                if w < stride {
                    w
                } else {
                    stride
                },
            );
            base = plus(base, stride);
            i = i + 1;
        }
    }

    pub fn array_get(&mut self, code: &Code, dest: usize, array: usize, index: usize)
        ensures
            final(self)@ == old(self)@.array_get(old(self).env(), *code, dest, array, index),
            final(self).env() == old(self).env(),
    {
        match self.element_of(code.ty_of(array)) {
            None => self.unsupported(own("ArrayGet of a non-array")),
            Some(elem) => {
                let s0: u64 = self.word(6);
                let from: u64 = self.at(array);
                self.mv(s0, from, 8);
                let d: u64 = self.at(dest);
                let i: u64 = self.at(index);
                let stride: u64 = self.elem_stride(elem) as u64;
                let size: u64 = self.elem_size(elem) as u64;
                self.elem_load(d, s0, i, stride, size);
            },
        }
    }

    pub fn array_slice(&mut self, code: &Code, dest: usize, array: usize, from: usize)
        ensures
            final(self)@ == old(self)@.array_slice(old(self).env(), *code, dest, array, from),
            final(self).env() == old(self).env(),
    {
        match self.element_of(code.ty_of(array)) {
            None => self.unsupported(own("ArraySlice of a non-array")),
            Some(elem) => {
                let src: u64 = self.at(array);
                let d: u64 = self.at(dest);
                let start: u64 = self.at(from);
                let stride: u64 = self.elem_stride(elem) as u64;
                let counted: bool = self.rc_counted(elem);
                let glue: Src = match self.helper_if(
                    counted,
                    Helper::Walk { ty: elem, retain: true },
                ) {
                    Some(i) => Src::Sym(i),
                    None => Src::Imm(0),
                };
                let ints: Vec<Src> = vec![
                    Src::Word(src),
                    Src::Word(src + 8),
                    Src::Word(start),
                    Src::Word(src + 8),
                    Src::Imm(stride),
                    glue,
                    Src::Addr(d),
                ];
                proof {
                    let len = (src + 8) as u64;
                    assert(ints@ =~= seq![
                        Src::Word(src),
                        Src::Word(len),
                        Src::Word(start),
                        Src::Word(len),
                        Src::Imm(stride),
                        glue,
                        Src::Addr(d),
                    ]);
                }
                self.c_call("buri_rt_list_slice", ints, Vec::new(), d, Ret::Void);
            },
        }
    }

    pub fn structural(
        &mut self,
        code: &Code,
        dest: usize,
        op: StructuralOp,
        ty: usize,
        args: &Vec<usize>,
    )
        ensures
            final(self)@ == old(self)@.structural(
                old(self).env(),
                *code,
                dest,
                op,
                ty,
                args@,
            ),
            final(self).env() == old(self).env(),
    {
        let prog: &'a Program = self.prog;
        let info: &'a TypeInfo = prog.tables.info(ty);
        if op != StructuralOp::Show {
            let why: String = join5(
                "Structural::",
                op.name(),
                " on `",
                info.name.as_str(),
                "`",
            );
            self.unsupported(why);
            return;
        }
        if args.len() == 0 {
            return;
        }
        let d: u64 = self.at(dest);
        let a: u64 = self.at(args[0]);
        match info.prim {
            None => {
                let why: String = join3(
                    "Structural::Show of a non-primitive `",
                    info.name.as_str(),
                    "`",
                );
                self.unsupported(why);
            },
            Some(p) => {
                if p.is_stringy() {
                    let n: u32 = self.width_of(code.ty_of(dest));
                    self.mv(d, a, n as u64);
                } else {
                    self.add(Op::Show { prim: p, src: a, dest: d, quoted: false });
                }
            },
        }
    }

    fn str_binary(&mut self, dest: usize, op: BinOp, lhs: usize, rhs: usize)
        ensures
            final(self)@ == old(self)@.str_binary(old(self).env(), dest, op, lhs, rhs),
            final(self).env() == old(self).env(),
    {
        if !op.is_comparison() {
            let why: String = join3("Binary ", op.name(), " at Str");
            self.unsupported(why);
            return;
        }
        let raw: u64 = self.word(RAW_WORD);
        let a: u64 = self.at(lhs);
        let b: u64 = self.at(rhs);
        let d: u64 = self.at(dest);
        let symbol: String = if op == BinOp::Eq || op == BinOp::Ne {
            own("buri_rt_str_eq")
        } else {
            own("buri_rt_str_compare")
        };
        let want: Vec<u64> = match op {
            BinOp::Lt => vec![LESS],
            BinOp::Le => vec![LESS, EQUAL],
            BinOp::Gt => vec![GREATER],
            BinOp::Ge => vec![GREATER, EQUAL],
            _ => Vec::new(),
        };
        assert(want@ =~= compare_want(op));
        self.add(Op::StrCompare { symbol, a, b, dest: raw });
        self.add(Op::OrderTest { raw, dest: d, negate: op == BinOp::Ne, want });
    }

    pub fn binary(&mut self, dest: usize, op: BinOp, p: Prim, lhs: usize, rhs: usize)
        ensures
            final(self)@ == old(self)@.binary(old(self).env(), dest, op, p, lhs, rhs),
            final(self).env() == old(self).env(),
    {
        let t: (&'static str, u32, bool) = match prim_tag(p) {
            Some(t) => t,
            None => {
                self.str_binary(dest, op, lhs, rhs);
                return;
            },
        };
        let name: &str = binop_name(op);
        let d: u64 = self.at(dest);
        let a: u64 = self.at(lhs);
        let b: u64 = self.at(rhs);
        let la: Loc = self.loc(lhs);
        let lb: Loc = if self.folded(rhs) {
            Loc::Imm
        } else {
            self.loc(rhs)
        };
        let ld: Loc = self.loc(dest);
        let ta: String = la.tag();
        let tb: String = lb.tag();
        let td: String = ld.tag();
        let stem: String = join4("bin/", name, "/", t.0);
        let head: String = join4(stem.as_str(), "/", ta.as_str(), tb.as_str());
        let key: String = join3(head.as_str(), "/", td.as_str());
        if self.has(key.as_str()) {
            let k: u64 = self.constant(rhs);
            self.emit(
                key.as_str(),
                vec![
                    (H::A, V::I(a)),
                    (H::B, V::I(b)),
                    (H::D, V::I(d)),
                    (H::K, V::I(k)),
                    (H::Cont, V::Fall),
                    (H::Cont0, V::Fall),
                ],
            );
            return;
        }
        if la != Loc::Frame || lb != Loc::Frame || ld != Loc::Frame {
            let why: String = join5("Binary ", name, " at ", t.0, " with no register variant");
            self.unsupported(why);
            return;
        }
        let s0: u64 = self.word(0);
        let s1: u64 = self.word(1);
        let s2: u64 = self.word(2);
        let n: String = decimal_of(t.1 as u64);
        let ext: String = if t.2 {
            join2("sext/", n.as_str())
        } else {
            join2("zext/", n.as_str())
        };
        self.da(ext.as_str(), s0, a);
        self.da(ext.as_str(), s1, b);
        let wide: &str = if t.2 {
            "/i64/ff/f"
        } else {
            "/u64/ff/f"
        };
        let key: String = join3("bin/", name, wide);
        let compares: bool = op.is_comparison();
        self.dab(
            key.as_str(),
            if compares {
                d
            } else {
                s2
            },
            s0,
            s1,
        );
        if !compares {
            let trunc: String = join2("zext/", n.as_str());
            self.da(trunc.as_str(), d, s2);
        }
    }

    pub fn unary(&mut self, dest: usize, op: UnOp, p: Prim, arg: usize)
        ensures
            final(self)@ == old(self)@.unary(old(self).env(), dest, op, p, arg),
            final(self).env() == old(self).env(),
    {
        let d: u64 = self.at(dest);
        let a: u64 = self.at(arg);
        let la: Loc = self.loc(arg);
        let ld: Loc = self.loc(dest);
        let ta: String = la.tag();
        let td: String = ld.tag();
        let place: String = join3(ta.as_str(), "/", td.as_str());
        if op == UnOp::Not {
            let key: String = join2("un/lnot/b/", place.as_str());
            self.da(key.as_str(), d, a);
            return;
        }
        let t: (&'static str, u32, bool) = match prim_tag(p) {
            Some(t) => t,
            None => {
                let why: String = join2("Unary at ", p.name());
                self.unsupported(why);
                return;
            },
        };
        let name: &str = if op == UnOp::Neg {
            "neg"
        } else {
            "bnot"
        };
        let head: String = join5("un/", name, "/", t.0, "/");
        let key: String = join2(head.as_str(), place.as_str());
        if self.has(key.as_str()) {
            self.da(key.as_str(), d, a);
            return;
        }
        if la != Loc::Frame || ld != Loc::Frame {
            let why: String = join5("Unary ", name, " at ", t.0, " with no register variant");
            self.unsupported(why);
            return;
        }
        let s0: u64 = self.word(0);
        let s2: u64 = self.word(2);
        let n: String = decimal_of(t.1 as u64);
        let ext: String = if t.2 {
            join2("sext/", n.as_str())
        } else {
            join2("zext/", n.as_str())
        };
        self.da(ext.as_str(), s0, a);
        let wide: &str = if t.2 {
            "/i64/f/f"
        } else {
            "/u64/f/f"
        };
        let key: String = join3("un/", name, wide);
        self.da(key.as_str(), s2, s0);
        let trunc: String = join2("zext/", n.as_str());
        self.da(trunc.as_str(), d, s2);
    }

    fn call_plain(&mut self, code: &Code, dests: &Vec<usize>, func: usize, args: &Vec<usize>)
        ensures
            final(self)@ == old(self)@.call_plain(
                old(self).env(),
                *code,
                dests@,
                func,
                args@,
            ),
            final(self).env() == old(self).env(),
    {
        let base: u64 = self.st.frame.size as u64;
        let callee: FrameSig = self.frame_sig_of(func);
        let ghost e = self.env();
        let ghost params = callee.params@;
        let mut i: usize = 0;
        while i < args.len() && i < callee.params.len()
            invariant
                i <= args.len(),
                i <= callee.params.len(),
                params == callee.params@,
                base == e.frame.size,
                self.env() == e,
                e == old(self).env(),
                self@.pass_args(e, *code, params, args@, i as int) == old(self)@.pass_args(
                    e,
                    *code,
                    params,
                    args@,
                    0,
                ),
            decreases args.len() - i,
        {
            let n: u64 = self.slot_bytes_of(code.ty_of(args[i]));
            let from: u64 = self.at(args[i]);
            self.mv(base + callee.params[i] as u64, from, n);
            i = i + 1;
        }
        self.call_fn(base, func);
        let ghost called = self@;
        let mut k: usize = 0;
        while k < dests.len() && k < callee.ret.len()
            invariant
                k <= dests.len(),
                k <= callee.ret.len(),
                base == e.frame.size,
                self.env() == e,
                e == old(self).env(),
                self@.take_rets(e, *code, callee.ret@, dests@, k as int) == called.take_rets(
                    e,
                    *code,
                    callee.ret@,
                    dests@,
                    0,
                ),
            decreases dests.len() - k,
        {
            let n: u64 = self.slot_bytes_of(code.ty_of(dests[k]));
            let to: u64 = self.at(dests[k]);
            self.mv(to, base + callee.ret[k] as u64, n);
            k = k + 1;
        }
    }

    /// The operands of a call, as frame offsets and types.
    fn operands(&self, code: &Code, args: &Vec<usize>) -> (r: Vec<(u32, Type)>)
        ensures
            r@ == operands_of(self.env(), *code, args@),
    {
        let mut out: Vec<(u32, Type)> = Vec::new();
        let mut i: usize = 0;
        while i < args.len()
            invariant
                i <= args.len(),
                out.len() == i,
                forall|j: int|
                    0 <= j < i ==> #[trigger] out[j] == (
                        self.env().at(args[j]) as u32,
                        code.ty(args[j]),
                    ),
            decreases args.len() - i,
        {
            out.push((self.st.at(args[i]), code.ty_of(args[i])));
            i = i + 1;
        }
        assert(out@ =~= operands_of(self.env(), *code, args@));
        out
    }

    fn first_operand(&self, code: &Code, vs: &Vec<usize>) -> (r: Option<(u32, Type)>)
        ensures
            r == first_operand(self.env(), *code, vs@),
    {
        if vs.len() > 0 {
            Some((self.st.at(vs[0]), code.ty_of(vs[0])))
        } else {
            None
        }
    }

    pub fn call(&mut self, code: &Code, dests: &Vec<usize>, func: usize, args: &Vec<usize>)
        ensures
            final(self)@ == old(self)@.call(old(self).env(), *code, dests@, func, args@),
            final(self).env() == old(self).env(),
    {
        let prog: &'a Program = self.prog;
        if func < prog.funcs.len() {
            match &prog.funcs[func].body {
                Body::Runtime(key) => {
                    let key: &'a str = key.as_str();
                    if self.list_loop(code, dests, key, args) {
                        return;
                    }
                    match self.first_operand(code, dests) {
                        Some(dest) => {
                            let o: Operands = Operands { args: self.operands(code, args), dest };
                            if self.list_extra(key, &o) {
                                return;
                            }
                        },
                        None => {},
                    }
                    if inline_runtime_key(&prog.tables, key) {
                        let dest: Option<(u32, Type)> = self.first_operand(code, dests);
                        let list: Vec<(u32, Type)> = self.operands(code, args);
                        self.add(Op::Entry { key: own(key), dest, args: list });
                        return;
                    }
                },
                _ => {},
            }
        }
        self.call_plain(code, dests, func, args);
    }

    pub fn call_indirect(
        &mut self,
        code: &Code,
        dests: &Vec<usize>,
        callee: usize,
        args: &Vec<usize>,
    )
        ensures
            final(self)@ == old(self)@.call_indirect(
                old(self).env(),
                *code,
                dests@,
                callee,
                args@,
            ),
            final(self).env() == old(self).env(),
    {
        let base: u64 = self.st.frame.size as u64;
        let ghost e = self.env();
        let mut env_at: u64 = 0;
        let mut i: usize = 0;
        while i < dests.len()
            invariant
                i <= dests.len(),
                self.env() == e,
                frame_end(e, *code, dests@, 0, 0) == frame_end(
                    e,
                    *code,
                    dests@,
                    env_at,
                    i as int,
                ),
            decreases dests.len() - i,
        {
            env_at = plus(env_at, self.slot_bytes_of(code.ty_of(dests[i])));
            i = i + 1;
        }
        let c: u64 = self.at(callee);
        self.mv(plus(base, env_at), c + 8, 8);
        let ghost set = self@;
        let first: u64 = plus(env_at, 8);
        let mut at: u64 = first;
        let mut k: usize = 0;
        while k < args.len()
            invariant
                k <= args.len(),
                base == e.frame.size,
                self.env() == e,
                self@.push_args(e, *code, args@, at, k as int) == set.push_args(
                    e,
                    *code,
                    args@,
                    first,
                    0,
                ),
            decreases args.len() - k,
        {
            let n: u64 = self.slot_bytes_of(code.ty_of(args[k]));
            let from: u64 = self.at(args[k]);
            self.mv(plus(base, at), from, n);
            at = plus(at, n);
            k = k + 1;
        }
        self.call_ptr(c, base);
        let ghost called = self@;
        let mut at: u64 = 0;
        let mut k: usize = 0;
        while k < dests.len()
            invariant
                k <= dests.len(),
                base == e.frame.size,
                self.env() == e,
                self@.pull_rets(e, *code, dests@, at, k as int) == called.pull_rets(
                    e,
                    *code,
                    dests@,
                    0,
                    0,
                ),
            decreases dests.len() - k,
        {
            let n: u64 = self.slot_bytes_of(code.ty_of(dests[k]));
            let to: u64 = self.at(dests[k]);
            self.mv(to, plus(base, at), n);
            at = plus(at, n);
            k = k + 1;
        }
    }

    /// A primitive as a JSON value.
    pub fn json_prim(&mut self, code: &Code, p: Prim, arg: usize, dest: usize) -> (r: Result<
        (),
        String,
    >)
        ensures
            final(self)@ == old(self)@.json_prim(old(self).env(), *code, p, arg, dest).0,
            match r {
                Ok(_) => old(self)@.json_prim(old(self).env(), *code, p, arg, dest).1 is None,
                Err(why) => old(self)@.json_prim(old(self).env(), *code, p, arg, dest).1
                    == Some(why@),
            },
            final(self).env() == old(self).env(),
    {
        let id: usize = match code.ty_of(dest) {
            Type::Agg(id) => id,
            _ => {
                return Err(own("a `derive ToJson` whose result is not an aggregate"));
            },
        };
        let prog: &'a Program = self.prog;
        let info: &'a TypeInfo = prog.tables.info(id);
        let arm: JsonArm = json_arm(p);
        let variant: usize = match info.json.variant(arm) {
            Some(v) => v,
            None => {
                return Err(
                    join3(
                        "a `derive ToJson` answering `",
                        info.name.as_str(),
                        "`, which is not `core/json`'s `Json`",
                    ),
                );
            },
        };
        let tag: u32 = match info.layout.enum_repr() {
            Some(EnumRepr::Tagged { tag }) => tag,
            _ => {
                return Err(own("a `Json` whose layout is not a tagged enum"));
            },
        };
        let off: u32 = match info.layout.payload_field(variant, 0) {
            Some(o) => o,
            None => {
                return Err(own("a `Json` arm that carries no payload"));
            },
        };
        let d: u64 = self.at(dest);
        let a: u64 = self.at(arg);
        let to: u64 = d + off as u64;
        let w: u64 = self.width_of(code.ty_of(arg)) as u64;
        self.imm_w(d, tag as u64, variant as u64);
        match arm {
            JsonArm::Bool => {
                self.store_w(to, a, w);
                Ok(())
            },
            JsonArm::Num => {
                let scr: u64 = self.word(0);
                match self.convert(p, Prim::F64, a, scr) {
                    Ok(_) => {
                        self.store_w(to, scr, 8);
                        Ok(())
                    },
                    Err(why) => Err(why),
                }
            },
            JsonArm::Str => {
                if p.is_stringy() {
                    self.rc(code, arg, true);
                    self.mv(to, a, w);
                } else {
                    self.c_call(
                        "buri_rt_char_to_str",
                        vec![Src::Word(a), Src::Addr(to)],
                        Vec::new(),
                        to,
                        Ret::Void,
                    );
                }
                Ok(())
            },
        }
    }

    fn str_arg(&mut self, at: u64, scratch: u64)
        ensures
            final(self)@ == old(self)@.str_arg(at, scratch),
            final(self).env() == old(self).env(),
    {
        self.add(Op::StrLen { at, scratch });
    }

    /// An abort with a string.
    pub fn abort_with(&mut self, symbol: &str, at: u64, scratch: u64)
        requires
            at <= 0xffff_ffff,
        ensures
            final(self)@ == old(self)@.abort_with(symbol@, at, scratch),
            final(self).env() == old(self).env(),
    {
        self.str_arg(at, scratch);
        self.c_call(
            symbol,
            vec![Src::Word(at + 8), Src::Word(scratch)],
            Vec::new(),
            0,
            Ret::Void,
        );
    }

    /// An abort where the truth value at `at` is false.
    pub fn report(&mut self, at: u64, text: u64, scratch: u64)
        requires
            text <= 0xffff_ffff,
        ensures
            final(self)@ == old(self)@.report(old(self).env(), at, text, scratch),
            final(self).env() == old(self).env(),
    {
        let ok: usize = self.label();
        let key: String = self.arm_key("br/f", H::F);
        self.test(key.as_str(), at, V::Blk(ok), V::Fall);
        self.abort_with("buri_rt_abort_assert", text, scratch);
        self.place(ok);
    }

    /// The failure of a comparison, with the two values rendered.
    pub fn report_shown(&mut self, a: u64, b: u64, c: u64, scratch: u64)
        requires
            a <= 0xffff_ffff,
            b <= 0xffff_ffff,
            c <= 0xffff_ffff,
            scratch <= 0xffff_ffff,
        ensures
            final(self)@ == old(self)@.report_shown(a, b, c, scratch),
            final(self).env() == old(self).env(),
    {
        self.str_arg(a, scratch);
        self.str_arg(b, scratch + 8);
        self.str_arg(c, scratch + 16);
        self.c_call(
            "buri_rt_test_fail_compared",
            vec![
                Src::Word(a + 8),
                Src::Word(scratch),
                Src::Word(b + 8),
                Src::Word(scratch + 8),
                Src::Word(c + 8),
                Src::Word(scratch + 16),
            ],
            Vec::new(),
            0,
            Ret::Void,
        );
    }
}

} // verus!
