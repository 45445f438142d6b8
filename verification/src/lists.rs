//! The list operations that take a function, open-coded as loops.
//!
//! A step's signature is the element type flattened, so no runtime function can
//! call one: the loop is emitted where the element type is known. A call of a
//! runtime intrinsic borrows its arguments and answers a fresh count, and a call
//! through a function value owns its arguments, so every value handed to a step
//! is retained first.
use vstd::prelude::*;

use crate::ir::Code;
use crate::ir::Func;
use crate::ir::Ownership;
use crate::ir::Program;
use crate::ir::Type;
use crate::select::slot_of;
use crate::select::slot_of_width;
use crate::select::Emit;
use crate::select::Env;
use crate::select::FrameSig;
use crate::select::Ret;
use crate::select::Sel;
use crate::select::Src;
use crate::select::H;
use crate::select::V;
use crate::text::decimal;
use crate::text::decimal_of;
use crate::text::join2;
use crate::text::join3;
use crate::text::join5;
use crate::text::same;
use crate::types::at_least;
use crate::types::at_or;
use crate::types::ent;
use crate::types::max_of;
use crate::types::payload_at;
use crate::types::EnumRepr;
use crate::types::Layout;
use crate::types::Shape;
use crate::types::TypeInfo;
use crate::walk::ENV_WORD;

verus! {

/// A list operation whose answer is one carried value.
#[derive(Clone, Copy, PartialEq, Eq, Structural, Debug)]
pub enum Step {
    MapEach,
    Filter,
    Fold,
    Any,
    All,
    Count,
}

/// Where the arguments of a list operation stand.
#[derive(Clone, Copy, PartialEq, Eq, Structural, Debug)]
pub struct ListCall {
    pub kind: Step,
    /// The context, where the step takes one.
    pub ctx: Option<usize>,
    pub func: usize,
    /// The initial accumulator of a fold.
    pub init: Option<usize>,
}

/// The list operation of a key.
pub open spec fn call_of(key: Seq<char>) -> Option<ListCall> {
    if key == "list.map"@ {
        Some(ListCall { kind: Step::MapEach, ctx: None, func: 2, init: None })
    } else if key == "list.mapCtx"@ {
        Some(ListCall { kind: Step::MapEach, ctx: Some(1), func: 2, init: None })
    } else if key == "list.filter"@ {
        Some(ListCall { kind: Step::Filter, ctx: None, func: 2, init: None })
    } else if key == "list.filterCtx"@ {
        Some(ListCall { kind: Step::Filter, ctx: Some(1), func: 2, init: None })
    } else if key == "list.fold"@ {
        Some(ListCall { kind: Step::Fold, ctx: None, func: 1, init: Some(2) })
    } else if key == "list.foldCtx"@ {
        Some(ListCall { kind: Step::Fold, ctx: Some(1), func: 2, init: Some(3) })
    } else if key == "list.any"@ {
        Some(ListCall { kind: Step::Any, ctx: None, func: 1, init: None })
    } else if key == "list.all"@ {
        Some(ListCall { kind: Step::All, ctx: None, func: 1, init: None })
    } else if key == "list.count"@ {
        Some(ListCall { kind: Step::Count, ctx: None, func: 1, init: None })
    } else {
        None
    }
}

/// The list operation of a key.
pub fn list_call(key: &str) -> (r: Option<ListCall>)
    ensures
        r == call_of(key@),
{
    if same(key, "list.map") {
        Some(ListCall { kind: Step::MapEach, ctx: None, func: 2, init: None })
    } else if same(key, "list.mapCtx") {
        Some(ListCall { kind: Step::MapEach, ctx: Some(1), func: 2, init: None })
    } else if same(key, "list.filter") {
        Some(ListCall { kind: Step::Filter, ctx: None, func: 2, init: None })
    } else if same(key, "list.filterCtx") {
        Some(ListCall { kind: Step::Filter, ctx: Some(1), func: 2, init: None })
    } else if same(key, "list.fold") {
        Some(ListCall { kind: Step::Fold, ctx: None, func: 1, init: Some(2) })
    } else if same(key, "list.foldCtx") {
        Some(ListCall { kind: Step::Fold, ctx: Some(1), func: 2, init: Some(3) })
    } else if same(key, "list.any") {
        Some(ListCall { kind: Step::Any, ctx: None, func: 1, init: None })
    } else if same(key, "list.all") {
        Some(ListCall { kind: Step::All, ctx: None, func: 1, init: None })
    } else if same(key, "list.count") {
        Some(ListCall { kind: Step::Count, ctx: None, func: 1, init: None })
    } else {
        None
    }
}

impl ListCall {
    /// How many values the step takes: the context, the accumulator of a fold,
    /// and the element.
    pub open spec fn want(self) -> nat {
        (if self.ctx is Some {
            1nat
        } else {
            0
        }) + (if self.kind == Step::Fold {
            1nat
        } else {
            0
        }) + 1
    }

    /// How many values the step takes.
    pub fn wanted(&self) -> (r: usize)
        ensures
            r == self.want(),
            r <= 3,
    {
        let a: usize = if self.ctx.is_some() {
            1
        } else {
            0
        };
        let b: usize = if self.kind == Step::Fold {
            1
        } else {
            0
        };
        a + b + 1
    }
}

/// Where the scratch words of the loops with more state begin.
pub const LOOP_WORD: u64 = 32;

/// Where a whole element is staged between two blocks, as a scratch word.
pub const STAGE_WORD: u64 = 56;

/// How many bytes can be staged.
pub const STAGE_ROOM: u64 = 320;

/// The frame of a step: its answer, its environment and its parameters, as
/// offsets into that frame.
pub struct StepShape {
    pub func: usize,
    pub ret: u64,
    pub env: u64,
    pub params: Vec<u64>,
    /// Whether the step is called by name.
    pub direct: bool,
    pub env_w: u64,
}

/// The frame of a step, abstractly.
pub struct Stp {
    pub func: usize,
    pub ret: u64,
    pub env: u64,
    pub params: Seq<u64>,
    pub direct: bool,
    pub env_w: u64,
}

impl View for StepShape {
    type V = Stp;

    open spec fn view(&self) -> Stp {
        Stp {
            func: self.func,
            ret: self.ret,
            env: self.env,
            params: self.params@,
            direct: self.direct,
            env_w: self.env_w,
        }
    }
}

impl StepShape {
    /// Every offset is that of a frame a few parameters wide.
    pub open spec fn small(&self) -> bool {
        &&& self.ret <= 0x10_0000_0000
        &&& self.env <= 0x10_0000_0000
        &&& forall|i: int| 0 <= i < self.params.len() ==> self.params[i] <= 0x10_0000_0000
    }
}

/// One list operation with every operand as a frame offset.
#[derive(Clone, Copy, Debug)]
pub struct LoopOps {
    pub xs: u32,
    pub fslot: u32,
    pub dest: u32,
    /// The context: its offset, its slot's width, and its type where it owns a
    /// counted block.
    pub ctx: Option<(u32, u64, Option<usize>)>,
    pub init: Option<u32>,
    pub acc_w: u64,
    pub acc_counted: Option<usize>,
    pub si: u32,
    pub elem_w: u32,
    pub elem_counted: Option<usize>,
    pub out_stride: u32,
    pub out_w: u32,
}

/// A list loop that can be emitted.
pub struct LoopPlan {
    pub kind: Step,
    pub ops: LoopOps,
    pub shape: StepShape,
}

/// A list loop that can be emitted, abstractly.
pub struct Loop {
    pub kind: Step,
    pub ops: LoopOps,
    pub shape: Stp,
}

/// The operands of a call: frame offsets and types.
pub struct Operands {
    pub args: Vec<(u32, Type)>,
    pub dest: (u32, Type),
}

/// A list operand.
#[derive(Clone, Copy, PartialEq, Eq, Structural, Debug)]
pub struct Block {
    pub at: u32,
    pub elem: usize,
    pub stride: u32,
    pub size: u32,
}

/// A step reached through its closure, with every offset in the caller's frame.
pub struct Thunked {
    pub base: u64,
    pub env: u64,
    pub ret: u64,
    pub params: Vec<u64>,
    pub fslot: u32,
    pub ret_ty: usize,
}

/// A step reached through its closure, abstractly.
pub struct Thk {
    pub base: u64,
    pub env: u64,
    pub ret: u64,
    pub params: Seq<u64>,
    pub fslot: u32,
    pub ret_ty: usize,
}

impl View for Thunked {
    type V = Thk;

    open spec fn view(&self) -> Thk {
        Thk {
            base: self.base,
            env: self.env,
            ret: self.ret,
            params: self.params@,
            fslot: self.fslot,
            ret_ty: self.ret_ty,
        }
    }
}

impl Thunked {
    /// Every offset is inside a frame.
    pub open spec fn small(&self) -> bool {
        &&& self.base <= 0xffff_ffff
        &&& self.env <= 0x20_0000_0000
        &&& self.ret <= 0x20_0000_0000
        &&& forall|i: int| 0 <= i < self.params.len() ==> self.params[i] <= 0x20_0000_0000
    }
}

/// The offsets of the parameters in `ps` from parameter `i` on, in a frame that
/// has them from `at` on.
pub open spec fn param_offsets(e: Env, ps: Seq<usize>, at: int, i: int) -> Seq<u64>
    decreases ps.len() - i,
{
    if i >= ps.len() {
        Seq::empty()
    } else {
        seq![at as u64] + param_offsets(e, ps, at + slot_of(e.layout(ps[i]).size), i + 1)
    }
}

/// Whether a function can be called by name with counts it owns.
pub open spec fn lends(e: Env, params: Seq<Type>, owned: Seq<Ownership>, i: int) -> bool
    decreases params.len() - i,
{
    if i >= params.len() || i >= owned.len() {
        true
    } else {
        !(owned[i] == Ownership::Borrow && e.counted_ty(params[i]) is Some) && lends(
            e,
            params,
            owned,
            i + 1,
        )
    }
}

/// Every entry after the first, as offsets.
pub open spec fn rest(v: Seq<u32>) -> Seq<u64> {
    Seq::new((v.len() - 1) as nat, |i: int| v[i + 1] as u64)
}

impl Env {
    /// The source type of a value, where it owns a counted block.
    pub open spec fn counted_ty(self, t: Type) -> Option<usize> {
        match t {
            Type::Agg(id) => if self.owns(id) {
                Some(id)
            } else {
                None
            },
            _ => None,
        }
    }

    /// The element type of a list value.
    pub open spec fn element(self, t: Type) -> Option<usize> {
        match t {
            Type::Agg(id) => self.prog.tables.at(id as int).element(),
            _ => None,
        }
    }

    /// The distance between two elements of a type.
    pub open spec fn stride(self, ty: usize) -> u32 {
        at_least(self.layout(ty).stride, 1)
    }

    /// The width of an element of a type.
    pub open spec fn elem_size(self, ty: usize) -> u32 {
        at_least(self.layout(ty).size, 1)
    }

    /// The list operand at an offset.
    pub open spec fn block(self, at: u32, t: Type) -> Option<Block> {
        match self.element(t) {
            Some(elem) => Some(
                Block { at, elem, stride: self.stride(elem), size: self.elem_size(elem) },
            ),
            None => None,
        }
    }

    /// The frame of the step that value `f` is, where `f` was made here and
    /// takes `want` values.
    pub open spec fn step_shape(self, f: usize, want: nat) -> Option<Stp> {
        match at_or(self.side.closure_of, f as int, None) {
            None => None,
            Some(func) => if func >= self.prog.funcs.len() {
                None
            } else {
                let g = self.prog.funcs[func as int];
                let fs = self.frame_of(func);
                if fs.params@.len() != want + 1 || fs.ret@.len() > 1 || g.params@.len() == 0 {
                    None
                } else {
                    let env_w = self.width(g.params@[0]) as u64;
                    Some(
                        Stp {
                            func,
                            ret: at_or(fs.ret@, 0, 0u32) as u64,
                            env: fs.params@[0] as u64,
                            params: rest(fs.params@),
                            direct: g.owned@.len() == g.params@.len() && lends(
                                self,
                                g.params@,
                                g.owned@,
                                0,
                            ) && env_w == 0,
                            env_w,
                        },
                    )
                }
            },
        }
    }

    /// The frame of the thunk of a closure type that takes `want` values: its
    /// answer, a word for the environment, and the values.
    pub open spec fn step_shape_ty(self, fty: Type, want: nat) -> Option<Stp> {
        match fty {
            Type::Agg(id) => match self.prog.tables.at(id as int).shape {
                Shape::Fn { params, ret } => if params@.len() != want {
                    None
                } else {
                    let r = slot_of(self.layout(ret).size);
                    Some(
                        Stp {
                            func: 0,
                            ret: 0,
                            env: r,
                            params: param_offsets(self, params@, r + 8, 0),
                            direct: false,
                            env_w: 8,
                        },
                    )
                },
                _ => None,
            },
            _ => None,
        }
    }

    /// The same, with its offsets in the caller's frame.
    pub open spec fn thunked(self, fslot: u32, fty: Type, want: nat) -> Option<Thk> {
        match self.step_shape_ty(fty, want) {
            Some(s) => {
                let base = self.frame.size as u64;
                Some(
                    Thk {
                        base,
                        env: (base + s.env) as u64,
                        ret: (base + s.ret) as u64,
                        params: Seq::new(s.params.len(), |i: int| (base + s.params[i]) as u64),
                        fslot,
                        ret_ty: match fty {
                            Type::Agg(id) => match self.prog.tables.at(id as int).shape {
                                Shape::Fn { params, ret } => ret,
                                _ => 0,
                            },
                            _ => 0,
                        },
                    },
                )
            },
            None => None,
        }
    }

    /// What a list loop needs of the types in it.
    pub open spec fn loop_ops(
        self,
        kind: Step,
        xs_ty: Type,
        dest_ty: Type,
        xs: u32,
        fslot: u32,
        dest: u32,
        ctx: Option<(u32, u64, Option<usize>)>,
        init: Option<u32>,
    ) -> Option<LoopOps> {
        match self.element(xs_ty) {
            None => None,
            Some(elem) => if kind == Step::MapEach && self.element(dest_ty) is None {
                None
            } else if kind == Step::Fold && init is None {
                None
            } else {
                Some(
                    LoopOps {
                        xs,
                        fslot,
                        dest,
                        ctx,
                        init,
                        acc_w: self.slot_bytes(dest_ty),
                        acc_counted: self.counted_ty(dest_ty),
                        si: self.stride(elem),
                        elem_w: self.elem_size(elem),
                        elem_counted: if self.owns(elem) {
                            Some(elem)
                        } else {
                            None
                        },
                        out_stride: match kind {
                            Step::MapEach => self.stride(self.element(dest_ty)->0),
                            Step::Filter => self.stride(elem),
                            _ => 0,
                        },
                        out_w: match kind {
                            Step::MapEach => self.elem_size(self.element(dest_ty)->0),
                            Step::Filter => self.elem_size(elem),
                            _ => 0,
                        },
                    },
                )
            },
        }
    }

    /// The loop a call of a list operation becomes, where its step is a closure
    /// made here.
    #[verifier::opaque]
    pub open spec fn loop_of_call(
        self,
        code: Code,
        dests: Seq<usize>,
        key: Seq<char>,
        args: Seq<usize>,
    ) -> Option<Loop> {
        match call_of(key) {
            None => None,
            Some(c) => if self.sw.no_loops || c.func >= args.len() || dests.len() == 0 {
                None
            } else if c.ctx is Some && c.ctx->0 >= args.len() {
                None
            } else if c.init is Some && c.init->0 >= args.len() {
                None
            } else {
                let f = args[c.func as int];
                let made = self.step_shape(f, c.want());
                let shape = match made {
                    None => None,
                    Some(s) => if s.direct {
                        Some(s)
                    } else {
                        self.step_shape_ty(code.ty(f), c.want())
                    },
                };
                let ctx = match c.ctx {
                    Some(i) => {
                        let v = args[i as int];
                        Some(
                            (
                                self.at(v) as u32,
                                self.slot_bytes(code.ty(v)),
                                self.counted_ty(code.ty(v)),
                            ),
                        )
                    },
                    None => None,
                };
                let init = match c.init {
                    Some(i) => Some(self.at(args[i as int]) as u32),
                    None => None,
                };
                match (
                    shape,
                    self.loop_ops(
                        c.kind,
                        code.ty(args[0]),
                        code.ty(dests[0]),
                        self.at(args[0]) as u32,
                        self.at(f) as u32,
                        self.at(dests[0]) as u32,
                        ctx,
                        init,
                    ),
                ) {
                    (Some(shape), Some(ops)) => Some(Loop { kind: c.kind, ops, shape }),
                    _ => None,
                }
            },
        }
    }

    /// The loop the body of a runtime function becomes, its operands being the
    /// function's own parameters.
    #[verifier::opaque]
    pub open spec fn loop_of_body(self, fi: usize, key: Seq<char>) -> Option<Loop> {
        match call_of(key) {
            None => None,
            Some(c) => if self.sw.no_loops || fi >= self.prog.funcs.len() {
                None
            } else {
                let f = self.prog.funcs[fi as int];
                let ps = f.params@;
                let at = self.frame.params;
                if f.rets@.len() == 0 || ps.len() == 0 || at.len() == 0 || self.frame.ret.len()
                    == 0 {
                    None
                } else if c.func >= at.len() || c.func >= ps.len() {
                    None
                } else if c.ctx is Some && (c.ctx->0 >= at.len() || c.ctx->0 >= ps.len()) {
                    None
                } else if c.init is Some && c.init->0 >= at.len() {
                    None
                } else {
                    let ctx = match c.ctx {
                        Some(i) => Some(
                            (
                                at[i as int],
                                self.slot_bytes(ps[i as int]),
                                self.counted_ty(ps[i as int]),
                            ),
                        ),
                        None => None,
                    };
                    let init = match c.init {
                        Some(i) => Some(at[i as int]),
                        None => None,
                    };
                    match (
                        self.step_shape_ty(ps[c.func as int], c.want()),
                        self.loop_ops(
                            c.kind,
                            ps[0],
                            f.rets@[0],
                            at[0],
                            at[c.func as int],
                            self.frame.ret[0],
                            ctx,
                            init,
                        ),
                    ) {
                        (Some(shape), Some(ops)) => Some(Loop { kind: c.kind, ops, shape }),
                        _ => None,
                    }
                }
            },
        }
    }
}

/// What an element too wide to stage is refused with.
pub open spec fn too_wide(size: u64) -> Seq<char> {
    "a `[T]` whose element is "@ + decimal(size as nat) + " bytes, past the "@ + decimal(
        STAGE_ROOM as nat,
    ) + " a frame stages one in"@
}

impl Sel {
    /// An indexed copy.
    pub open spec fn elem_op(self, key: Seq<char>, d: u64, a: u64, b: u64, p: u64) -> Sel {
        self.emit(
            key,
            seq![
                (H::D, V::I(d)),
                (H::A, V::I(a)),
                (H::B, V::I(b)),
                (H::P, V::I(p)),
                (H::Cont, V::Fall),
            ],
        )
    }

    /// An indexed copy of any width, by the narrowest stencil of the family
    /// `stem` the library has.
    pub open spec fn elem_copy(
        self,
        e: Env,
        stem: Seq<char>,
        d: u64,
        base: u64,
        i: u64,
        stride: u64,
        bytes: u64,
    ) -> Sel {
        let plain = stem + decimal(bytes as nat);
        let baked = stem + decimal(bytes as nat) + "/s"@;
        let key = if stride == bytes && !e.sw.no_stride && e.has(baked) {
            baked
        } else {
            plain
        };
        if e.has(key) {
            self.elem_op(key, d, base, i, stride)
        } else {
            self.emit(
                stem + "n"@,
                seq![
                    (H::D, V::I(d)),
                    (H::A, V::I(base)),
                    (H::B, V::I(i)),
                    (H::P, V::I(stride)),
                    (H::N, V::I(bytes)),
                    (H::Cont, V::Fall),
                ],
            )
        }
    }

    /// Element `i` of the block at `base` into the frame. An element narrower
    /// than a word arrives with zeros above it.
    pub open spec fn elem_load(
        self,
        e: Env,
        d: u64,
        base: u64,
        i: u64,
        stride: u64,
        bytes: u64,
    ) -> Sel {
        if bytes < 8 {
            let zk = if stride == bytes && !e.sw.no_stride {
                "eloadz/"@ + decimal(bytes as nat) + "/s"@
            } else {
                "eloadz/"@ + decimal(bytes as nat)
            };
            if e.has(zk) {
                self.elem_op(zk, d, base, i, stride)
            } else {
                self.imm_to(d, 0).elem_copy(e, "eload/"@, d, base, i, stride, bytes)
            }
        } else {
            self.elem_copy(e, "eload/"@, d, base, i, stride, bytes)
        }
    }

    /// A value of the frame into element `i` of the block at `base`.
    pub open spec fn elem_store(
        self,
        e: Env,
        s: u64,
        base: u64,
        i: u64,
        stride: u64,
        bytes: u64,
    ) -> Sel {
        self.elem_copy(e, "estore/"@, s, base, i, stride, bytes)
    }

    /// A word and a literal added.
    pub open spec fn add_imm(self, e: Env, d: u64, a: u64, k: u64, scratch: u64) -> Sel {
        if e.has("bin/add/u64/fi/f"@) {
            self.dak("bin/add/u64/fi/f"@, d, a, k)
        } else {
            self.imm_to(scratch, k).dab("bin/add/u64/ff/f"@, d, a, scratch)
        }
    }

    /// A word and a literal added, in a loop with more state.
    pub open spec fn addk(self, e: Env, d: u64, a: u64, k: u64) -> Sel {
        self.add_imm(e, d, a, k, e.word(LOOP_WORD + 23))
    }

    /// A branch on whether one word is below another, as unsigned numbers.
    pub open spec fn br_lt(self, e: Env, a: u64, b: u64, tv: V, fv: V, fall: H) -> Sel {
        if e.has("brcmp/lt/u64/ff"@) {
            self.test_b(e.arm("brcmp/lt/u64/ff"@, fall), a, b, tv, fv)
        } else {
            let below = e.word(12);
            self.dab("bin/lt/u64/ff/f"@, below, a, b).test("br/f"@, below, tv, fv)
        }
    }

    /// The discriminant of variant `v`, leaving any payload alone.
    pub open spec fn store_disc(self, l: Layout, at: u64, v: int) -> Sel {
        match l.tagging() {
            Some(EnumRepr::Bare { tag }) => self.imm_w(at, tag as u64, v as u64),
            Some(EnumRepr::Tagged { tag }) => self.imm_w(at, tag as u64, v as u64),
            Some(EnumRepr::Niche { null_at }) => if v < l.width() && l.arity(v) == 0 {
                self.imm_to((at + null_at) as u64, 0)
            } else {
                self
            },
            None => self,
        }
    }

    /// The discriminant of the enum at `at` as a word.
    pub open spec fn load_disc(self, l: Layout, at: u64, d: u64) -> Sel {
        match l.tagging() {
            Some(EnumRepr::Bare { tag }) => self.load_w(d, at, tag as u64),
            Some(EnumRepr::Tagged { tag }) => self.load_w(d, at, tag as u64),
            Some(EnumRepr::Niche { null_at }) => self.niche_tag(
                d,
                (at + null_at) as u64,
                l.empty_variant() as u64,
            ),
            None => self.imm_to(d, 0),
        }
    }

    /// The variant a niche stands for: `null` where the pointer at `at` is null,
    /// and the other one otherwise.
    pub open spec fn niche_tag(self, d: u64, at: u64, null: u64) -> Sel {
        self.emit(
            "niche_tag"@,
            seq![
                (H::D, V::I(d)),
                (H::A, V::I(at)),
                (H::N, V::I(null)),
                (
                    H::P,
                    V::I(
                        if null == 0 {
                            1
                        } else {
                            0
                        },
                    ),
                ),
                (H::Cont, V::Fall),
            ],
        )
    }

    /// The value a list loop starts from.
    pub open spec fn loop_start(self, e: Env, kind: Step, o: LoopOps) -> Sel {
        let d = o.dest as u64;
        match kind {
            Step::MapEach => self.mv(d, e.word(11), 8).mv((d + 8) as u64, e.word(9), 8),
            Step::Filter => self.imm_to(e.word(12), 0),
            Step::Fold => {
                let s = self.mv(
                    d,
                    match o.init {
                        Some(i) => i as u64,
                        None => d,
                    },
                    o.acc_w,
                );
                match o.acc_counted {
                    Some(t) => s.retain_value(e, t, d),
                    None => s,
                }
            },
            Step::Any => self.imm_to(d, 0),
            Step::Count => self.imm_to(d, 0),
            Step::All => self.imm_to(d, 1),
        }
    }

    /// A step's arguments: the environment, the context, the accumulator of a
    /// fold and the element. `k` is the parameter the context or what follows it
    /// goes to.
    pub open spec fn loop_args(self, e: Env, kind: Step, o: LoopOps, sh: Stp) -> Sel {
        let base = e.frame.size;
        let s = if sh.env_w > 0 || e.sw.copy_env {
            self.mv((base + sh.env) as u64, (o.fslot + 8) as u64, 8)
        } else {
            self
        };
        let s = match o.ctx {
            Some(c) => {
                let to = (base + sh.params[0]) as u64;
                let s = s.mv(to, c.0 as u64, c.1);
                match c.2 {
                    Some(t) => s.retain_value(e, t, to),
                    None => s,
                }
            },
            None => s,
        };
        let k: int = if o.ctx is Some {
            1
        } else {
            0
        };
        let s = if kind == Step::Fold {
            s.mv((base + sh.params[k]) as u64, o.dest as u64, o.acc_w)
        } else {
            s
        };
        let to = (base + sh.params[elem_param(kind, o)]) as u64;
        let s = s.elem_load(e, to, e.word(10), e.word(8), o.si as u64, o.elem_w as u64);
        match o.elem_counted {
            Some(t) => s.retain_value(e, t, to),
            None => s,
        }
    }

    /// What a loop does with a step's answer. `early` is where a decided search
    /// leaves to.
    pub open spec fn loop_answer(self, e: Env, kind: Step, o: LoopOps, sh: Stp) -> Sel {
        let base = e.frame.size;
        let answer = (base + sh.ret) as u64;
        let to = (base + sh.params[elem_param(kind, o)]) as u64;
        let d = o.dest as u64;
        match kind {
            Step::MapEach => self.elem_store(
                e,
                answer,
                e.word(11),
                e.word(8),
                o.out_stride as u64,
                o.out_w as u64,
            ),
            Step::Filter => {
                let skip = self.next();
                let s = self.fresh().test(
                    e.arm("br/f"@, H::T),
                    answer,
                    V::Fall,
                    V::Blk(skip),
                ).elem_load(e, to, e.word(10), e.word(8), o.si as u64, o.elem_w as u64).elem_store(
                    e,
                    to,
                    e.word(11),
                    e.word(12),
                    o.out_stride as u64,
                    o.out_w as u64,
                );
                let s = match o.elem_counted {
                    Some(t) => s.retain_value(e, t, to),
                    None => s,
                };
                s.add_imm(e, e.word(12), e.word(12), 1, (base + sh.env) as u64).place(skip)
            },
            Step::Fold => self.mv(d, answer, o.acc_w),
            Step::Count => self.dab("bin/add/u64/ff/f"@, d, d, answer),
            Step::Any => self.fresh().test(
                e.arm("br/f"@, H::F),
                answer,
                V::Blk(self.next()),
                V::Fall,
            ),
            Step::All => self.fresh().test(
                e.arm("br/f"@, H::T),
                answer,
                V::Fall,
                V::Blk(self.next()),
            ),
        }
    }

    /// The back edge of a loop over the counter and the length.
    pub open spec fn loop_next(self, e: Env, body: usize, env: u64) -> Sel {
        if e.has("incbr/lt"@) && !e.sw.no_fused {
            self.emit(
                e.arm("incbr/lt"@, H::F),
                seq![
                    (H::D, V::I(e.word(8))),
                    (H::A, V::I(e.word(8))),
                    (H::N, V::I(1)),
                    (H::B, V::I(e.word(9))),
                    (H::T, V::Blk(body)),
                    (H::F, V::Fall),
                ],
            )
        } else {
            self.add_imm(e, e.word(8), e.word(8), 1, env).br_lt(
                e,
                e.word(8),
                e.word(9),
                V::Blk(body),
                V::Fall,
                H::F,
            )
        }
    }

    /// The source, its length, the block of the answers and the counter.
    pub open spec fn loop_open(self, e: Env, p: Loop) -> Sel {
        let o = p.ops;
        let s = self.mv(e.word(10), o.xs as u64, 8).mv(e.word(9), (o.xs + 8) as u64, 8);
        let s = if p.kind == Step::MapEach || p.kind == Step::Filter {
            s.new_elems(e.word(11), e.word(9), o.out_stride as u64)
        } else {
            s
        };
        s.loop_start(e, p.kind, o).imm_to(e.word(8), 0)
    }

    /// One call of the step.
    pub open spec fn loop_step(self, e: Env, p: Loop) -> Sel {
        let s = self.loop_args(e, p.kind, p.ops, p.shape);
        if p.shape.direct {
            s.call_fn(e.frame.size as u64, p.shape.func)
        } else {
            s.call_ptr(p.ops.fslot as u64, e.frame.size as u64)
        }
    }

    /// The end of the loop: the exit of a decided search, and the answer of a
    /// filter.
    pub open spec fn loop_close(self, e: Env, p: Loop, done: usize, exit: usize) -> Sel {
        let o = p.ops;
        let s = if p.kind == Step::Any || p.kind == Step::All {
            self.jump(V::Blk(done)).place(exit).imm_to(
                o.dest as u64,
                if p.kind == Step::Any {
                    1
                } else {
                    0
                },
            )
        } else {
            self
        };
        let s = s.place(done);
        let s = if p.kind == Step::Filter {
            s.mv(o.dest as u64, e.word(11), 8).mv((o.dest + 8) as u64, e.word(12), 8)
        } else {
            s
        };
        Sel { loops: s.loops.push(p.shape.direct), ..s }
    }

    /// A list operation as a loop: one call of the step per element.
    #[verifier::opaque]
    pub open spec fn list_loop(self, e: Env, p: Loop) -> Sel {
        let s = self.loop_open(e, p);
        let body = s.next();
        let done = s.fresh().next();
        let s = s.fresh().fresh().br_lt(
            e,
            e.word(8),
            e.word(9),
            V::Fall,
            V::Blk(done),
            H::T,
        ).place(body).loop_step(e, p);
        let exit = s.next();
        s.loop_answer(e, p.kind, p.ops, p.shape).loop_next(
            e,
            body,
            (e.frame.size + p.shape.env) as u64,
        ).loop_close(e, p, done, exit)
    }

    /// A call of a step through its closure.
    pub open spec fn thunk_call(self, c: Thk) -> Sel {
        self.mv(c.env, (c.fslot + ENV_WORD) as u64, 8).call_ptr(c.fslot as u64, c.base)
    }

    /// A fresh list block and its descriptor.
    pub open spec fn new_block(self, ptr: u64, dest: u64, n: u64, stride: u64) -> Sel {
        self.new_elems(ptr, n, stride).mv(dest, ptr, 8).mv((dest + 8) as u64, n, 8)
    }

    /// The first element a predicate keeps, or its index, as an option.
    pub open spec fn list_find(self, e: Env, x: Block, c: Thk, l: Layout, d: u64, index: bool) -> Sel {
        let xs = x.at as u64;
        let pay = (d + l.first_payload(0)) as u64;
        let i = e.word(LOOP_WORD as int);
        let s = self.imm_to(i, 0);
        let head = s.next();
        let done = s.fresh().next();
        let end = s.fresh().fresh().next();
        let s = s.fresh().fresh().fresh().place(head).br_lt(
            e,
            i,
            (xs + 8) as u64,
            V::Fall,
            V::Blk(done),
            H::T,
        ).elem_load(e, c.params[0], xs, i, x.stride as u64, x.size as u64).retain_counted(
            e,
            x.elem,
            c.params[0],
        ).thunk_call(c);
        let cont = s.next();
        let s = s.fresh().test(e.arm("br/f"@, H::T), c.ret, V::Fall, V::Blk(cont));
        let s = if index {
            s.mv(pay, i, 8)
        } else {
            s.elem_load(e, pay, xs, i, x.stride as u64, x.size as u64).retain_counted(
                e,
                x.elem,
                pay,
            )
        };
        s.store_disc(l, d, 0).jump(V::Blk(end)).place(cont).addk(e, i, i, 1).jump(
            V::Blk(head),
        ).place(done).store_disc(l, d, 1).place(end)
    }

    /// A fold that stops at the first error. The accumulator is staged at `acc`.
    pub open spec fn list_fold_result(
        self,
        e: Env,
        x: Block,
        c: Thk,
        l: Layout,
        res: u64,
        res_ty: Type,
        ctx: Option<(u32, Type)>,
        init: (u32, Type),
    ) -> Sel {
        let xs = x.at as u64;
        let ok_at = (res + l.first_payload(0)) as u64;
        let acc_w = e.slot_bytes(init.1);
        if acc_w > STAGE_ROOM {
            self.unsupported(too_wide(acc_w))
        } else {
            let acc = e.word(STAGE_WORD as int);
            let s = self.mv(acc, init.0 as u64, acc_w);
            let s = match e.counted_ty(init.1) {
                Some(t) => s.retain_value(e, t, acc),
                None => s,
            };
            let i = e.word(LOOP_WORD + 8);
            let tag = e.word(LOOP_WORD + 9);
            let s = s.imm_to(i, 0);
            let head = s.next();
            let done = s.fresh().next();
            let end = s.fresh().fresh().next();
            let s = s.fresh().fresh().fresh().place(head).br_lt(
                e,
                i,
                (xs + 8) as u64,
                V::Fall,
                V::Blk(done),
                H::T,
            );
            let k: int = if ctx is Some {
                1
            } else {
                0
            };
            let s = match ctx {
                Some(p) => {
                    let s = s.mv(c.params[0], p.0 as u64, e.slot_bytes(p.1));
                    match e.counted_ty(p.1) {
                        Some(t) => s.retain_value(e, t, c.params[0]),
                        None => s,
                    }
                },
                None => s,
            };
            let s = s.mv(c.params[k], acc, acc_w).elem_load(
                e,
                c.params[k + 1],
                xs,
                i,
                x.stride as u64,
                x.size as u64,
            ).retain_counted(e, x.elem, c.params[k + 1]).thunk_call(c).mv(
                res,
                c.ret,
                e.slot_bytes(res_ty),
            );
            let carry = s.next();
            s.fresh().load_disc(l, res, tag).test_k(
                e.arm("brcmp/eq/u64/fi"@, H::T),
                tag,
                0,
                V::Blk(carry),
                V::Fall,
            ).jump(V::Blk(end)).place(carry).mv(acc, ok_at, acc_w).addk(e, i, i, 1).jump(
                V::Blk(head),
            ).place(done).mv(ok_at, acc, acc_w).store_disc(l, res, 0).place(end)
        }
    }

    /// One block of pairs, as long as the shorter of two lists.
    pub open spec fn list_zip(self, e: Env, a: Block, b: Block, out: usize, dest: u64) -> Sel {
        let xs = a.at as u64;
        let ys = b.at as u64;
        let ol = e.layout(out);
        let stride = e.stride(out) as u64;
        let size = e.elem_size(out) as u64;
        let n = e.word(LOOP_WORD as int);
        let ptr = e.word(LOOP_WORD + 1);
        let i = e.word(LOOP_WORD + 2);
        let s = self.mv(n, (xs + 8) as u64, 8);
        let shorter = s.next();
        let s = s.fresh().test_b(
            e.arm("brcmp/lt/u64/ff"@, H::T),
            (xs + 8) as u64,
            (ys + 8) as u64,
            V::Blk(shorter),
            V::Fall,
        ).mv(n, (ys + 8) as u64, 8).place(shorter).new_block(ptr, dest, n, stride).imm_to(i, 0);
        let head = s.next();
        let done = s.fresh().next();
        let s = s.fresh().fresh().place(head).br_lt(e, i, n, V::Fall, V::Blk(done), H::T);
        if size > STAGE_ROOM {
            s.unsupported(too_wide(size))
        } else {
            let pair = e.word(STAGE_WORD as int);
            let first = (pair + at_or(ol.fields@, 0, 0u32)) as u64;
            let second = (pair + at_or(ol.fields@, 1, 0u32)) as u64;
            s.elem_load(e, first, xs, i, a.stride as u64, a.size as u64).retain_counted(
                e,
                a.elem,
                first,
            ).elem_load(e, second, ys, i, b.stride as u64, b.size as u64).retain_counted(
                e,
                b.elem,
                second,
            ).elem_store(e, pair, ptr, i, stride, size).addk(e, i, i, 1).jump(V::Blk(head)).place(
                done,
            )
        }
    }

    /// One block of every element of every inner list: the lengths summed, then
    /// the elements copied.
    pub open spec fn list_flatten(self, e: Env, x: Block, out: usize, dest: u64) -> Sel {
        let xs = x.at as u64;
        let stride = e.stride(out) as u64;
        let size = e.elem_size(out) as u64;
        let i = e.word(LOOP_WORD as int);
        let total = e.word(LOOP_WORD + 1);
        let ptr = e.word(LOOP_WORD + 2);
        let j = e.word(LOOP_WORD + 3);
        let k = e.word(LOOP_WORD + 4);
        let filled = e.word(LOOP_WORD + 5);
        let inner = e.word(LOOP_WORD + 6);
        let len = e.word(LOOP_WORD + 8);
        let s = self.imm_to(i, 0).imm_to(total, 0);
        let count = s.next();
        let counted = s.fresh().next();
        let s = s.fresh().fresh().place(count).br_lt(
            e,
            i,
            (xs + 8) as u64,
            V::Fall,
            V::Blk(counted),
            H::T,
        ).elem_load(e, inner, xs, i, x.stride as u64, x.size as u64).dab(
            "bin/add/u64/ff/f"@,
            total,
            total,
            (inner + 8) as u64,
        ).addk(e, i, i, 1).jump(V::Blk(count)).place(counted).new_block(
            ptr,
            dest,
            total,
            stride,
        ).imm_to(i, 0).imm_to(k, 0);
        let head = s.next();
        let done = s.fresh().next();
        let s = s.fresh().fresh().place(head).br_lt(
            e,
            i,
            (xs + 8) as u64,
            V::Fall,
            V::Blk(done),
            H::T,
        ).elem_load(e, inner, xs, i, x.stride as u64, x.size as u64).mv(
            len,
            (inner + 8) as u64,
            8,
        ).imm_to(j, 0);
        let ihead = s.next();
        let idone = s.fresh().next();
        let s = s.fresh().fresh().place(ihead).br_lt(e, j, len, V::Fall, V::Blk(idone), H::T);
        if size > STAGE_ROOM {
            s.unsupported(too_wide(size))
        } else {
            let st = e.word(STAGE_WORD as int);
            s.elem_load(e, st, inner, j, stride, size).retain_counted(e, out, st).dab(
                "bin/add/u64/ff/f"@,
                filled,
                k,
                j,
            ).elem_store(e, st, ptr, filled, stride, size).addk(e, j, j, 1).jump(
                V::Blk(ihead),
            ).place(idone).dab("bin/add/u64/ff/f"@, k, k, len).addk(e, i, i, 1).jump(
                V::Blk(head),
            ).place(done)
        }
    }

    /// The smaller of two words into the first of them.
    pub open spec fn clamp(self, e: Env, d: u64, n: u64) -> Sel {
        let ok = self.next();
        self.fresh().test_b(
            e.arm("brcmp/lt/u64/ff"@, H::T),
            d,
            n,
            V::Blk(ok),
            V::Fall,
        ).mv(d, n, 8).place(ok)
    }

    /// The source copied into the block at word 1, every element retained.
    pub open spec fn sort_copy(self, e: Env, x: Block) -> Sel {
        let xs = x.at as u64;
        let n = e.word(LOOP_WORD as int);
        let dst = e.word(LOOP_WORD + 1);
        let i = e.word(LOOP_WORD + 13);
        let st = e.word(STAGE_WORD as int);
        let s = self.imm_to(i, 0);
        let head = s.next();
        let filled = s.fresh().next();
        s.fresh().fresh().place(head).br_lt(e, i, n, V::Fall, V::Blk(filled), H::T).elem_load(
            e,
            st,
            xs,
            i,
            x.stride as u64,
            x.size as u64,
        ).retain_counted(e, x.elem, st).elem_store(
            e,
            st,
            dst,
            i,
            x.stride as u64,
            x.size as u64,
        ).addk(e, i, i, 1).jump(V::Blk(head)).place(filled)
    }

    /// One merge of two adjacent runs. The left element is taken unless the
    /// step says the right one is smaller, which is what makes the sort stable.
    pub open spec fn sort_merge(self, e: Env, x: Block, c: Thk) -> Sel {
        let stride = x.stride as u64;
        let size = x.size as u64;
        let a = e.word(LOOP_WORD + 4);
        let b = e.word(LOOP_WORD + 5);
        let lo = e.word(LOOP_WORD + 7);
        let mid = e.word(LOOP_WORD + 8);
        let hi = e.word(LOOP_WORD + 9);
        let li = e.word(LOOP_WORD + 10);
        let ri = e.word(LOOP_WORD + 11);
        let out = e.word(LOOP_WORD + 12);
        let answer = e.word(LOOP_WORD + 15);
        let st = e.word(STAGE_WORD as int);
        let s = self.mv(li, lo, 8).mv(ri, mid, 8).mv(out, lo, 8);
        let merge = s.next();
        let merged = s.fresh().next();
        let left = s.fresh().fresh().next();
        let right = s.fresh().fresh().fresh().next();
        let took = s.fresh().fresh().fresh().fresh().next();
        s.fresh().fresh().fresh().fresh().fresh().place(merge).br_lt(
            e,
            out,
            hi,
            V::Fall,
            V::Blk(merged),
            H::T,
        ).br_lt(e, li, mid, V::Fall, V::Blk(right), H::T).br_lt(
            e,
            ri,
            hi,
            V::Fall,
            V::Blk(left),
            H::T,
        ).elem_load(e, c.params[0], a, li, stride, size).elem_load(
            e,
            c.params[1],
            a,
            ri,
            stride,
            size,
        ).retain_counted(e, x.elem, c.params[0]).retain_counted(e, x.elem, c.params[1]).thunk_call(
            c,
        ).load_disc(e.layout(c.ret_ty), c.ret, answer).test_k(
            e.arm("brcmp/eq/u64/fi"@, H::T),
            answer,
            GREATER,
            V::Blk(right),
            V::Fall,
        ).place(left).elem_load(e, st, a, li, stride, size).addk(e, li, li, 1).jump(
            V::Blk(took),
        ).place(right).elem_load(e, st, a, ri, stride, size).addk(e, ri, ri, 1).place(
            took,
        ).elem_store(e, st, b, out, stride, size).addk(e, out, out, 1).jump(V::Blk(merge)).place(
            merged,
        )
    }

    /// The passes of the sort, each over runs twice as wide as the last.
    pub open spec fn sort_passes(self, e: Env, x: Block, c: Thk) -> Sel {
        let n = e.word(LOOP_WORD as int);
        let dst = e.word(LOOP_WORD + 1);
        let scratch = e.word(LOOP_WORD + 2);
        let w = e.word(LOOP_WORD + 3);
        let a = e.word(LOOP_WORD + 4);
        let b = e.word(LOOP_WORD + 5);
        let span = e.word(LOOP_WORD + 6);
        let lo = e.word(LOOP_WORD + 7);
        let mid = e.word(LOOP_WORD + 8);
        let hi = e.word(LOOP_WORD + 9);
        let one = e.word(LOOP_WORD + 14);
        let s = self.imm_to(w, 1).mv(a, dst, 8).mv(b, scratch, 8);
        let wide = s.next();
        let sorted = s.fresh().next();
        let s = s.fresh().fresh().place(wide).br_lt(
            e,
            w,
            n,
            V::Fall,
            V::Blk(sorted),
            H::T,
        ).dab("bin/add/u64/ff/f"@, span, w, w).imm_to(lo, 0);
        let runs = s.next();
        let swap = s.fresh().next();
        s.fresh().fresh().place(runs).br_lt(e, lo, n, V::Fall, V::Blk(swap), H::T).dab(
            "bin/add/u64/ff/f"@,
            mid,
            lo,
            w,
        ).clamp(e, mid, n).dab("bin/add/u64/ff/f"@, hi, lo, span).clamp(e, hi, n).sort_merge(
            e,
            x,
            c,
        ).dab("bin/add/u64/ff/f"@, lo, lo, span).jump(V::Blk(runs)).place(swap).mv(
            one,
            a,
            8,
        ).mv(a, b, 8).mv(b, one, 8).mv(w, span, 8).jump(V::Blk(wide)).place(sorted)
    }

    /// The elements back into the result, where the last pass left them in the
    /// scratch, and the scratch freed without being walked.
    pub open spec fn sort_home(self, e: Env, x: Block) -> Sel {
        let n = e.word(LOOP_WORD as int);
        let dst = e.word(LOOP_WORD + 1);
        let scratch = e.word(LOOP_WORD + 2);
        let a = e.word(LOOP_WORD + 4);
        let i = e.word(LOOP_WORD + 13);
        let st = e.word(STAGE_WORD as int);
        let stride = x.stride as u64;
        let size = x.size as u64;
        let home = self.next();
        let s = self.fresh().test_b(
            e.arm("brcmp/eq/u64/ff"@, H::T),
            a,
            dst,
            V::Blk(home),
            V::Fall,
        ).imm_to(i, 0);
        let back = s.next();
        s.fresh().place(back).br_lt(e, i, n, V::Fall, V::Blk(home), H::T).elem_load(
            e,
            st,
            a,
            i,
            stride,
            size,
        ).elem_store(e, st, dst, i, stride, size).addk(e, i, i, 1).jump(V::Blk(back)).place(
            home,
        ).rc_block(scratch, false, None)
    }

    /// A stable bottom-up merge sort over two blocks.
    pub open spec fn list_sort(self, e: Env, x: Block, c: Thk, dest: u64) -> Sel {
        let xs = x.at as u64;
        let n = e.word(LOOP_WORD as int);
        let s = self.mv(n, (xs + 8) as u64, 8).new_block(
            e.word(LOOP_WORD + 1),
            dest,
            n,
            x.stride as u64,
        ).new_elems(e.word(LOOP_WORD + 2), n, x.stride as u64);
        if x.size > STAGE_ROOM {
            s.unsupported(too_wide(x.size as u64))
        } else {
            s.sort_copy(e, x).sort_passes(e, x, c).sort_home(e, x)
        }
    }

    /// Whether two lists are equal, element by element.
    pub open spec fn derive_array_eq(self, e: Env, x: Block, y: u32, c: Thk, d: u64) -> Sel {
        let xs = x.at as u64;
        let ys = y as u64;
        let i = e.word(LOOP_WORD as int);
        let end = self.next();
        let head = self.fresh().next();
        let done = self.fresh().fresh().next();
        let s = self.fresh().fresh().fresh().imm_to(d, 0);
        let same_len = s.next();
        let s = s.fresh().test_b(
            e.arm("brcmp/eq/u64/ff"@, H::T),
            (xs + 8) as u64,
            (ys + 8) as u64,
            V::Blk(same_len),
            V::Fall,
        ).jump(V::Blk(end)).place(same_len).imm_to(d, 1).imm_to(i, 0).place(head).br_lt(
            e,
            i,
            (xs + 8) as u64,
            V::Fall,
            V::Blk(done),
            H::T,
        ).elem_load(e, c.params[0], xs, i, x.stride as u64, x.size as u64).elem_load(
            e,
            c.params[1],
            ys,
            i,
            x.stride as u64,
            x.size as u64,
        ).retain_counted(e, x.elem, c.params[0]).retain_counted(e, x.elem, c.params[1]).thunk_call(
            c,
        );
        let cont = s.next();
        s.fresh().test(e.arm("br/f"@, H::T), c.ret, V::Blk(cont), V::Fall).imm_to(d, 0).jump(
            V::Blk(end),
        ).place(cont).addk(e, i, i, 1).jump(V::Blk(head)).place(done).place(end)
    }

    /// A list rendered: each element by its own function, and the pieces joined
    /// by the runtime and released.
    pub open spec fn derive_array_show(
        self,
        e: Env,
        x: Block,
        c: Thk,
        text: usize,
        dest: u64,
    ) -> Sel {
        let xs = x.at as u64;
        let stride = e.stride(text) as u64;
        let size = e.elem_size(text) as u64;
        let n = e.word(LOOP_WORD as int);
        let ptr = e.word(LOOP_WORD + 1);
        let i = e.word(LOOP_WORD + 2);
        let s = self.mv(n, (xs + 8) as u64, 8).new_elems(ptr, n, stride).imm_to(i, 0);
        let head = s.next();
        let done = s.fresh().next();
        let s = s.fresh().fresh().place(head).br_lt(
            e,
            i,
            n,
            V::Fall,
            V::Blk(done),
            H::T,
        ).elem_load(e, c.params[0], xs, i, x.stride as u64, x.size as u64).retain_counted(
            e,
            x.elem,
            c.params[0],
        ).thunk_call(c).elem_store(e, c.ret, ptr, i, stride, size).addk(e, i, i, 1).jump(
            V::Blk(head),
        ).place(done).c_call(
            "buri_rt_show_list"@,
            seq![Src::Word(ptr), Src::Word(n), Src::Addr(dest)],
            Seq::empty(),
            dest,
            Ret::Void,
        );
        if size > STAGE_ROOM {
            s.unsupported(too_wide(size))
        } else {
            let st = e.word(STAGE_WORD as int);
            let s = s.imm_to(i, 0);
            let freeing = s.next();
            let freed = s.fresh().next();
            s.fresh().fresh().place(freeing).br_lt(
                e,
                i,
                n,
                V::Fall,
                V::Blk(freed),
                H::T,
            ).elem_load(e, st, ptr, i, stride, size).walk(e, text, st, false).addk(
                e,
                i,
                i,
                1,
            ).jump(V::Blk(freeing)).place(freed).rc_block(ptr, false, None)
        }
    }

    /// A list operation whose answer is not one carried value, and whether the
    /// key and the operands are of one.
    #[verifier::opaque]
    pub open spec fn list_extra(
        self,
        e: Env,
        key: Seq<char>,
        args: Seq<(u32, Type)>,
        dest: (u32, Type),
    ) -> (Sel, bool) {
        if e.sw.no_loops {
            (self, false)
        } else if key == "list.find"@ {
            self.extra_find(e, args, dest, false)
        } else if key == "list.findIndex"@ {
            self.extra_find(e, args, dest, true)
        } else if key == "list.sortBy"@ {
            if args.len() > 2 {
                match (e.block(args[0].0, args[0].1), e.thunked(args[2].0, args[2].1, 2)) {
                    (Some(x), Some(c)) => (self.list_sort(e, x, c, dest.0 as u64), true),
                    _ => (self, false),
                }
            } else {
                (self, false)
            }
        } else if key == "list.foldResult"@ {
            if args.len() > 2 {
                self.extra_fold(e, args, dest, None, args[1], args[2])
            } else {
                (self, false)
            }
        } else if key == "list.foldResultCtx"@ {
            if args.len() > 3 {
                self.extra_fold(e, args, dest, Some(args[1]), args[2], args[3])
            } else {
                (self, false)
            }
        } else if key == "list.zip"@ {
            if args.len() > 2 {
                match (
                    e.block(args[0].0, args[0].1),
                    e.block(args[2].0, args[2].1),
                    e.element(dest.1),
                ) {
                    (Some(a), Some(b), Some(out)) => (
                        self.list_zip(e, a, b, out, dest.0 as u64),
                        true,
                    ),
                    _ => (self, false),
                }
            } else {
                (self, false)
            }
        } else if key == "list.flatten"@ {
            if args.len() > 0 {
                match (e.block(args[0].0, args[0].1), e.element(dest.1)) {
                    (Some(x), Some(out)) => (self.list_flatten(e, x, out, dest.0 as u64), true),
                    _ => (self, false),
                }
            } else {
                (self, false)
            }
        } else if key == "deriveArrayEq"@ {
            if args.len() > 2 {
                match (e.block(args[0].0, args[0].1), e.thunked(args[2].0, args[2].1, 2)) {
                    (Some(x), Some(c)) => (
                        self.derive_array_eq(e, x, args[1].0, c, dest.0 as u64),
                        true,
                    ),
                    _ => (self, false),
                }
            } else {
                (self, false)
            }
        } else if key == "deriveArrayShow"@ {
            if args.len() > 1 {
                match (e.block(args[0].0, args[0].1), e.thunked(args[1].0, args[1].1, 1), dest.1) {
                    (Some(x), Some(c), Type::Agg(text)) => (
                        self.derive_array_show(e, x, c, text, dest.0 as u64),
                        true,
                    ),
                    _ => (self, false),
                }
            } else {
                (self, false)
            }
        } else {
            (self, false)
        }
    }

    /// A search, where the operands are of one.
    pub open spec fn extra_find(
        self,
        e: Env,
        args: Seq<(u32, Type)>,
        dest: (u32, Type),
        index: bool,
    ) -> (Sel, bool) {
        if args.len() > 1 {
            match (e.block(args[0].0, args[0].1), e.thunked(args[1].0, args[1].1, 1), dest.1) {
                (Some(x), Some(c), Type::Agg(id)) => (
                    self.list_find(e, x, c, e.layout(id), dest.0 as u64, index),
                    true,
                ),
                _ => (self, false),
            }
        } else {
            (self, false)
        }
    }

    /// A fold that can stop, where the operands are of one.
    pub open spec fn extra_fold(
        self,
        e: Env,
        args: Seq<(u32, Type)>,
        dest: (u32, Type),
        ctx: Option<(u32, Type)>,
        f: (u32, Type),
        init: (u32, Type),
    ) -> (Sel, bool) {
        match (
            e.block(args[0].0, args[0].1),
            e.thunked(
                f.0,
                f.1,
                if ctx is Some {
                    3
                } else {
                    2
                },
            ),
            dest.1,
        ) {
            (Some(x), Some(c), Type::Agg(id)) => (
                self.list_fold_result(
                    e,
                    x,
                    c,
                    e.layout(id),
                    dest.0 as u64,
                    dest.1,
                    ctx,
                    init,
                ),
                true,
            ),
            _ => (self, false),
        }
    }
}

/// The first variant of an order.
pub const LESS: u64 = 0;

/// The second variant of an order.
pub const EQUAL: u64 = 1;

/// The third variant of an order.
pub const GREATER: u64 = 2;

/// Which parameter of a step is the element.
pub open spec fn elem_param(kind: Step, o: LoopOps) -> int {
    (if o.ctx is Some {
        1int
    } else {
        0
    }) + (if kind == Step::Fold {
        1int
    } else {
        0
    })
}

impl<'a> Emit<'a> {
    /// The source type of a value, where it owns a counted block.
    pub fn counted_of(&self, t: Type) -> (r: Option<usize>)
        ensures
            r == self.env().counted_ty(t),
    {
        match t {
            Type::Agg(id) => if self.rc_counted(id) {
                Some(id)
            } else {
                None
            },
            _ => None,
        }
    }

    /// The element type of a list value.
    pub fn element_of(&self, t: Type) -> (r: Option<usize>)
        ensures
            r == self.env().element(t),
    {
        match t {
            Type::Agg(id) => self.prog.tables.info(id).element_of(),
            _ => None,
        }
    }

    /// The distance between two elements of a type.
    pub fn elem_stride(&self, ty: usize) -> (r: u32)
        ensures
            r == self.env().stride(ty),
    {
        max_of(self.layout(ty).stride, 1)
    }

    /// The width of an element of a type.
    pub fn elem_size(&self, ty: usize) -> (r: u32)
        ensures
            r == self.env().elem_size(ty),
    {
        max_of(self.layout(ty).size, 1)
    }

    /// The list operand at an offset.
    fn block_at(&self, at: u32, t: Type) -> (r: Option<Block>)
        ensures
            r == self.env().block(at, t),
    {
        match self.element_of(t) {
            Some(elem) => Some(
                Block { at, elem, stride: self.elem_stride(elem), size: self.elem_size(elem) },
            ),
            None => None,
        }
    }

    /// Whether a function can be called by name with counts it owns.
    fn lends_to(&self, g: &Func) -> (r: bool)
        ensures
            r == lends(self.env(), g.params@, g.owned@, 0),
    {
        let mut i: usize = 0;
        while i < g.params.len() && i < g.owned.len()
            invariant
                i <= g.params.len(),
                lends(self.env(), g.params@, g.owned@, 0) == lends(
                    self.env(),
                    g.params@,
                    g.owned@,
                    i as int,
                ),
            decreases g.params.len() - i,
        {
            if g.owned[i] == Ownership::Borrow && self.counted_of(g.params[i]).is_some() {
                return false;
            }
            i = i + 1;
        }
        true
    }

    /// The frame of the step that value `f` is, where `f` was made here and
    /// takes `want` values.
    fn step_shape(&self, f: usize, want: usize) -> (r: Option<StepShape>)
        requires
            want <= 3,
        ensures
            match r {
                Some(s) => self.env().step_shape(f, want as nat) == Some(s@) && s.small()
                    && s.params.len() == want,
                None => self.env().step_shape(f, want as nat) is None,
            },
    {
        let func: usize = match ent(&self.st.closure_of, f, None) {
            Some(g) => g,
            None => {
                return None;
            },
        };
        if func >= self.prog.funcs.len() {
            return None;
        }
        let prog: &'a Program = self.prog;
        let g: &'a Func = &prog.funcs[func];
        let fs: FrameSig = self.frame_sig_of(func);
        if fs.params.len() != want + 1 || fs.ret.len() > 1 || g.params.len() == 0 {
            return None;
        }
        let env_w: u64 = self.width_of(g.params[0]) as u64;
        let mut params: Vec<u64> = Vec::new();
        let mut i: usize = 1;
        while i < fs.params.len()
            invariant
                1 <= i <= fs.params.len(),
                params.len() == i - 1,
                forall|j: int| 0 <= j < params.len() ==> params[j] == fs.params[j + 1] as u64,
            decreases fs.params.len() - i,
        {
            params.push(fs.params[i] as u64);
            i = i + 1;
        }
        assert(params@ =~= rest(fs.params@));
        let direct: bool = g.owned.len() == g.params.len() && self.lends_to(g) && env_w == 0;
        Some(
            StepShape {
                func,
                ret: ent(&fs.ret, 0, 0) as u64,
                env: fs.params[0] as u64,
                params,
                direct,
                env_w,
            },
        )
    }

    /// The frame of the thunk of a closure type that takes `want` values.
    fn step_shape_ty(&self, fty: Type, want: usize) -> (r: Option<StepShape>)
        requires
            want <= 3,
        ensures
            match r {
                Some(s) => self.env().step_shape_ty(fty, want as nat) == Some(s@) && s.small()
                    && s.params.len() == want && s.ret == 0,
                None => self.env().step_shape_ty(fty, want as nat) is None,
            },
    {
        let id: usize = match fty {
            Type::Agg(id) => id,
            _ => {
                return None;
            },
        };
        let prog: &'a Program = self.prog;
        let info: &'a TypeInfo = prog.tables.info(id);
        match &info.shape {
            Shape::Fn { params, ret } => {
                if params.len() != want {
                    return None;
                }
                let r: u64 = slot_of_width(self.layout(*ret).size);
                let mut at: u64 = r + 8;
                let mut out: Vec<u64> = Vec::new();
                let ghost all = param_offsets(self.env(), params@, r + 8, 0);
                let mut i: usize = 0;
                while i < params.len()
                    invariant
                        i <= params.len(),
                        params.len() <= 3,
                        out.len() == i,
                        at <= 0x1_0000_0008 + i * 0x1_0000_0000,
                        all == out@ + param_offsets(self.env(), params@, at as int, i as int),
                        forall|j: int| 0 <= j < out.len() ==> out[j] <= 0x10_0000_0000,
                    decreases params.len() - i,
                {
                    let ghost before = out@;
                    out.push(at);
                    let next: u64 = at + slot_of_width(self.layout(params[i]).size);
                    assert(all =~= out@ + param_offsets(
                        self.env(),
                        params@,
                        next as int,
                        i as int + 1,
                    ));
                    at = next;
                    i = i + 1;
                }
                assert(all =~= out@);
                Some(StepShape { func: 0, ret: 0, env: r, params: out, direct: false, env_w: 8 })
            },
            _ => None,
        }
    }

    /// The same, with its offsets in this frame.
    fn thunked(&self, fslot: u32, fty: Type, want: usize) -> (r: Option<Thunked>)
        requires
            want <= 3,
        ensures
            match r {
                Some(c) => self.env().thunked(fslot, fty, want as nat) == Some(c@) && c.small()
                    && c.params.len() == want,
                None => self.env().thunked(fslot, fty, want as nat) is None,
            },
    {
        let shape: StepShape = match self.step_shape_ty(fty, want) {
            Some(s) => s,
            None => {
                return None;
            },
        };
        let ret_ty: usize = match fty {
            Type::Agg(id) => match &self.prog.tables.info(id).shape {
                Shape::Fn { params, ret } => *ret,
                _ => 0,
            },
            _ => 0,
        };
        let base: u64 = self.st.frame.size as u64;
        let mut params: Vec<u64> = Vec::new();
        let mut i: usize = 0;
        while i < shape.params.len()
            invariant
                i <= shape.params.len(),
                params.len() == i,
                base <= 0xffff_ffff,
                shape.small(),
                forall|j: int| 0 <= j < i ==> params[j] == base + shape.params[j],
            decreases shape.params.len() - i,
        {
            params.push(base + shape.params[i]);
            i = i + 1;
        }
        let c: Thunked = Thunked {
            base,
            env: base + shape.env,
            ret: base + shape.ret,
            params,
            fslot,
            ret_ty,
        };
        proof {
            let want_params = Seq::new(
                shape@.params.len(),
                |i: int| (base + shape@.params[i]) as u64,
            );
            assert(c.params@ =~= want_params);
        }
        Some(c)
    }

    /// What a list loop needs of the types in it.
    fn loop_ops(
        &self,
        kind: Step,
        xs_ty: Type,
        dest_ty: Type,
        xs: u32,
        fslot: u32,
        dest: u32,
        ctx: Option<(u32, u64, Option<usize>)>,
        init: Option<u32>,
    ) -> (r: Option<LoopOps>)
        ensures
            r == self.env().loop_ops(kind, xs_ty, dest_ty, xs, fslot, dest, ctx, init),
    {
        let elem: usize = match self.element_of(xs_ty) {
            Some(t) => t,
            None => {
                return None;
            },
        };
        let si: u32 = self.elem_stride(elem);
        let elem_w: u32 = self.elem_size(elem);
        let (out_stride, out_w): (u32, u32) = match kind {
            Step::MapEach => match self.element_of(dest_ty) {
                Some(oe) => (self.elem_stride(oe), self.elem_size(oe)),
                None => {
                    return None;
                },
            },
            Step::Filter => (si, elem_w),
            _ => (0, 0),
        };
        if kind == Step::Fold && init.is_none() {
            return None;
        }
        Some(
            LoopOps {
                xs,
                fslot,
                dest,
                ctx,
                init,
                acc_w: self.slot_bytes_of(dest_ty),
                acc_counted: self.counted_of(dest_ty),
                si,
                elem_w,
                elem_counted: if self.rc_counted(elem) {
                    Some(elem)
                } else {
                    None
                },
                out_stride,
                out_w,
            },
        )
    }

    /// An indexed copy.
    fn elem_op(&mut self, key: &str, d: u64, a: u64, b: u64, p: u64)
        ensures
            final(self)@ == old(self)@.elem_op(key@, d, a, b, p),
            final(self).env() == old(self).env(),
    {
        self.emit(
            key,
            vec![
                (H::D, V::I(d)),
                (H::A, V::I(a)),
                (H::B, V::I(b)),
                (H::P, V::I(p)),
                (H::Cont, V::Fall),
            ],
        );
    }

    /// An indexed copy of any width.
    fn elem_copy(&mut self, stem: &str, d: u64, base: u64, i: u64, stride: u64, bytes: u64)
        ensures
            final(self)@ == old(self)@.elem_copy(
                old(self).env(),
                stem@,
                d,
                base,
                i,
                stride,
                bytes,
            ),
            final(self).env() == old(self).env(),
    {
        let digits: String = decimal_of(bytes);
        let plain: String = join2(stem, digits.as_str());
        let baked: String = join3(stem, digits.as_str(), "/s");
        let key: String = if stride == bytes && !self.sw.no_stride && self.has(baked.as_str()) {
            baked
        } else {
            plain
        };
        if self.has(key.as_str()) {
            self.elem_op(key.as_str(), d, base, i, stride);
        } else {
            let any: String = join2(stem, "n");
            self.emit(
                any.as_str(),
                vec![
                    (H::D, V::I(d)),
                    (H::A, V::I(base)),
                    (H::B, V::I(i)),
                    (H::P, V::I(stride)),
                    (H::N, V::I(bytes)),
                    (H::Cont, V::Fall),
                ],
            );
        }
    }

    /// Element `i` of the block at `base` into the frame.
    pub fn elem_load(&mut self, d: u64, base: u64, i: u64, stride: u64, bytes: u64)
        ensures
            final(self)@ == old(self)@.elem_load(old(self).env(), d, base, i, stride, bytes),
            final(self).env() == old(self).env(),
    {
        if bytes < 8 {
            let digits: String = decimal_of(bytes);
            let zk: String = if stride == bytes && !self.sw.no_stride {
                join3("eloadz/", digits.as_str(), "/s")
            } else {
                join2("eloadz/", digits.as_str())
            };
            if self.has(zk.as_str()) {
                self.elem_op(zk.as_str(), d, base, i, stride);
                return;
            }
            self.imm_to(d, 0);
        }
        self.elem_copy("eload/", d, base, i, stride, bytes);
    }

    /// A value of the frame into element `i` of the block at `base`.
    pub fn elem_store(&mut self, s: u64, base: u64, i: u64, stride: u64, bytes: u64)
        ensures
            final(self)@ == old(self)@.elem_store(old(self).env(), s, base, i, stride, bytes),
            final(self).env() == old(self).env(),
    {
        self.elem_copy("estore/", s, base, i, stride, bytes);
    }

    /// A word and a literal added.
    pub fn add_imm(&mut self, d: u64, a: u64, k: u64, scratch: u64)
        ensures
            final(self)@ == old(self)@.add_imm(old(self).env(), d, a, k, scratch),
            final(self).env() == old(self).env(),
    {
        if self.has("bin/add/u64/fi/f") {
            self.dak("bin/add/u64/fi/f", d, a, k);
        } else {
            self.imm_to(scratch, k);
            self.dab("bin/add/u64/ff/f", d, a, scratch);
        }
    }

    fn addk(&mut self, d: u64, a: u64, k: u64)
        ensures
            final(self)@ == old(self)@.addk(old(self).env(), d, a, k),
            final(self).env() == old(self).env(),
    {
        let scratch: u64 = self.word(LOOP_WORD + 23);
        self.add_imm(d, a, k, scratch);
    }

    /// A branch on whether one word is below another, as unsigned numbers.
    pub fn br_lt(&mut self, a: u64, b: u64, tv: V, fv: V, fall: H)
        ensures
            final(self)@ == old(self)@.br_lt(old(self).env(), a, b, tv, fv, fall),
            final(self).env() == old(self).env(),
    {
        if self.has("brcmp/lt/u64/ff") {
            let key: String = self.arm_key("brcmp/lt/u64/ff", fall);
            self.test_b(key.as_str(), a, b, tv, fv);
        } else {
            let below: u64 = self.word(12);
            self.dab("bin/lt/u64/ff/f", below, a, b);
            self.test("br/f", below, tv, fv);
        }
    }

    /// The discriminant of variant `v`, leaving any payload alone.
    pub fn store_disc(&mut self, l: &Layout, at: u64, v: usize)
        requires
            at <= 0x100_0000_0000,
        ensures
            final(self)@ == old(self)@.store_disc(*l, at, v as int),
            final(self).env() == old(self).env(),
    {
        match l.enum_repr() {
            Some(EnumRepr::Bare { tag }) => self.imm_w(at, tag as u64, v as u64),
            Some(EnumRepr::Tagged { tag }) => self.imm_w(at, tag as u64, v as u64),
            Some(EnumRepr::Niche { null_at }) => {
                if v < l.variant_count() && l.arity_of(v) == 0 {
                    self.imm_to(at + null_at as u64, 0);
                }
            },
            None => {},
        }
    }

    /// The variant a niche stands for.
    pub fn niche_tag(&mut self, d: u64, at: u64, null: u64)
        ensures
            final(self)@ == old(self)@.niche_tag(d, at, null),
            final(self).env() == old(self).env(),
    {
        let other: u64 = if null == 0 {
            1
        } else {
            0
        };
        self.emit(
            "niche_tag",
            vec![
                (H::D, V::I(d)),
                (H::A, V::I(at)),
                (H::N, V::I(null)),
                (H::P, V::I(other)),
                (H::Cont, V::Fall),
            ],
        );
    }

    /// The discriminant of the enum at `at` as a word.
    pub fn load_disc(&mut self, l: &Layout, at: u64, d: u64)
        requires
            at <= 0x100_0000_0000,
            d <= 0x100_0000_0000,
        ensures
            final(self)@ == old(self)@.load_disc(*l, at, d),
            final(self).env() == old(self).env(),
    {
        match l.enum_repr() {
            Some(EnumRepr::Bare { tag }) => self.load_w(d, at, tag as u64),
            Some(EnumRepr::Tagged { tag }) => self.load_w(d, at, tag as u64),
            Some(EnumRepr::Niche { null_at }) => {
                let null: u64 = l.null_variant() as u64;
                self.niche_tag(d, at + null_at as u64, null);
            },
            None => self.imm_to(d, 0),
        }
    }

    /// The loop a call of a list operation becomes.
    fn loop_of_call(
        &self,
        code: &Code,
        dests: &Vec<usize>,
        key: &str,
        args: &Vec<usize>,
    ) -> (r: Option<LoopPlan>)
        ensures
            match r {
                Some(p) => self.env().loop_of_call(*code, dests@, key@, args@) == Some(p.model()) && p.fits(),
                None => self.env().loop_of_call(*code, dests@, key@, args@) is None,
            },
    {
        reveal(Env::loop_of_call);
        let c: ListCall = match list_call(key) {
            Some(c) => c,
            None => {
                return None;
            },
        };
        if self.sw.no_loops || c.func >= args.len() || dests.len() == 0 {
            return None;
        }
        let f: usize = args[c.func];
        let ctx: Option<(u32, u64, Option<usize>)> = match c.ctx {
            Some(i) => {
                if i >= args.len() {
                    return None;
                }
                let v: usize = args[i];
                let t: Type = code.ty_of(v);
                Some((self.st.at(v), self.slot_bytes_of(t), self.counted_of(t)))
            },
            None => None,
        };
        let init: Option<u32> = match c.init {
            Some(i) => {
                if i >= args.len() {
                    return None;
                }
                Some(self.st.at(args[i]))
            },
            None => None,
        };
        let want: usize = c.wanted();
        let made: StepShape = match self.step_shape(f, want) {
            Some(s) => s,
            None => {
                return None;
            },
        };
        let shape: StepShape = if made.direct {
            made
        } else {
            match self.step_shape_ty(code.ty_of(f), want) {
                Some(s) => s,
                None => {
                    return None;
                },
            }
        };
        match self.loop_ops(
            c.kind,
            code.ty_of(args[0]),
            code.ty_of(dests[0]),
            self.st.at(args[0]),
            self.st.at(f),
            self.st.at(dests[0]),
            ctx,
            init,
        ) {
            Some(ops) => Some(LoopPlan { kind: c.kind, ops, shape }),
            None => None,
        }
    }

    /// The loop the body of a runtime function becomes.
    fn loop_of_body(&self, fi: usize, key: &str) -> (r: Option<LoopPlan>)
        ensures
            match r {
                Some(p) => self.env().loop_of_body(fi, key@) == Some(p.model()) && p.fits(),
                None => self.env().loop_of_body(fi, key@) is None,
            },
    {
        reveal(Env::loop_of_body);
        let c: ListCall = match list_call(key) {
            Some(c) => c,
            None => {
                return None;
            },
        };
        if self.sw.no_loops || fi >= self.prog.funcs.len() {
            return None;
        }
        let prog: &'a Program = self.prog;
        let f: &'a Func = &prog.funcs[fi];
        let at: &Vec<u32> = &self.st.frame.params;
        if f.rets.len() == 0 || f.params.len() == 0 || at.len() == 0 || self.st.frame.ret.len()
            == 0 {
            return None;
        }
        if c.func >= at.len() || c.func >= f.params.len() {
            return None;
        }
        let ctx: Option<(u32, u64, Option<usize>)> = match c.ctx {
            Some(i) => {
                if i >= at.len() || i >= f.params.len() {
                    return None;
                }
                let t: Type = f.params[i];
                Some((at[i], self.slot_bytes_of(t), self.counted_of(t)))
            },
            None => None,
        };
        let init: Option<u32> = match c.init {
            Some(i) => {
                if i >= at.len() {
                    return None;
                }
                Some(at[i])
            },
            None => None,
        };
        let shape: StepShape = match self.step_shape_ty(f.params[c.func], c.wanted()) {
            Some(s) => s,
            None => {
                return None;
            },
        };
        match self.loop_ops(
            c.kind,
            f.params[0],
            f.rets[0],
            at[0],
            at[c.func],
            self.st.frame.ret[0],
            ctx,
            init,
        ) {
            Some(ops) => Some(LoopPlan { kind: c.kind, ops, shape }),
            None => None,
        }
    }

    fn loop_start(&mut self, kind: Step, o: &LoopOps)
        requires
            o.acc_w <= 0x1_0000_0000,
        ensures
            final(self)@ == old(self)@.loop_start(old(self).env(), kind, *o),
            final(self).env() == old(self).env(),
    {
        let d: u64 = o.dest as u64;
        let w9: u64 = self.word(9);
        let w11: u64 = self.word(11);
        let w12: u64 = self.word(12);
        match kind {
            Step::MapEach => {
                self.mv(d, w11, 8);
                self.mv(d + 8, w9, 8);
            },
            Step::Filter => self.imm_to(w12, 0),
            Step::Fold => {
                let init: u64 = match o.init {
                    Some(i) => i as u64,
                    None => d,
                };
                self.mv(d, init, o.acc_w);
                match o.acc_counted {
                    Some(t) => self.retain_value(t, d),
                    None => {},
                }
            },
            Step::Any => self.imm_to(d, 0),
            Step::Count => self.imm_to(d, 0),
            Step::All => self.imm_to(d, 1),
        }
    }

    fn loop_args(&mut self, p: &LoopPlan)
        requires
            p.fits(),
        ensures
            final(self)@ == old(self)@.loop_args(old(self).env(), p.kind, p.ops, p.shape@),
            final(self).env() == old(self).env(),
    {
        let o: &LoopOps = &p.ops;
        let sh: &StepShape = &p.shape;
        let base: u64 = self.st.frame.size as u64;
        if sh.env_w > 0 || self.sw.copy_env {
            self.mv(base + sh.env, o.fslot as u64 + 8, 8);
        }
        let mut k: usize = 0;
        match o.ctx {
            Some(c) => {
                let to: u64 = base + sh.params[0];
                self.mv(to, c.0 as u64, c.1);
                match c.2 {
                    Some(t) => self.retain_value(t, to),
                    None => {},
                }
                k = 1;
            },
            None => {},
        }
        if p.kind == Step::Fold {
            self.mv(base + sh.params[k], o.dest as u64, o.acc_w);
            k = k + 1;
        }
        let to: u64 = base + sh.params[k];
        let w8: u64 = self.word(8);
        let w10: u64 = self.word(10);
        self.elem_load(to, w10, w8, o.si as u64, o.elem_w as u64);
        match o.elem_counted {
            Some(t) => self.retain_value(t, to),
            None => {},
        }
    }

    fn loop_answer(&mut self, p: &LoopPlan)
        requires
            p.fits(),
        ensures
            final(self)@ == old(self)@.loop_answer(old(self).env(), p.kind, p.ops, p.shape@),
            final(self).env() == old(self).env(),
    {
        let o: &LoopOps = &p.ops;
        let sh: &StepShape = &p.shape;
        let base: u64 = self.st.frame.size as u64;
        let answer: u64 = base + sh.ret;
        let d: u64 = o.dest as u64;
        let w8: u64 = self.word(8);
        let w10: u64 = self.word(10);
        let w11: u64 = self.word(11);
        let w12: u64 = self.word(12);
        match p.kind {
            Step::MapEach => self.elem_store(
                answer,
                w11,
                w8,
                o.out_stride as u64,
                o.out_w as u64,
            ),
            Step::Filter => {
                let k: usize = if o.ctx.is_some() {
                    1
                } else {
                    0
                };
                let to: u64 = base + sh.params[k];
                let skip: usize = self.label();
                let key: String = self.arm_key("br/f", H::T);
                self.test(key.as_str(), answer, V::Fall, V::Blk(skip));
                self.elem_load(to, w10, w8, o.si as u64, o.elem_w as u64);
                self.elem_store(to, w11, w12, o.out_stride as u64, o.out_w as u64);
                match o.elem_counted {
                    Some(t) => self.retain_value(t, to),
                    None => {},
                }
                self.add_imm(w12, w12, 1, base + sh.env);
                self.place(skip);
            },
            Step::Fold => self.mv(d, answer, o.acc_w),
            Step::Count => self.dab("bin/add/u64/ff/f", d, d, answer),
            Step::Any => {
                let exit: usize = self.label();
                let key: String = self.arm_key("br/f", H::F);
                self.test(key.as_str(), answer, V::Blk(exit), V::Fall);
            },
            Step::All => {
                let exit: usize = self.label();
                let key: String = self.arm_key("br/f", H::T);
                self.test(key.as_str(), answer, V::Fall, V::Blk(exit));
            },
        }
    }

    fn loop_next(&mut self, body: usize, env: u64)
        ensures
            final(self)@ == old(self)@.loop_next(old(self).env(), body, env),
            final(self).env() == old(self).env(),
    {
        let w8: u64 = self.word(8);
        let w9: u64 = self.word(9);
        if self.has("incbr/lt") && !self.sw.no_fused {
            let key: String = self.arm_key("incbr/lt", H::F);
            self.emit(
                key.as_str(),
                vec![
                    (H::D, V::I(w8)),
                    (H::A, V::I(w8)),
                    (H::N, V::I(1)),
                    (H::B, V::I(w9)),
                    (H::T, V::Blk(body)),
                    (H::F, V::Fall),
                ],
            );
        } else {
            self.add_imm(w8, w8, 1, env);
            self.br_lt(w8, w9, V::Blk(body), V::Fall, H::F);
        }
    }

    fn loop_open(&mut self, p: &LoopPlan)
        requires
            p.fits(),
        ensures
            final(self)@ == old(self)@.loop_open(old(self).env(), p.model()),
            final(self).env() == old(self).env(),
    {
        let o: &LoopOps = &p.ops;
        let w8: u64 = self.word(8);
        let w9: u64 = self.word(9);
        let w10: u64 = self.word(10);
        let w11: u64 = self.word(11);
        self.mv(w10, o.xs as u64, 8);
        self.mv(w9, o.xs as u64 + 8, 8);
        if p.kind == Step::MapEach || p.kind == Step::Filter {
            self.new_elems(w11, w9, o.out_stride as u64);
        }
        self.loop_start(p.kind, o);
        self.imm_to(w8, 0);
    }

    fn loop_step(&mut self, p: &LoopPlan)
        requires
            p.fits(),
        ensures
            final(self)@ == old(self)@.loop_step(old(self).env(), p.model()),
            final(self).env() == old(self).env(),
    {
        let base: u64 = self.st.frame.size as u64;
        self.loop_args(p);
        if p.shape.direct {
            self.call_fn(base, p.shape.func);
        } else {
            self.call_ptr(p.ops.fslot as u64, base);
        }
    }

    fn loop_close(&mut self, p: &LoopPlan, done: usize, exit: usize)
        ensures
            final(self)@ == old(self)@.loop_close(old(self).env(), p.model(), done, exit),
            final(self).env() == old(self).env(),
    {
        let d: u64 = p.ops.dest as u64;
        let w11: u64 = self.word(11);
        let w12: u64 = self.word(12);
        if p.kind == Step::Any || p.kind == Step::All {
            self.jump(V::Blk(done));
            self.place(exit);
            self.imm_to(
                d,
                if p.kind == Step::Any {
                    1
                } else {
                    0
                },
            );
        }
        self.place(done);
        if p.kind == Step::Filter {
            self.mv(d, w11, 8);
            self.mv(d + 8, w12, 8);
        }
        self.loops.push(p.shape.direct);
    }

    /// A list operation as a loop.
    pub fn emit_list_loop(&mut self, p: &LoopPlan)
        requires
            p.fits(),
        ensures
            final(self)@ == old(self)@.list_loop(old(self).env(), p.model()),
            final(self).env() == old(self).env(),
    {
        reveal(Sel::list_loop);
        let base: u64 = self.st.frame.size as u64;
        let w8: u64 = self.word(8);
        let w9: u64 = self.word(9);
        self.loop_open(p);
        let body: usize = self.label();
        let done: usize = self.label();
        self.br_lt(w8, w9, V::Fall, V::Blk(done), H::T);
        self.place(body);
        self.loop_step(p);
        let exit: usize = self.st.blk.len();
        self.loop_answer(p);
        self.loop_next(body, base + p.shape.env);
        self.loop_close(p, done, exit);
    }

    /// A call of a list operation, where it can be open-coded. Answers whether
    /// it was.
    pub fn list_loop(&mut self, code: &Code, dests: &Vec<usize>, key: &str, args: &Vec<usize>) -> (r:
        bool)
        ensures
            r == (old(self).env().loop_of_call(*code, dests@, key@, args@) is Some),
            final(self)@ == match old(self).env().loop_of_call(*code, dests@, key@, args@) {
                Some(p) => old(self)@.list_loop(old(self).env(), p),
                None => old(self)@,
            },
            final(self).env() == old(self).env(),
    {
        match self.loop_of_call(code, dests, key, args) {
            Some(p) => {
                self.emit_list_loop(&p);
                true
            },
            None => false,
        }
    }

    /// The body of a runtime function that is a list operation, where it can be
    /// open-coded. Answers whether it was.
    pub fn list_loop_rt(&mut self, fi: usize, key: &str) -> (r: bool)
        ensures
            r == (old(self).env().loop_of_body(fi, key@) is Some),
            final(self)@ == match old(self).env().loop_of_body(fi, key@) {
                Some(p) => old(self)@.list_loop(old(self).env(), p),
                None => old(self)@,
            },
            final(self).env() == old(self).env(),
    {
        match self.loop_of_body(fi, key) {
            Some(p) => {
                self.emit_list_loop(&p);
                true
            },
            None => false,
        }
    }
}

impl LoopPlan {
    /// The loop, abstractly.
    pub open spec fn model(&self) -> Loop {
        Loop { kind: self.kind, ops: self.ops, shape: self.shape@ }
    }

    /// The step's frame is that of a step of this kind.
    pub open spec fn fits(&self) -> bool {
        &&& self.shape.small()
        &&& self.shape.params.len() == elem_param(self.kind, self.ops) + 1
        &&& self.ops.acc_w <= 0x1_0000_0000
        &&& self.ops.ctx is Some ==> (self.ops.ctx->0).1 <= 0x1_0000_0000
    }
}

impl<'a> Emit<'a> {
    fn thunk_call(&mut self, c: &Thunked)
        requires
            c.small(),
        ensures
            final(self)@ == old(self)@.thunk_call(c@),
            final(self).env() == old(self).env(),
    {
        self.mv(c.env, c.fslot as u64 + ENV_WORD, 8);
        self.call_ptr(c.fslot as u64, c.base);
    }

    fn new_block(&mut self, ptr: u64, dest: u64, n: u64, stride: u64)
        requires
            ptr <= 0x100_0000_0000,
            dest <= 0x100_0000_0000,
            n <= 0x100_0000_0000,
        ensures
            final(self)@ == old(self)@.new_block(ptr, dest, n, stride),
            final(self).env() == old(self).env(),
    {
        self.new_elems(ptr, n, stride);
        self.mv(dest, ptr, 8);
        self.mv(dest + 8, n, 8);
    }

    /// Refuses an element too wide to stage.
    fn refuse_wide(&mut self, size: u64)
        ensures
            final(self)@ == old(self)@.unsupported(too_wide(size)),
            final(self).env() == old(self).env(),
    {
        let n: String = decimal_of(size);
        let room: String = decimal_of(STAGE_ROOM);
        let why: String = join5(
            "a `[T]` whose element is ",
            n.as_str(),
            " bytes, past the ",
            room.as_str(),
            " a frame stages one in",
        );
        self.unsupported(why);
    }

    /// The first element a predicate keeps, or its index, as an option.
    fn list_find(&mut self, x: &Block, c: &Thunked, l: &Layout, d: u32, index: bool)
        requires
            c.small(),
            c.params.len() == 1,
        ensures
            final(self)@ == old(self)@.list_find(old(self).env(), *x, c@, *l, d as u64, index),
            final(self).env() == old(self).env(),
    {
        let xs: u64 = x.at as u64;
        let d: u64 = d as u64;
        let pay: u64 = d + payload_at(l, 0) as u64;
        let i: u64 = self.word(LOOP_WORD);
        self.imm_to(i, 0);
        let head: usize = self.label();
        let done: usize = self.label();
        let end: usize = self.label();
        self.place(head);
        self.br_lt(i, xs + 8, V::Fall, V::Blk(done), H::T);
        self.elem_load(c.params[0], xs, i, x.stride as u64, x.size as u64);
        self.retain_counted(x.elem, c.params[0]);
        self.thunk_call(c);
        let cont: usize = self.label();
        let key: String = self.arm_key("br/f", H::T);
        self.test(key.as_str(), c.ret, V::Fall, V::Blk(cont));
        if index {
            self.mv(pay, i, 8);
        } else {
            self.elem_load(pay, xs, i, x.stride as u64, x.size as u64);
            self.retain_counted(x.elem, pay);
        }
        self.store_disc(l, d, 0);
        self.jump(V::Blk(end));
        self.place(cont);
        self.addk(i, i, 1);
        self.jump(V::Blk(head));
        self.place(done);
        self.store_disc(l, d, 1);
        self.place(end);
    }

    /// A fold that stops at the first error.
    #[verifier::rlimit(60)]
    fn list_fold_result(
        &mut self,
        x: &Block,
        c: &Thunked,
        l: &Layout,
        dest: (u32, Type),
        ctx: Option<(u32, Type)>,
        init: (u32, Type),
    )
        requires
            c.small(),
            c.params.len() == (if ctx is Some {
                3int
            } else {
                2
            }),
        ensures
            final(self)@ == old(self)@.list_fold_result(
                old(self).env(),
                *x,
                c@,
                *l,
                dest.0 as u64,
                dest.1,
                ctx,
                init,
            ),
            final(self).env() == old(self).env(),
    {
        let xs: u64 = x.at as u64;
        let res: u64 = dest.0 as u64;
        let ok_at: u64 = res + payload_at(l, 0) as u64;
        let acc_w: u64 = self.slot_bytes_of(init.1);
        if acc_w > STAGE_ROOM {
            self.refuse_wide(acc_w);
            return;
        }
        let acc: u64 = self.word(STAGE_WORD);
        self.mv(acc, init.0 as u64, acc_w);
        match self.counted_of(init.1) {
            Some(t) => self.retain_value(t, acc),
            None => {},
        }
        let i: u64 = self.word(LOOP_WORD + 8);
        let tag: u64 = self.word(LOOP_WORD + 9);
        self.imm_to(i, 0);
        let head: usize = self.label();
        let done: usize = self.label();
        let end: usize = self.label();
        self.place(head);
        self.br_lt(i, xs + 8, V::Fall, V::Blk(done), H::T);
        let mut k: usize = 0;
        match ctx {
            Some(p) => {
                let w: u64 = self.slot_bytes_of(p.1);
                self.mv(c.params[0], p.0 as u64, w);
                match self.counted_of(p.1) {
                    Some(t) => self.retain_value(t, c.params[0]),
                    None => {},
                }
                k = 1;
            },
            None => {},
        }
        self.mv(c.params[k], acc, acc_w);
        self.elem_load(c.params[k + 1], xs, i, x.stride as u64, x.size as u64);
        self.retain_counted(x.elem, c.params[k + 1]);
        self.thunk_call(c);
        let rw: u64 = self.slot_bytes_of(dest.1);
        self.mv(res, c.ret, rw);
        let carry: usize = self.label();
        self.load_disc(l, res, tag);
        let key: String = self.arm_key("brcmp/eq/u64/fi", H::T);
        self.test_k(key.as_str(), tag, 0, V::Blk(carry), V::Fall);
        self.jump(V::Blk(end));
        self.place(carry);
        self.mv(acc, ok_at, acc_w);
        self.addk(i, i, 1);
        self.jump(V::Blk(head));
        self.place(done);
        self.mv(ok_at, acc, acc_w);
        self.store_disc(l, res, 0);
        self.place(end);
    }

    /// One block of pairs, as long as the shorter of two lists.
    #[verifier::rlimit(60)]
    fn list_zip(&mut self, a: &Block, b: &Block, out: usize, dest: u32)
        ensures
            final(self)@ == old(self)@.list_zip(old(self).env(), *a, *b, out, dest as u64),
            final(self).env() == old(self).env(),
    {
        let xs: u64 = a.at as u64;
        let ys: u64 = b.at as u64;
        let ol: &'a Layout = self.layout(out);
        let stride: u64 = self.elem_stride(out) as u64;
        let size: u64 = self.elem_size(out) as u64;
        let n: u64 = self.word(LOOP_WORD);
        let ptr: u64 = self.word(LOOP_WORD + 1);
        let i: u64 = self.word(LOOP_WORD + 2);
        self.mv(n, xs + 8, 8);
        let shorter: usize = self.label();
        let key: String = self.arm_key("brcmp/lt/u64/ff", H::T);
        self.test_b(key.as_str(), xs + 8, ys + 8, V::Blk(shorter), V::Fall);
        self.mv(n, ys + 8, 8);
        self.place(shorter);
        self.new_block(ptr, dest as u64, n, stride);
        self.imm_to(i, 0);
        let head: usize = self.label();
        let done: usize = self.label();
        self.place(head);
        self.br_lt(i, n, V::Fall, V::Blk(done), H::T);
        if size > STAGE_ROOM {
            self.refuse_wide(size);
            return;
        }
        let pair: u64 = self.word(STAGE_WORD);
        let first: u64 = pair + ent(&ol.fields, 0, 0) as u64;
        let second: u64 = pair + ent(&ol.fields, 1, 0) as u64;
        self.elem_load(first, xs, i, a.stride as u64, a.size as u64);
        self.retain_counted(a.elem, first);
        self.elem_load(second, ys, i, b.stride as u64, b.size as u64);
        self.retain_counted(b.elem, second);
        self.elem_store(pair, ptr, i, stride, size);
        self.addk(i, i, 1);
        self.jump(V::Blk(head));
        self.place(done);
    }

    /// One block of every element of every inner list.
    #[verifier::rlimit(80)]
    fn list_flatten(&mut self, x: &Block, out: usize, dest: u32)
        ensures
            final(self)@ == old(self)@.list_flatten(old(self).env(), *x, out, dest as u64),
            final(self).env() == old(self).env(),
    {
        let xs: u64 = x.at as u64;
        let stride: u64 = self.elem_stride(out) as u64;
        let size: u64 = self.elem_size(out) as u64;
        let i: u64 = self.word(LOOP_WORD);
        let total: u64 = self.word(LOOP_WORD + 1);
        let ptr: u64 = self.word(LOOP_WORD + 2);
        let j: u64 = self.word(LOOP_WORD + 3);
        let k: u64 = self.word(LOOP_WORD + 4);
        let filled: u64 = self.word(LOOP_WORD + 5);
        let inner: u64 = self.word(LOOP_WORD + 6);
        let len: u64 = self.word(LOOP_WORD + 8);
        self.imm_to(i, 0);
        self.imm_to(total, 0);
        let count: usize = self.label();
        let counted: usize = self.label();
        self.place(count);
        self.br_lt(i, xs + 8, V::Fall, V::Blk(counted), H::T);
        self.elem_load(inner, xs, i, x.stride as u64, x.size as u64);
        self.dab("bin/add/u64/ff/f", total, total, inner + 8);
        self.addk(i, i, 1);
        self.jump(V::Blk(count));
        self.place(counted);
        self.new_block(ptr, dest as u64, total, stride);
        self.imm_to(i, 0);
        self.imm_to(k, 0);
        let head: usize = self.label();
        let done: usize = self.label();
        self.place(head);
        self.br_lt(i, xs + 8, V::Fall, V::Blk(done), H::T);
        self.elem_load(inner, xs, i, x.stride as u64, x.size as u64);
        self.mv(len, inner + 8, 8);
        self.imm_to(j, 0);
        let ihead: usize = self.label();
        let idone: usize = self.label();
        self.place(ihead);
        self.br_lt(j, len, V::Fall, V::Blk(idone), H::T);
        if size > STAGE_ROOM {
            self.refuse_wide(size);
            return;
        }
        let st: u64 = self.word(STAGE_WORD);
        self.elem_load(st, inner, j, stride, size);
        self.retain_counted(out, st);
        self.dab("bin/add/u64/ff/f", filled, k, j);
        self.elem_store(st, ptr, filled, stride, size);
        self.addk(j, j, 1);
        self.jump(V::Blk(ihead));
        self.place(idone);
        self.dab("bin/add/u64/ff/f", k, k, len);
        self.addk(i, i, 1);
        self.jump(V::Blk(head));
        self.place(done);
    }

    fn clamp(&mut self, d: u64, n: u64)
        requires
            d <= 0x100_0000_0000,
            n <= 0x100_0000_0000,
        ensures
            final(self)@ == old(self)@.clamp(old(self).env(), d, n),
            final(self).env() == old(self).env(),
    {
        let ok: usize = self.label();
        let key: String = self.arm_key("brcmp/lt/u64/ff", H::T);
        self.test_b(key.as_str(), d, n, V::Blk(ok), V::Fall);
        self.mv(d, n, 8);
        self.place(ok);
    }

    fn sort_copy(&mut self, x: &Block)
        ensures
            final(self)@ == old(self)@.sort_copy(old(self).env(), *x),
            final(self).env() == old(self).env(),
    {
        let xs: u64 = x.at as u64;
        let n: u64 = self.word(LOOP_WORD);
        let dst: u64 = self.word(LOOP_WORD + 1);
        let i: u64 = self.word(LOOP_WORD + 13);
        let st: u64 = self.word(STAGE_WORD);
        self.imm_to(i, 0);
        let head: usize = self.label();
        let filled: usize = self.label();
        self.place(head);
        self.br_lt(i, n, V::Fall, V::Blk(filled), H::T);
        self.elem_load(st, xs, i, x.stride as u64, x.size as u64);
        self.retain_counted(x.elem, st);
        self.elem_store(st, dst, i, x.stride as u64, x.size as u64);
        self.addk(i, i, 1);
        self.jump(V::Blk(head));
        self.place(filled);
    }

    #[verifier::rlimit(60)]
    fn sort_merge(&mut self, x: &Block, c: &Thunked)
        requires
            c.small(),
            c.params.len() == 2,
        ensures
            final(self)@ == old(self)@.sort_merge(old(self).env(), *x, c@),
            final(self).env() == old(self).env(),
    {
        let stride: u64 = x.stride as u64;
        let size: u64 = x.size as u64;
        let a: u64 = self.word(LOOP_WORD + 4);
        let b: u64 = self.word(LOOP_WORD + 5);
        let lo: u64 = self.word(LOOP_WORD + 7);
        let mid: u64 = self.word(LOOP_WORD + 8);
        let hi: u64 = self.word(LOOP_WORD + 9);
        let li: u64 = self.word(LOOP_WORD + 10);
        let ri: u64 = self.word(LOOP_WORD + 11);
        let out: u64 = self.word(LOOP_WORD + 12);
        let answer: u64 = self.word(LOOP_WORD + 15);
        let st: u64 = self.word(STAGE_WORD);
        self.mv(li, lo, 8);
        self.mv(ri, mid, 8);
        self.mv(out, lo, 8);
        let merge: usize = self.label();
        let merged: usize = self.label();
        let left: usize = self.label();
        let right: usize = self.label();
        let took: usize = self.label();
        self.place(merge);
        self.br_lt(out, hi, V::Fall, V::Blk(merged), H::T);
        self.br_lt(li, mid, V::Fall, V::Blk(right), H::T);
        self.br_lt(ri, hi, V::Fall, V::Blk(left), H::T);
        self.elem_load(c.params[0], a, li, stride, size);
        self.elem_load(c.params[1], a, ri, stride, size);
        self.retain_counted(x.elem, c.params[0]);
        self.retain_counted(x.elem, c.params[1]);
        self.thunk_call(c);
        let order: &'a Layout = self.layout(c.ret_ty);
        self.load_disc(order, c.ret, answer);
        let key: String = self.arm_key("brcmp/eq/u64/fi", H::T);
        self.test_k(key.as_str(), answer, GREATER, V::Blk(right), V::Fall);
        self.place(left);
        self.elem_load(st, a, li, stride, size);
        self.addk(li, li, 1);
        self.jump(V::Blk(took));
        self.place(right);
        self.elem_load(st, a, ri, stride, size);
        self.addk(ri, ri, 1);
        self.place(took);
        self.elem_store(st, b, out, stride, size);
        self.addk(out, out, 1);
        self.jump(V::Blk(merge));
        self.place(merged);
    }

    #[verifier::rlimit(60)]
    fn sort_passes(&mut self, x: &Block, c: &Thunked)
        requires
            c.small(),
            c.params.len() == 2,
        ensures
            final(self)@ == old(self)@.sort_passes(old(self).env(), *x, c@),
            final(self).env() == old(self).env(),
    {
        let n: u64 = self.word(LOOP_WORD);
        let dst: u64 = self.word(LOOP_WORD + 1);
        let scratch: u64 = self.word(LOOP_WORD + 2);
        let w: u64 = self.word(LOOP_WORD + 3);
        let a: u64 = self.word(LOOP_WORD + 4);
        let b: u64 = self.word(LOOP_WORD + 5);
        let span: u64 = self.word(LOOP_WORD + 6);
        let lo: u64 = self.word(LOOP_WORD + 7);
        let mid: u64 = self.word(LOOP_WORD + 8);
        let hi: u64 = self.word(LOOP_WORD + 9);
        let one: u64 = self.word(LOOP_WORD + 14);
        self.imm_to(w, 1);
        self.mv(a, dst, 8);
        self.mv(b, scratch, 8);
        let wide: usize = self.label();
        let sorted: usize = self.label();
        self.place(wide);
        self.br_lt(w, n, V::Fall, V::Blk(sorted), H::T);
        self.dab("bin/add/u64/ff/f", span, w, w);
        self.imm_to(lo, 0);
        let runs: usize = self.label();
        let swap: usize = self.label();
        self.place(runs);
        self.br_lt(lo, n, V::Fall, V::Blk(swap), H::T);
        self.dab("bin/add/u64/ff/f", mid, lo, w);
        self.clamp(mid, n);
        self.dab("bin/add/u64/ff/f", hi, lo, span);
        self.clamp(hi, n);
        self.sort_merge(x, c);
        self.dab("bin/add/u64/ff/f", lo, lo, span);
        self.jump(V::Blk(runs));
        self.place(swap);
        self.mv(one, a, 8);
        self.mv(a, b, 8);
        self.mv(b, one, 8);
        self.mv(w, span, 8);
        self.jump(V::Blk(wide));
        self.place(sorted);
    }

    fn sort_home(&mut self, x: &Block)
        ensures
            final(self)@ == old(self)@.sort_home(old(self).env(), *x),
            final(self).env() == old(self).env(),
    {
        let n: u64 = self.word(LOOP_WORD);
        let dst: u64 = self.word(LOOP_WORD + 1);
        let scratch: u64 = self.word(LOOP_WORD + 2);
        let a: u64 = self.word(LOOP_WORD + 4);
        let i: u64 = self.word(LOOP_WORD + 13);
        let st: u64 = self.word(STAGE_WORD);
        let home: usize = self.label();
        let key: String = self.arm_key("brcmp/eq/u64/ff", H::T);
        self.test_b(key.as_str(), a, dst, V::Blk(home), V::Fall);
        self.imm_to(i, 0);
        let back: usize = self.label();
        self.place(back);
        self.br_lt(i, n, V::Fall, V::Blk(home), H::T);
        self.elem_load(st, a, i, x.stride as u64, x.size as u64);
        self.elem_store(st, dst, i, x.stride as u64, x.size as u64);
        self.addk(i, i, 1);
        self.jump(V::Blk(back));
        self.place(home);
        self.rc_block(scratch, false, None);
    }

    /// A stable bottom-up merge sort over two blocks.
    fn list_sort(&mut self, x: &Block, c: &Thunked, dest: u32)
        requires
            c.small(),
            c.params.len() == 2,
        ensures
            final(self)@ == old(self)@.list_sort(old(self).env(), *x, c@, dest as u64),
            final(self).env() == old(self).env(),
    {
        let xs: u64 = x.at as u64;
        let n: u64 = self.word(LOOP_WORD);
        let dst: u64 = self.word(LOOP_WORD + 1);
        let scratch: u64 = self.word(LOOP_WORD + 2);
        self.mv(n, xs + 8, 8);
        self.new_block(dst, dest as u64, n, x.stride as u64);
        self.new_elems(scratch, n, x.stride as u64);
        if x.size as u64 > STAGE_ROOM {
            self.refuse_wide(x.size as u64);
            return;
        }
        self.sort_copy(x);
        self.sort_passes(x, c);
        self.sort_home(x);
    }

    /// Whether two lists are equal, element by element.
    #[verifier::rlimit(60)]
    fn derive_array_eq(&mut self, x: &Block, y: u32, c: &Thunked, d: u32)
        requires
            c.small(),
            c.params.len() == 2,
        ensures
            final(self)@ == old(self)@.derive_array_eq(old(self).env(), *x, y, c@, d as u64),
            final(self).env() == old(self).env(),
    {
        let xs: u64 = x.at as u64;
        let ys: u64 = y as u64;
        let d: u64 = d as u64;
        let i: u64 = self.word(LOOP_WORD);
        let end: usize = self.label();
        let head: usize = self.label();
        let done: usize = self.label();
        self.imm_to(d, 0);
        let same_len: usize = self.label();
        let key: String = self.arm_key("brcmp/eq/u64/ff", H::T);
        self.test_b(key.as_str(), xs + 8, ys + 8, V::Blk(same_len), V::Fall);
        self.jump(V::Blk(end));
        self.place(same_len);
        self.imm_to(d, 1);
        self.imm_to(i, 0);
        self.place(head);
        self.br_lt(i, xs + 8, V::Fall, V::Blk(done), H::T);
        self.elem_load(c.params[0], xs, i, x.stride as u64, x.size as u64);
        self.elem_load(c.params[1], ys, i, x.stride as u64, x.size as u64);
        self.retain_counted(x.elem, c.params[0]);
        self.retain_counted(x.elem, c.params[1]);
        self.thunk_call(c);
        let cont: usize = self.label();
        let key: String = self.arm_key("br/f", H::T);
        self.test(key.as_str(), c.ret, V::Blk(cont), V::Fall);
        self.imm_to(d, 0);
        self.jump(V::Blk(end));
        self.place(cont);
        self.addk(i, i, 1);
        self.jump(V::Blk(head));
        self.place(done);
        self.place(end);
    }

    /// A list rendered.
    #[verifier::rlimit(60)]
    fn derive_array_show(&mut self, x: &Block, c: &Thunked, text: usize, dest: u32)
        requires
            c.small(),
            c.params.len() == 1,
        ensures
            final(self)@ == old(self)@.derive_array_show(
                old(self).env(),
                *x,
                c@,
                text,
                dest as u64,
            ),
            final(self).env() == old(self).env(),
    {
        let xs: u64 = x.at as u64;
        let dest: u64 = dest as u64;
        let stride: u64 = self.elem_stride(text) as u64;
        let size: u64 = self.elem_size(text) as u64;
        let n: u64 = self.word(LOOP_WORD);
        let ptr: u64 = self.word(LOOP_WORD + 1);
        let i: u64 = self.word(LOOP_WORD + 2);
        self.mv(n, xs + 8, 8);
        self.new_elems(ptr, n, stride);
        self.imm_to(i, 0);
        let head: usize = self.label();
        let done: usize = self.label();
        self.place(head);
        self.br_lt(i, n, V::Fall, V::Blk(done), H::T);
        self.elem_load(c.params[0], xs, i, x.stride as u64, x.size as u64);
        self.retain_counted(x.elem, c.params[0]);
        self.thunk_call(c);
        self.elem_store(c.ret, ptr, i, stride, size);
        self.addk(i, i, 1);
        self.jump(V::Blk(head));
        self.place(done);
        self.c_call(
            "buri_rt_show_list",
            vec![Src::Word(ptr), Src::Word(n), Src::Addr(dest)],
            Vec::new(),
            dest,
            Ret::Void,
        );
        if size > STAGE_ROOM {
            self.refuse_wide(size);
            return;
        }
        let st: u64 = self.word(STAGE_WORD);
        self.imm_to(i, 0);
        let freeing: usize = self.label();
        let freed: usize = self.label();
        self.place(freeing);
        self.br_lt(i, n, V::Fall, V::Blk(freed), H::T);
        self.elem_load(st, ptr, i, stride, size);
        self.walk(text, st, false);
        self.addk(i, i, 1);
        self.jump(V::Blk(freeing));
        self.place(freed);
        self.rc_block(ptr, false, None);
    }

    fn extra_find(&mut self, o: &Operands, index: bool) -> (r: bool)
        ensures
            (final(self)@, r) == old(self)@.extra_find(old(self).env(), o.args@, o.dest, index),
            final(self).env() == old(self).env(),
    {
        if o.args.len() <= 1 {
            return false;
        }
        let x: Block = match self.block_at(o.args[0].0, o.args[0].1) {
            Some(x) => x,
            None => {
                return false;
            },
        };
        let c: Thunked = match self.thunked(o.args[1].0, o.args[1].1, 1) {
            Some(c) => c,
            None => {
                return false;
            },
        };
        match o.dest.1 {
            Type::Agg(id) => {
                let l: &'a Layout = self.layout(id);
                self.list_find(&x, &c, l, o.dest.0, index);
                true
            },
            _ => false,
        }
    }

    fn extra_fold(
        &mut self,
        o: &Operands,
        ctx: Option<(u32, Type)>,
        f: (u32, Type),
        init: (u32, Type),
    ) -> (r: bool)
        requires
            o.args.len() > 0,
        ensures
            (final(self)@, r) == old(self)@.extra_fold(
                old(self).env(),
                o.args@,
                o.dest,
                ctx,
                f,
                init,
            ),
            final(self).env() == old(self).env(),
    {
        let x: Block = match self.block_at(o.args[0].0, o.args[0].1) {
            Some(x) => x,
            None => {
                return false;
            },
        };
        let want: usize = if ctx.is_some() {
            3
        } else {
            2
        };
        let c: Thunked = match self.thunked(f.0, f.1, want) {
            Some(c) => c,
            None => {
                return false;
            },
        };
        match o.dest.1 {
            Type::Agg(id) => {
                let l: &'a Layout = self.layout(id);
                self.list_fold_result(&x, &c, l, o.dest, ctx, init);
                true
            },
            _ => false,
        }
    }

    /// A list operation whose answer is not one carried value. Answers whether
    /// the key and the operands were of one.
    #[verifier::rlimit(60)]
    pub fn list_extra(&mut self, key: &str, o: &Operands) -> (r: bool)
        ensures
            (final(self)@, r) == old(self)@.list_extra(old(self).env(), key@, o.args@, o.dest),
            !r ==> final(self)@ == old(self)@,
            final(self).env() == old(self).env(),
    {
        reveal(Sel::list_extra);
        if self.sw.no_loops {
            return false;
        }
        if same(key, "list.find") {
            return self.extra_find(o, false);
        }
        if same(key, "list.findIndex") {
            return self.extra_find(o, true);
        }
        if same(key, "list.sortBy") {
            if o.args.len() <= 2 {
                return false;
            }
            return match (
                self.block_at(o.args[0].0, o.args[0].1),
                self.thunked(o.args[2].0, o.args[2].1, 2),
            ) {
                (Some(x), Some(c)) => {
                    self.list_sort(&x, &c, o.dest.0);
                    true
                },
                _ => false,
            };
        }
        if same(key, "list.foldResult") {
            if o.args.len() <= 2 {
                return false;
            }
            return self.extra_fold(o, None, o.args[1], o.args[2]);
        }
        if same(key, "list.foldResultCtx") {
            if o.args.len() <= 3 {
                return false;
            }
            return self.extra_fold(o, Some(o.args[1]), o.args[2], o.args[3]);
        }
        if same(key, "list.zip") {
            if o.args.len() <= 2 {
                return false;
            }
            return match (
                self.block_at(o.args[0].0, o.args[0].1),
                self.block_at(o.args[2].0, o.args[2].1),
                self.element_of(o.dest.1),
            ) {
                (Some(a), Some(b), Some(out)) => {
                    self.list_zip(&a, &b, out, o.dest.0);
                    true
                },
                _ => false,
            };
        }
        if same(key, "list.flatten") {
            if o.args.len() == 0 {
                return false;
            }
            return match (
                self.block_at(o.args[0].0, o.args[0].1),
                self.element_of(o.dest.1),
            ) {
                (Some(x), Some(out)) => {
                    self.list_flatten(&x, out, o.dest.0);
                    true
                },
                _ => false,
            };
        }
        if same(key, "deriveArrayEq") {
            if o.args.len() <= 2 {
                return false;
            }
            return match (
                self.block_at(o.args[0].0, o.args[0].1),
                self.thunked(o.args[2].0, o.args[2].1, 2),
            ) {
                (Some(x), Some(c)) => {
                    self.derive_array_eq(&x, o.args[1].0, &c, o.dest.0);
                    true
                },
                _ => false,
            };
        }
        if same(key, "deriveArrayShow") {
            if o.args.len() <= 1 {
                return false;
            }
            return match (
                self.block_at(o.args[0].0, o.args[0].1),
                self.thunked(o.args[1].0, o.args[1].1, 1),
                o.dest.1,
            ) {
                (Some(x), Some(c), Type::Agg(text)) => {
                    self.derive_array_show(&x, &c, text, o.dest.0);
                    true
                },
                _ => false,
            };
        }
        false
    }
}

} // verus!
