//! What the selector produces, and the operations it is produced with.
//!
//! A body is selected into a list of operations: mostly stencils to copy with
//! the values of their holes, and beside them the labels, the literal bytes and
//! the runtime calls between the stencils. Nothing here knows an address; the
//! assembler turns the list into code.
//!
//! Every function of the selector appends to the list. What it appends is
//! stated by a function of the same name on [`Sel`], the selector's abstract
//! state.
use vstd::prelude::*;

use crate::abi::Loc;
use crate::abi::Tgt;
use crate::ir::Program;
use crate::ir::Type;
use crate::library::Library;
use crate::prim::Prim;
use crate::text::decimal;
use crate::text::decimal_of;
use crate::text::join2;
use crate::text::own;
use crate::text::position;
use crate::text::position_of;
use crate::text::texts;
use crate::types::at_or;
use crate::types::ent;
use crate::types::put;
use crate::types::Layout;
use crate::types::Tables;

verus! {

/// A hole of a stencil. The selector binds those that have a name of their own here; an expansion of
/// a runtime call binds any, by its name in the library.
#[derive(Clone, PartialEq, Eq, Debug)]
pub enum H {
    A,
    B,
    C,
    D,
    E,
    K,
    M,
    N,
    P,
    Q,
    T,
    F,
    Cont,
    Cont0,
    Callee,
    Named(String),
}

impl H {
    /// The name the hole has in the library.
    pub open spec fn text(self) -> Seq<char> {
        match self {
            H::A => "JIT_A"@,
            H::B => "JIT_B"@,
            H::C => "JIT_C"@,
            H::D => "JIT_D"@,
            H::E => "JIT_E"@,
            H::K => "JIT_K"@,
            H::M => "JIT_M"@,
            H::N => "JIT_N"@,
            H::P => "JIT_P"@,
            H::Q => "JIT_Q"@,
            H::T => "JIT_T"@,
            H::F => "JIT_F"@,
            H::Cont => "JIT_CONT"@,
            H::Cont0 => "JIT_CONT0"@,
            H::Callee => "JIT_CALLEE"@,
            H::Named(name) => name@,
        }
    }

    /// The name the hole has in the library.
    pub fn name(&self) -> (r: &str)
        ensures
            r@ == self.text(),
    {
        match self {
            H::A => "JIT_A",
            H::B => "JIT_B",
            H::C => "JIT_C",
            H::D => "JIT_D",
            H::E => "JIT_E",
            H::K => "JIT_K",
            H::M => "JIT_M",
            H::N => "JIT_N",
            H::P => "JIT_P",
            H::Q => "JIT_Q",
            H::T => "JIT_T",
            H::F => "JIT_F",
            H::Cont => "JIT_CONT",
            H::Cont0 => "JIT_CONT0",
            H::Callee => "JIT_CALLEE",
            H::Named(name) => name.as_str(),
        }
    }
}

/// What a hole is bound to.
#[derive(Clone, PartialEq, Eq, Debug)]
pub enum V {
    /// A literal: a frame offset, a size, a tag, a 64-bit datum.
    I(u64),
    /// The address of the given one of the literals the unit collects.
    Ptr(usize),
    /// A block or a label of the body.
    Blk(usize),
    /// The entry of a function.
    Fn(usize),
    /// A helper the unit generates for itself.
    Sym(usize),
    /// A symbol outside the program, which the linker resolves.
    Ext(String),
    /// Whatever is laid out next.
    Fall,
}

/// Where one argument of a runtime call comes from.
#[derive(Clone, Copy, PartialEq, Eq, Structural, Debug)]
pub enum Src {
    /// A word of the frame.
    Word(u64),
    Imm(u64),
    /// A helper the unit generates for itself.
    Sym(usize),
    /// The address of a place in the frame.
    Addr(u64),
}

/// What a runtime call answers.
#[derive(Clone, Copy, PartialEq, Eq, Structural, Debug)]
pub enum Ret {
    Void,
    Int,
}

/// A function a unit generates for itself.
#[derive(Clone, Copy, PartialEq, Eq, Structural, Debug)]
pub enum Helper {
    /// The code a closure over `func` points at, where the closure's type
    /// declares `args` parameters; `boxed` says whether its environment word
    /// holds a block.
    Thunk { func: usize, args: usize, boxed: bool },
    /// The counted-pointer walk over one value of a type.
    Walk { ty: usize, retain: bool },
    /// The same over every element of a list block.
    Elems { ty: usize },
    /// The copy walk over one value of a type.
    Copy { ty: usize },
    /// The same over every element of a list block.
    CopyElems { ty: usize },
    /// Calls the release function in a block's first word.
    EnvGlue,
    /// Calls the copy function in a block's second word.
    EnvCopy,
    /// What the runtime calls to run one step of the function type `fty`;
    /// `index` is the parameter that receives the loop counter.
    Entry { fty: usize, index: Option<usize> },
}

/// What a runtime call calls.
#[derive(Clone, PartialEq, Eq, Debug)]
pub enum Callee {
    Name(String),
    Helper(usize),
}

/// One operation of a selected body.
#[derive(Clone, PartialEq, Eq, Debug)]
pub enum Op {
    /// A stencil to copy, with the values of its holes.
    Stencil { key: String, binds: Vec<(H, V)> },
    /// A label to put here.
    Place(usize),
    /// Literal bytes to put into the constant pool: the given one of the
    /// literals the unit collects.
    Pool(usize),
    /// Machine code to copy as it is.
    Raw(Vec<u8>),
    /// A call of a C function of the runtime or of a helper.
    Call { callee: Callee, ints: Vec<Src>, floats: Vec<Src>, dest: u64, ret: Ret },
    /// A call of the runtime entry of an intrinsic key.
    Entry { key: String, dest: Option<(u32, Type)>, args: Vec<(u32, Type)> },
    /// The rendering of a primitive.
    Show { prim: Prim, src: u64, dest: u64, quoted: bool },
    /// The length of the string at `at`, without its flag, as a word.
    StrLen { at: u64, scratch: u64 },
    /// The answer of a runtime comparison of two strings.
    StrCompare { symbol: String, a: u64, b: u64, dest: u64 },
    /// A truth value from a comparison's answer.
    OrderTest { raw: u64, dest: u64, negate: bool, want: Vec<u64> },
    /// The concatenation of strings.
    Concat { parts: Vec<u64>, dest: u64 },
    /// The copy walk over the value at a frame offset.
    CopyWalk { ty: usize, at: u64 },
}

/// What a runtime call calls, abstractly.
pub enum To {
    Name(Seq<char>),
    Helper(usize),
}

/// One operation, abstractly.
pub enum Item {
    Stencil { key: Seq<char>, binds: Seq<(H, V)> },
    Place(usize),
    Pool(usize),
    Raw(Seq<u8>),
    Call { to: To, ints: Seq<Src>, floats: Seq<Src>, dest: u64, ret: Ret },
    Entry { key: Seq<char>, dest: Option<(u32, Type)>, args: Seq<(u32, Type)> },
    Show { prim: Prim, src: u64, dest: u64, quoted: bool },
    StrLen { at: u64, scratch: u64 },
    StrCompare { symbol: Seq<char>, a: u64, b: u64, dest: u64 },
    OrderTest { raw: u64, dest: u64, negate: bool, want: Seq<u64> },
    Concat { parts: Seq<u64>, dest: u64 },
    CopyWalk { ty: usize, at: u64 },
}

impl View for Callee {
    type V = To;

    open spec fn view(&self) -> To {
        match *self {
            Callee::Name(s) => To::Name(s@),
            Callee::Helper(i) => To::Helper(i),
        }
    }
}

impl View for Op {
    type V = Item;

    open spec fn view(&self) -> Item {
        match *self {
            Op::Stencil { key, binds } => Item::Stencil { key: key@, binds: binds@ },
            Op::Place(l) => Item::Place(l),
            Op::Pool(i) => Item::Pool(i),
            Op::Raw(b) => Item::Raw(b@),
            Op::Call { callee, ints, floats, dest, ret } => Item::Call {
                to: callee@,
                ints: ints@,
                floats: floats@,
                dest,
                ret,
            },
            Op::Entry { key, dest, args } => Item::Entry { key: key@, dest, args: args@ },
            Op::Show { prim, src, dest, quoted } => Item::Show { prim, src, dest, quoted },
            Op::StrLen { at, scratch } => Item::StrLen { at, scratch },
            Op::StrCompare { symbol, a, b, dest } => Item::StrCompare {
                symbol: symbol@,
                a,
                b,
                dest,
            },
            Op::OrderTest { raw, dest, negate, want } => Item::OrderTest {
                raw,
                dest,
                negate,
                want: want@,
            },
            Op::Concat { parts, dest } => Item::Concat { parts: parts@, dest },
            Op::CopyWalk { ty, at } => Item::CopyWalk { ty, at },
        }
    }
}

/// The bytes of each of a list of byte strings.
pub open spec fn byte_lists(v: Seq<Vec<u8>>) -> Seq<Seq<u8>> {
    Seq::new(v.len(), |i: int| v[i]@)
}

/// The operations of a list, abstractly.
pub open spec fn items(ops: Seq<Op>) -> Seq<Item> {
    Seq::new(ops.len(), |i: int| ops[i]@)
}

/// The frame of a function: where its results and parameters are, where its
/// locals begin, and where a callee's frame begins.
#[derive(Clone, PartialEq, Eq, Debug)]
pub struct FrameSig {
    pub ret: Vec<u32>,
    pub ret_size: u32,
    pub params: Vec<u32>,
    pub param_end: u32,
    pub size: u32,
}

/// The frame of a function, as a value.
pub struct Fr {
    pub ret: Seq<u32>,
    pub ret_size: u32,
    pub params: Seq<u32>,
    pub param_end: u32,
    pub size: u32,
}

impl View for FrameSig {
    type V = Fr;

    open spec fn view(&self) -> Fr {
        Fr {
            ret: self.ret@,
            ret_size: self.ret_size,
            params: self.params@,
            param_end: self.param_end,
            size: self.size,
        }
    }
}

/// The switches that turn parts of the selector off.
#[derive(Clone, Copy, PartialEq, Eq, Structural, Debug)]
pub struct Switches {
    /// No list operation is open-coded.
    pub no_loops: bool,
    /// No load or store has its stride baked in.
    pub no_stride: bool,
    /// No back edge is fused.
    pub no_fused: bool,
    /// An environment of no width is copied too.
    pub copy_env: bool,
    /// No count is taken.
    pub no_counts: bool,
}

/// The state of one body: its values' places, and the address of each of its
/// blocks and labels.
#[derive(Clone, PartialEq, Eq, Debug)]
pub struct Fn2 {
    /// The frame offset of each value.
    pub slot: Vec<u32>,
    /// The address of each block, and after them of each label.
    pub blk: Vec<u64>,
    pub frame: FrameSig,
    /// Where the scratch words begin.
    pub scratch: u32,
    /// The register of each value that has one.
    pub reg: Vec<Option<Loc>>,
    /// Whether a value's frame slot is kept in step with its register.
    pub wt: Vec<bool>,
    /// The literal of each value that a stencil can take as an immediate.
    pub constants: Vec<Option<u64>>,
    /// The values whose every use is an immediate.
    pub folded: Vec<bool>,
    /// The function of each value that is a closure made here.
    pub closure_of: Vec<Option<usize>>,
}

impl Fn2 {
    /// A fresh label.
    pub fn label(&mut self) -> (r: usize)
        ensures
            r == old(self).blk.len(),
            final(self).blk@ == old(self).blk@.push(0),
            final(self).tables() == old(self).tables(),
            final(self).frame == old(self).frame,
            final(self).scratch == old(self).scratch,
    {
        let n: usize = self.blk.len();
        self.blk.push(0);
        n
    }

    /// Gives a label its address. A label the body does not have is left alone.
    pub fn place(&mut self, l: usize, at: u64)
        ensures
            final(self).blk@ == if l < old(self).blk.len() {
                old(self).blk@.update(l as int, at)
            } else {
                old(self).blk@
            },
            final(self).tables() == old(self).tables(),
            final(self).frame == old(self).frame,
            final(self).scratch == old(self).scratch,
    {
        put(&mut self.blk, l, at);
    }

    /// The frame offset of a value. A value without a slot is at the first word
    /// of the frame.
    pub fn at(&self, v: usize) -> (r: u32)
        ensures
            r == at_or(self.slot@, v as int, 0u32),
    {
        ent(&self.slot, v, 0)
    }

    /// Where a value is: a register if it was given one, the frame otherwise.
    pub fn loc(&self, v: usize) -> (r: Loc)
        ensures
            r == place_of(self.reg@, v as int),
    {
        match ent(&self.reg, v, None) {
            Some(l) => l,
            None => Loc::Frame,
        }
    }

    /// The side tables of the body.
    pub open spec fn tables(self) -> Side {
        Side {
            slot: self.slot@,
            reg: self.reg@,
            wt: self.wt@,
            constants: self.constants@,
            folded: self.folded@,
            closure_of: self.closure_of@,
        }
    }
}

/// The side tables of a body.
pub struct Side {
    pub slot: Seq<u32>,
    pub reg: Seq<Option<Loc>>,
    pub wt: Seq<bool>,
    pub constants: Seq<Option<u64>>,
    pub folded: Seq<bool>,
    pub closure_of: Seq<Option<usize>>,
}

/// Where a value is, by the register table.
pub open spec fn place_of(reg: Seq<Option<Loc>>, v: int) -> Loc {
    match at_or(reg, v, None) {
        Some(l) => l,
        None => Loc::Frame,
    }
}

/// Everything the selector reads and does not change.
pub struct Env {
    pub lib: Library,
    pub prog: Program,
    pub frames: Seq<FrameSig>,
    pub counted: Seq<bool>,
    pub sw: Switches,
    pub target: Tgt,
    pub side: Side,
    pub frame: Fr,
    pub scratch: u32,
}

/// `n` rounded up to a word.
pub open spec fn up8(n: int) -> u64 {
    ((n + 7) / 8 * 8) as u64
}

impl Env {
    /// The frame offset of a value.
    pub open spec fn at(self, v: usize) -> u64 {
        at_or(self.side.slot, v as int, 0u32) as u64
    }

    /// Where a value is.
    pub open spec fn loc(self, v: usize) -> Loc {
        place_of(self.side.reg, v as int)
    }

    /// Scratch word `k`.
    pub open spec fn word(self, k: int) -> u64 {
        (self.scratch + k * 8) as u64
    }

    /// The bytes a value of a type takes inside an aggregate.
    pub open spec fn width(self, t: Type) -> u32 {
        width_in(self.prog.tables, t)
    }

    /// The bytes a value of a type takes in a frame.
    pub open spec fn slot_bytes(self, t: Type) -> u64 {
        slot_of(self.width(t))
    }

    /// The layout of a type.
    pub open spec fn layout(self, ty: usize) -> Layout {
        self.prog.tables.at(ty as int).layout
    }

    /// Whether a value of a type owns a counted block.
    pub open spec fn owns(self, ty: usize) -> bool {
        at_or(self.counted, ty as int, at_or(self.counted, self.counted.len() - 1, false))
    }

    /// Whether the library has a stencil.
    pub open spec fn has(self, key: Seq<char>) -> bool {
        self.lib.holds(key)
    }

    /// The twin of a two-way stencil whose droppable arm is `fall`, where there
    /// is one.
    pub open spec fn arm(self, base: Seq<char>, fall: H) -> Seq<char> {
        if self.lib.elidable(base) == Some(fall.text()) {
            base
        } else if self.lib.elidable(base + "+swap"@) == Some(fall.text()) {
            base + "+swap"@
        } else {
            base
        }
    }

    /// The frame of a function; a function the program does not have has none.
    pub open spec fn frame_of(self, f: usize) -> FrameSig {
        at_or(self.frames, f as int, no_frame())
    }
}

/// The frame of nothing.
pub open spec fn no_frame() -> FrameSig {
    choose|f: FrameSig|
        f.ret@.len() == 0 && f.params@.len() == 0 && f.ret_size == 0 && f.param_end == 0 && f.size
            == 0
}

/// The bytes a value of a type takes inside an aggregate.
pub open spec fn width_in(tables: Tables, t: Type) -> u32 {
    match t {
        Type::I1 => 1,
        Type::I8 => 1,
        Type::I16 => 2,
        Type::I32 => 4,
        Type::F32 => 4,
        Type::I64 => 8,
        Type::F64 => 8,
        Type::Ptr => 8,
        Type::I128 => 16,
        Type::Unit => 0,
        Type::Agg(id) => tables.at(id as int).layout.size,
    }
}

/// The bytes a value of a type takes inside an aggregate.
pub fn type_width(tables: &Tables, t: Type) -> (r: u32)
    ensures
        r == width_in(*tables, t),
{
    match t {
        Type::I1 => 1,
        Type::I8 => 1,
        Type::I16 => 2,
        Type::I32 => 4,
        Type::F32 => 4,
        Type::I64 => 8,
        Type::F64 => 8,
        Type::Ptr => 8,
        Type::I128 => 16,
        Type::Unit => 0,
        Type::Agg(id) => tables.info(id).layout.size,
    }
}

/// The frame slot of a value of `w` bytes: whole words, and at least one.
pub open spec fn slot_of(w: u32) -> u64 {
    if w == 0 {
        8
    } else {
        up8(w as int)
    }
}

/// What the selector has produced.
pub struct Sel {
    pub ops: Seq<Item>,
    /// How many blocks and labels there are.
    pub labels: nat,
    pub helpers: Seq<Helper>,
    pub reasons: Seq<Seq<char>>,
    /// The literals collected so far.
    pub lits: Seq<Seq<u8>>,
    /// One entry per open-coded list loop: whether its step is called directly.
    pub loops: Seq<bool>,
    /// Whether anything has been refused.
    pub dirty: bool,
}

/// The first index of a helper.
pub open spec fn helper_at(hs: Seq<Helper>, h: Helper, i: int) -> Option<int>
    decreases hs.len() - i,
{
    if i >= hs.len() {
        None
    } else if hs[i] == h {
        Some(i)
    } else {
        helper_at(hs, h, i + 1)
    }
}

/// The width of the widest copy that fits.
pub open spec fn unit(left: u64) -> u64 {
    if left >= 32 {
        32
    } else if left >= 24 {
        24
    } else if left >= 16 {
        16
    } else if left >= 8 {
        8
    } else if left >= 4 {
        4
    } else if left >= 2 {
        2
    } else {
        1
    }
}

/// Whether a width is one the narrow stencils have.
pub open spec fn narrow(w: u64) -> bool {
    w == 1 || w == 2 || w == 4
}

impl Sel {
    /// Appends an operation.
    pub open spec fn add(self, o: Item) -> Sel {
        Sel { ops: self.ops.push(o), ..self }
    }

    /// Copies a stencil.
    pub open spec fn emit(self, key: Seq<char>, binds: Seq<(H, V)>) -> Sel {
        self.add(Item::Stencil { key, binds })
    }

    /// The label that [`Sel::fresh`] makes.
    pub open spec fn next(self) -> usize {
        self.labels as usize
    }

    /// Makes a label.
    pub open spec fn fresh(self) -> Sel {
        Sel { labels: self.labels + 1, ..self }
    }

    /// Puts a label here.
    pub open spec fn place(self, l: usize) -> Sel {
        self.add(Item::Place(l))
    }

    /// The index of the literal that [`Sel::pool`] collects.
    pub open spec fn literal(self) -> usize {
        self.lits.len() as usize
    }

    /// Pools literal bytes.
    pub open spec fn pool(self, b: Seq<u8>) -> Sel {
        Sel { lits: self.lits.push(b), ..self.add(Item::Pool(self.literal())) }
    }

    /// The index of a helper, once it is registered.
    pub open spec fn helper_index(self, h: Helper) -> usize {
        match helper_at(self.helpers, h, 0) {
            Some(i) => i as usize,
            None => self.helpers.len() as usize,
        }
    }

    /// Registers a helper, where it is not already.
    pub open spec fn helper(self, h: Helper) -> Sel {
        match helper_at(self.helpers, h, 0) {
            Some(i) => self,
            None => Sel { helpers: self.helpers.push(h), ..self },
        }
    }

    /// The index of a reason, once it is recorded.
    pub open spec fn reason_index(self, why: Seq<char>) -> u64 {
        match position(self.reasons, why) {
            Some(i) => i as u64,
            None => self.reasons.len() as u64,
        }
    }

    /// Records a refusal and copies the stencil that stands for it.
    pub open spec fn unsupported(self, why: Seq<char>) -> Sel {
        let id = self.reason_index(why);
        let s = Sel {
            reasons: match position(self.reasons, why) {
                Some(i) => self.reasons,
                None => self.reasons.push(why),
            },
            dirty: true,
            ..self
        };
        s.emit("unsupported"@, seq![(H::N, V::I(id))])
    }

    /// A stencil from `a` to `d`.
    pub open spec fn da(self, key: Seq<char>, d: u64, a: u64) -> Sel {
        self.emit(key, seq![(H::D, V::I(d)), (H::A, V::I(a)), (H::Cont, V::Fall)])
    }

    /// A stencil from `a` and `b` to `d`.
    pub open spec fn dab(self, key: Seq<char>, d: u64, a: u64, b: u64) -> Sel {
        self.emit(
            key,
            seq![(H::D, V::I(d)), (H::A, V::I(a)), (H::B, V::I(b)), (H::Cont, V::Fall)],
        )
    }

    /// A stencil from `a` and the literal `k` to `d`.
    pub open spec fn dak(self, key: Seq<char>, d: u64, a: u64, k: u64) -> Sel {
        self.emit(
            key,
            seq![(H::D, V::I(d)), (H::A, V::I(a)), (H::K, V::I(k)), (H::Cont, V::Fall)],
        )
    }

    /// A jump.
    pub open spec fn jump(self, to: V) -> Sel {
        self.emit("jump"@, seq![(H::T, to)])
    }

    /// The end of a body.
    pub open spec fn ret(self) -> Sel {
        self.emit("ret"@, Seq::empty())
    }

    /// A two-way branch on the word at `a`.
    pub open spec fn test(self, key: Seq<char>, a: u64, tv: V, fv: V) -> Sel {
        self.emit(key, seq![(H::A, V::I(a)), (H::T, tv), (H::F, fv)])
    }

    /// A two-way branch that compares the word at `a` with the literal `k`.
    pub open spec fn test_k(self, key: Seq<char>, a: u64, k: u64, tv: V, fv: V) -> Sel {
        self.emit(key, seq![(H::A, V::I(a)), (H::K, V::I(k)), (H::T, tv), (H::F, fv)])
    }

    /// A two-way branch that compares the words at `a` and `b`.
    pub open spec fn test_b(self, key: Seq<char>, a: u64, b: u64, tv: V, fv: V) -> Sel {
        self.emit(key, seq![(H::A, V::I(a)), (H::B, V::I(b)), (H::T, tv), (H::F, fv)])
    }

    /// A fresh block of as many elements as the word at `n` says.
    pub open spec fn new_elems(self, ptr: u64, n: u64, stride: u64) -> Sel {
        self.emit(
            "elemalloc"@,
            seq![(H::D, V::I(ptr)), (H::A, V::I(n)), (H::P, V::I(stride)), (H::Cont0, V::Fall)],
        )
    }

    /// A direct call into the frame at `base`.
    pub open spec fn call_fn(self, base: u64, func: usize) -> Sel {
        self.emit(
            "call"@,
            seq![
                (H::N, V::I(base)),
                (H::P, V::I(base)),
                (H::Callee, V::Fn(func)),
                (H::Cont0, V::Fall),
            ],
        )
    }

    /// A call through the code word at `a` into the frame at `base`.
    pub open spec fn call_ptr(self, a: u64, base: u64) -> Sel {
        self.emit(
            "calli"@,
            seq![
                (H::A, V::I(a)),
                (H::N, V::I(base)),
                (H::P, V::I(base)),
                (H::Cont0, V::Fall),
            ],
        )
    }

    /// A call of a runtime function.
    pub open spec fn c_call(
        self,
        symbol: Seq<char>,
        ints: Seq<Src>,
        floats: Seq<Src>,
        dest: u64,
        ret: Ret,
    ) -> Sel {
        self.add(Item::Call { to: To::Name(symbol), ints, floats, dest, ret })
    }

    /// A copy of `left` bytes as a run of fixed-width copies.
    pub open spec fn run(self, d: u64, s: u64, left: u64) -> Sel
        decreases left,
    {
        if left == 0 {
            self
        } else {
            let n = unit(left);
            self.da("mov/"@ + decimal(n as nat), d, s).run(
                (d + n) as u64,
                (s + n) as u64,
                (left - n) as u64,
            )
        }
    }

    /// A copy of `n` bytes from one frame offset to another.
    pub open spec fn mv(self, d: u64, s: u64, n: u64) -> Sel {
        if n == 0 || d == s {
            self
        } else {
            self.run(d, s, n)
        }
    }

    /// A literal word.
    pub open spec fn imm_to(self, d: u64, v: u64) -> Sel {
        if v == 0 {
            self.emit("imm/z"@, seq![(H::D, V::I(d)), (H::Cont, V::Fall)])
        } else if v < 0x1_0000_0000 {
            self.emit("imm/32"@, seq![(H::D, V::I(d)), (H::N, V::I(v)), (H::Cont, V::Fall)])
        } else {
            self.emit("imm/64"@, seq![(H::D, V::I(d)), (H::M, V::I(v)), (H::Cont, V::Fall)])
        }
    }

    /// The address of something as a word.
    pub open spec fn imm_to_ptr(self, d: u64, v: V) -> Sel {
        self.emit("imm/64"@, seq![(H::D, V::I(d)), (H::M, v), (H::Cont, V::Fall)])
    }

    /// The low `w` bytes of a word into a field.
    pub open spec fn store_w(self, d: u64, s: u64, w: u64) -> Sel {
        if narrow(w) {
            self.da("store/"@ + decimal(w as nat), d, s)
        } else {
            self.mv(d, s, w)
        }
    }

    /// A field of `w` bytes into a word, with zeros above it.
    pub open spec fn load_w(self, d: u64, s: u64, w: u64) -> Sel {
        if narrow(w) {
            self.da("loadu/"@ + decimal(w as nat), d, s)
        } else {
            self.mv(d, s, w)
        }
    }

    /// A literal into a field of `w` bytes.
    pub open spec fn imm_w(self, d: u64, w: u64, v: u64) -> Sel {
        if narrow(w) {
            self.emit(
                "immw/"@ + decimal(w as nat),
                seq![(H::D, V::I(d)), (H::N, V::I(v)), (H::Cont, V::Fall)],
            )
        } else {
            self.imm_to(d, v)
        }
    }

    /// The words of a string literal: no block, the bytes' address, and the
    /// length with the flag that says whether every byte is ASCII.
    pub open spec fn str_literal(self, d: u64, bytes: Seq<u8>) -> Sel {
        let p = self.literal();
        self.pool(bytes).imm_to(d, 0).imm_to_ptr((d + 8) as u64, V::Ptr(p)).imm_to(
            (d + 16) as u64,
            flagged_len(bytes),
        )
    }

    /// The word of a helper's address, or zero where there is none.
    pub open spec fn sym_or_zero(self, d: u64, h: Option<usize>) -> Sel {
        match h {
            Some(i) => self.imm_to_ptr(d, V::Sym(i)),
            None => self.imm_to(d, 0),
        }
    }
}

/// Whether every byte is below 0x80.
pub open spec fn all_ascii(b: Seq<u8>) -> bool {
    forall|i: int| 0 <= i < b.len() ==> b[i] < 0x80
}

/// A length, with bit 63 set where every byte is ASCII.
pub open spec fn flagged_len(b: Seq<u8>) -> u64 {
    if all_ascii(b) {
        (b.len() as u64) | 0x8000_0000_0000_0000u64
    } else {
        b.len() as u64
    }
}

/// A bound on frame offsets: the sum of a frame offset and of a few offsets
/// inside a value stays below it.
pub const LIM: u64 = 0x1_0000_0000_0000;

/// The selector of one body.
pub struct Emit<'a> {
    pub lib: &'a Library,
    pub prog: &'a Program,
    pub frames: &'a Vec<FrameSig>,
    pub counted: &'a Vec<bool>,
    pub sw: Switches,
    pub target: Tgt,
    pub st: Fn2,
    pub ops: Vec<Op>,
    pub helpers: Vec<Helper>,
    pub reasons: Vec<String>,
    pub lits: Vec<Vec<u8>>,
    pub loops: Vec<bool>,
    pub dirty: bool,
}

impl<'a> View for Emit<'a> {
    type V = Sel;

    open spec fn view(&self) -> Sel {
        Sel {
            ops: items(self.ops@),
            labels: self.st.blk@.len(),
            helpers: self.helpers@,
            reasons: texts(self.reasons@),
            lits: byte_lists(self.lits@),
            loops: self.loops@,
            dirty: self.dirty,
        }
    }
}

impl<'a> Emit<'a> {
    /// What the selector reads.
    pub open spec fn env(&self) -> Env {
        Env {
            lib: *self.lib,
            prog: *self.prog,
            frames: self.frames@,
            counted: self.counted@,
            sw: self.sw,
            target: self.target,
            side: self.st.tables(),
            frame: self.st.frame@,
            scratch: self.st.scratch,
        }
    }

    /// Appends an operation.
    pub fn add(&mut self, o: Op)
        ensures
            final(self)@ == old(self)@.add(o@),
            final(self).env() == old(self).env(),
    {
        let ghost before = self.ops@;
        self.ops.push(o);
        proof {
            assert(items(self.ops@) =~= items(before).push(o@));
        }
    }

    /// Copies a stencil.
    pub fn emit(&mut self, key: &str, binds: Vec<(H, V)>)
        ensures
            final(self)@ == old(self)@.emit(key@, binds@),
            final(self).env() == old(self).env(),
    {
        self.add(Op::Stencil { key: own(key), binds });
    }

    /// Makes a label.
    pub fn label(&mut self) -> (r: usize)
        ensures
            r == old(self)@.next(),
            final(self)@ == old(self)@.fresh(),
            final(self).env() == old(self).env(),
    {
        self.st.label()
    }

    /// Puts a label here.
    pub fn place(&mut self, l: usize)
        ensures
            final(self)@ == old(self)@.place(l),
            final(self).env() == old(self).env(),
    {
        self.add(Op::Place(l));
    }

    /// The frame offset of a value.
    pub fn at(&self, v: usize) -> (r: u64)
        ensures
            r == self.env().at(v),
            r <= 0xffff_ffff,
    {
        self.st.at(v) as u64
    }

    /// Where a value is.
    pub fn loc(&self, v: usize) -> (r: Loc)
        ensures
            r == self.env().loc(v),
    {
        self.st.loc(v)
    }

    /// Scratch word `k`.
    pub fn word(&self, k: u64) -> (r: u64)
        requires
            k < 0x1000,
        ensures
            r == self.env().word(k as int),
            r == self.st.scratch + k * 8,
    {
        self.st.scratch as u64 + k * 8
    }

    /// The layout of a type.
    pub fn layout(&self, ty: usize) -> (r: &'a Layout)
        ensures
            *r == self.env().layout(ty),
    {
        let prog: &'a Program = self.prog;
        &prog.tables.info(ty).layout
    }

    /// Whether a value of a type owns a counted block.
    pub fn rc_counted(&self, ty: usize) -> (r: bool)
        ensures
            r == self.env().owns(ty),
    {
        if ty < self.counted.len() {
            self.counted[ty]
        } else if self.counted.len() > 0 {
            self.counted[self.counted.len() - 1]
        } else {
            false
        }
    }

    /// The bytes a value of a type takes inside an aggregate.
    pub fn width_of(&self, t: Type) -> (r: u32)
        ensures
            r == self.env().width(t),
    {
        type_width(&self.prog.tables, t)
    }

    /// The bytes a value of a type takes in a frame.
    pub fn slot_bytes_of(&self, t: Type) -> (r: u64)
        ensures
            r == self.env().slot_bytes(t),
            8 <= r <= 0x1_0000_0000,
    {
        slot_of_width(self.width_of(t))
    }

    /// Whether the library has a stencil.
    pub fn has(&self, key: &str) -> (r: bool)
        ensures
            r == self.env().has(key@),
    {
        self.lib.get(key).is_some()
    }

    /// The twin of a two-way stencil whose droppable arm is `fall`, where there
    /// is one.
    pub fn arm_key(&self, base: &str, fall: H) -> (r: String)
        ensures
            r@ == self.env().arm(base@, fall),
    {
        if self.lib.elides(base, fall.name()) {
            return own(base);
        }
        let swapped: String = join2(base, "+swap");
        if self.lib.elides(swapped.as_str(), fall.name()) {
            return swapped;
        }
        own(base)
    }

    /// Pools literal bytes. Answers which literal they are.
    pub fn pool(&mut self, b: Vec<u8>) -> (r: usize)
        ensures
            r == old(self)@.literal(),
            final(self)@ == old(self)@.pool(b@),
            final(self).env() == old(self).env(),
    {
        let n: usize = self.lits.len();
        let ghost before = self.lits@;
        self.add(Op::Pool(n));
        self.lits.push(b);
        proof {
            assert(byte_lists(self.lits@) =~= byte_lists(before).push(b@));
        }
        n
    }

    /// Registers a helper, where it is not already. Answers its index.
    pub fn helper(&mut self, h: Helper) -> (r: usize)
        ensures
            r == old(self)@.helper_index(h),
            final(self)@ == old(self)@.helper(h),
            final(self).env() == old(self).env(),
    {
        let mut i: usize = 0;
        while i < self.helpers.len()
            invariant
                i <= self.helpers.len(),
                helper_at(self.helpers@, h, 0) == helper_at(self.helpers@, h, i as int),
            decreases self.helpers.len() - i,
        {
            if self.helpers[i] == h {
                return i;
            }
            i = i + 1;
        }
        self.helpers.push(h);
        i
    }

    /// Records a refusal and copies the stencil that stands for it.
    pub fn unsupported(&mut self, why: String)
        ensures
            final(self)@ == old(self)@.unsupported(why@),
            final(self).env() == old(self).env(),
    {
        let ghost before = self.reasons@;
        let ghost text = why@;
        let id: usize = match position_of(&self.reasons, why.as_str()) {
            Some(i) => i,
            None => {
                let n: usize = self.reasons.len();
                self.reasons.push(why);
                proof {
                    assert(texts(self.reasons@) =~= texts(before).push(text));
                }
                n
            },
        };
        self.dirty = true;
        let binds: Vec<(H, V)> = vec![(H::N, V::I(id as u64))];
        assert(binds@ =~= seq![(H::N, V::I(id as u64))]);
        self.emit("unsupported", binds);
    }

    /// A stencil from `a` to `d`.
    pub fn da(&mut self, key: &str, d: u64, a: u64)
        ensures
            final(self)@ == old(self)@.da(key@, d, a),
            final(self).env() == old(self).env(),
    {
        self.emit(key, vec![(H::D, V::I(d)), (H::A, V::I(a)), (H::Cont, V::Fall)]);
    }

    /// A stencil from `a` and `b` to `d`.
    pub fn dab(&mut self, key: &str, d: u64, a: u64, b: u64)
        ensures
            final(self)@ == old(self)@.dab(key@, d, a, b),
            final(self).env() == old(self).env(),
    {
        self.emit(
            key,
            vec![(H::D, V::I(d)), (H::A, V::I(a)), (H::B, V::I(b)), (H::Cont, V::Fall)],
        );
    }

    /// A stencil from `a` and the literal `k` to `d`.
    pub fn dak(&mut self, key: &str, d: u64, a: u64, k: u64)
        ensures
            final(self)@ == old(self)@.dak(key@, d, a, k),
            final(self).env() == old(self).env(),
    {
        self.emit(
            key,
            vec![(H::D, V::I(d)), (H::A, V::I(a)), (H::K, V::I(k)), (H::Cont, V::Fall)],
        );
    }

    /// A jump.
    pub fn jump(&mut self, to: V)
        ensures
            final(self)@ == old(self)@.jump(to),
            final(self).env() == old(self).env(),
    {
        let binds: Vec<(H, V)> = vec![(H::T, to)];
        assert(binds@ =~= seq![(H::T, to)]);
        self.emit("jump", binds);
    }

    /// The end of a body.
    pub fn ret(&mut self)
        ensures
            final(self)@ == old(self)@.ret(),
            final(self).env() == old(self).env(),
    {
        self.emit("ret", Vec::new());
    }

    /// A two-way branch on the word at `a`.
    pub fn test(&mut self, key: &str, a: u64, tv: V, fv: V)
        ensures
            final(self)@ == old(self)@.test(key@, a, tv, fv),
            final(self).env() == old(self).env(),
    {
        self.emit(key, vec![(H::A, V::I(a)), (H::T, tv), (H::F, fv)]);
    }

    /// A two-way branch that compares the word at `a` with the literal `k`.
    pub fn test_k(&mut self, key: &str, a: u64, k: u64, tv: V, fv: V)
        ensures
            final(self)@ == old(self)@.test_k(key@, a, k, tv, fv),
            final(self).env() == old(self).env(),
    {
        self.emit(key, vec![(H::A, V::I(a)), (H::K, V::I(k)), (H::T, tv), (H::F, fv)]);
    }

    /// A two-way branch that compares the words at `a` and `b`.
    pub fn test_b(&mut self, key: &str, a: u64, b: u64, tv: V, fv: V)
        ensures
            final(self)@ == old(self)@.test_b(key@, a, b, tv, fv),
            final(self).env() == old(self).env(),
    {
        self.emit(key, vec![(H::A, V::I(a)), (H::B, V::I(b)), (H::T, tv), (H::F, fv)]);
    }

    /// A fresh block of as many elements as the word at `n` says.
    pub fn new_elems(&mut self, ptr: u64, n: u64, stride: u64)
        ensures
            final(self)@ == old(self)@.new_elems(ptr, n, stride),
            final(self).env() == old(self).env(),
    {
        self.emit(
            "elemalloc",
            vec![(H::D, V::I(ptr)), (H::A, V::I(n)), (H::P, V::I(stride)), (H::Cont0, V::Fall)],
        );
    }

    /// A direct call into the frame at `base`.
    pub fn call_fn(&mut self, base: u64, func: usize)
        ensures
            final(self)@ == old(self)@.call_fn(base, func),
            final(self).env() == old(self).env(),
    {
        self.emit(
            "call",
            vec![
                (H::N, V::I(base)),
                (H::P, V::I(base)),
                (H::Callee, V::Fn(func)),
                (H::Cont0, V::Fall),
            ],
        );
    }

    /// A call through the code word at `a` into the frame at `base`.
    pub fn call_ptr(&mut self, a: u64, base: u64)
        ensures
            final(self)@ == old(self)@.call_ptr(a, base),
            final(self).env() == old(self).env(),
    {
        self.emit(
            "calli",
            vec![(H::A, V::I(a)), (H::N, V::I(base)), (H::P, V::I(base)), (H::Cont0, V::Fall)],
        );
    }

    /// A call of a runtime function.
    pub fn c_call(
        &mut self,
        symbol: &str,
        ints: Vec<Src>,
        floats: Vec<Src>,
        dest: u64,
        ret: Ret,
    )
        ensures
            final(self)@ == old(self)@.c_call(symbol@, ints@, floats@, dest, ret),
            final(self).env() == old(self).env(),
    {
        self.add(Op::Call { callee: Callee::Name(own(symbol)), ints, floats, dest, ret });
    }

    /// A copy of `n` bytes from one frame offset to another.
    pub fn mv(&mut self, d: u64, s: u64, n: u64)
        ensures
            final(self)@ == old(self)@.mv(d, s, n),
            final(self).env() == old(self).env(),
    {
        if n == 0 || d == s {
            return;
        }
        let mut to: u64 = d;
        let mut from: u64 = s;
        let mut left: u64 = n;
        while left > 0
            invariant
                self@.run(to, from, left) == old(self)@.run(d, s, n),
                self.env() == old(self).env(),
            decreases left,
        {
            let w: u64 = unit_of(left);
            let digits: String = decimal_of(w);
            let key: String = join2("mov/", digits.as_str());
            self.da(key.as_str(), to, from);
            to = plus(to, w);
            from = plus(from, w);
            left = left - w;
        }
    }

    /// A literal word.
    pub fn imm_to(&mut self, d: u64, v: u64)
        ensures
            final(self)@ == old(self)@.imm_to(d, v),
            final(self).env() == old(self).env(),
    {
        if v == 0 {
            self.emit("imm/z", vec![(H::D, V::I(d)), (H::Cont, V::Fall)]);
        } else if v < 0x1_0000_0000 {
            self.emit("imm/32", vec![(H::D, V::I(d)), (H::N, V::I(v)), (H::Cont, V::Fall)]);
        } else {
            self.emit("imm/64", vec![(H::D, V::I(d)), (H::M, V::I(v)), (H::Cont, V::Fall)]);
        }
    }

    /// The address of something as a word.
    pub fn imm_to_ptr(&mut self, d: u64, v: V)
        ensures
            final(self)@ == old(self)@.imm_to_ptr(d, v),
            final(self).env() == old(self).env(),
    {
        self.emit("imm/64", vec![(H::D, V::I(d)), (H::M, v), (H::Cont, V::Fall)]);
    }

    /// The low `w` bytes of a word into a field.
    pub fn store_w(&mut self, d: u64, s: u64, w: u64)
        ensures
            final(self)@ == old(self)@.store_w(d, s, w),
            final(self).env() == old(self).env(),
    {
        if w == 1 || w == 2 || w == 4 {
            let digits: String = decimal_of(w);
            let key: String = join2("store/", digits.as_str());
            self.da(key.as_str(), d, s);
        } else {
            self.mv(d, s, w);
        }
    }

    /// A field of `w` bytes into a word, with zeros above it.
    pub fn load_w(&mut self, d: u64, s: u64, w: u64)
        ensures
            final(self)@ == old(self)@.load_w(d, s, w),
            final(self).env() == old(self).env(),
    {
        if w == 1 || w == 2 || w == 4 {
            let digits: String = decimal_of(w);
            let key: String = join2("loadu/", digits.as_str());
            self.da(key.as_str(), d, s);
        } else {
            self.mv(d, s, w);
        }
    }

    /// A literal into a field of `w` bytes.
    pub fn imm_w(&mut self, d: u64, w: u64, v: u64)
        ensures
            final(self)@ == old(self)@.imm_w(d, w, v),
            final(self).env() == old(self).env(),
    {
        if w == 1 || w == 2 || w == 4 {
            let digits: String = decimal_of(w);
            let key: String = join2("immw/", digits.as_str());
            self.emit(key.as_str(), vec![(H::D, V::I(d)), (H::N, V::I(v)), (H::Cont, V::Fall)]);
        } else {
            self.imm_to(d, v);
        }
    }

    /// The words of a string literal.
    pub fn str_literal(&mut self, d: u64, bytes: &[u8])
        requires
            d <= LIM,
        ensures
            final(self)@ == old(self)@.str_literal(d, bytes@),
            final(self).env() == old(self).env(),
    {
        let len: u64 = flagged_len_of(bytes);
        let p: usize = self.pool(bytes_of(bytes));
        self.imm_to(d, 0);
        self.imm_to_ptr(d + 8, V::Ptr(p));
        self.imm_to(d + 16, len);
    }

    /// The word of a helper's address, or zero where there is none.
    pub fn sym_or_zero(&mut self, d: u64, h: Option<usize>)
        ensures
            final(self)@ == old(self)@.sym_or_zero(d, h),
            final(self).env() == old(self).env(),
    {
        match h {
            Some(i) => self.imm_to_ptr(d, V::Sym(i)),
            None => self.imm_to(d, 0),
        }
    }

    /// The frame of a function; a function the program does not have has none.
    pub fn frame_sig_of(&self, f: usize) -> (r: FrameSig)
        ensures
            r.ret@ == self.env().frame_of(f).ret@,
            r.params@ == self.env().frame_of(f).params@,
            r.ret_size == self.env().frame_of(f).ret_size,
            r.param_end == self.env().frame_of(f).param_end,
            r.size == self.env().frame_of(f).size,
    {
        if f < self.frames.len() {
            copy_frame(&self.frames[f])
        } else {
            empty_frame()
        }
    }
}

/// The frame of nothing.
pub fn empty_frame() -> (r: FrameSig)
    ensures
        r.ret@ == no_frame().ret@,
        r.params@ == no_frame().params@,
        r.ret_size == no_frame().ret_size,
        r.param_end == no_frame().param_end,
        r.size == no_frame().size,
        r.ret@.len() == 0,
        r.params@.len() == 0,
        r.ret_size == 0,
        r.param_end == 0,
        r.size == 0,
{
    let r: FrameSig = FrameSig {
        ret: Vec::new(),
        ret_size: 0,
        params: Vec::new(),
        param_end: 0,
        size: 0,
    };
    assert(r.ret@.len() == 0 && r.params@.len() == 0 && r.ret_size == 0 && r.param_end == 0
        && r.size == 0);
    assert(no_frame().ret@ =~= r.ret@);
    assert(no_frame().params@ =~= r.params@);
    r
}

/// A copy of a frame.
pub fn copy_frame(f: &FrameSig) -> (r: FrameSig)
    ensures
        r.ret@ == f.ret@,
        r.params@ == f.params@,
        r.ret_size == f.ret_size,
        r.param_end == f.param_end,
        r.size == f.size,
{
    FrameSig {
        ret: copy_u32s(&f.ret),
        ret_size: f.ret_size,
        params: copy_u32s(&f.params),
        param_end: f.param_end,
        size: f.size,
    }
}

/// A copy of a list of offsets.
pub fn copy_u32s(v: &Vec<u32>) -> (r: Vec<u32>)
    ensures
        r@ == v@,
{
    let mut out: Vec<u32> = Vec::new();
    let mut i: usize = 0;
    while i < v.len()
        invariant
            i <= v.len(),
            out@ == v@.subrange(0, i as int),
        decreases v.len() - i,
    {
        out.push(v[i]);
        i = i + 1;
    }
    assert(v@.subrange(0, i as int) =~= v@);
    out
}

/// A copy of some bytes.
pub fn bytes_of(b: &[u8]) -> (r: Vec<u8>)
    ensures
        r@ == b@,
{
    let mut out: Vec<u8> = Vec::new();
    let mut i: usize = 0;
    while i < b.len()
        invariant
            i <= b.len(),
            out@ == b@.subrange(0, i as int),
        decreases b.len() - i,
    {
        out.push(b[i]);
        i = i + 1;
    }
    assert(b@.subrange(0, i as int) =~= b@);
    out
}

/// A length, with bit 63 set where every byte is ASCII.
fn flagged_len_of(b: &[u8]) -> (r: u64)
    ensures
        r == flagged_len(b@),
{
    let mut i: usize = 0;
    while i < b.len()
        invariant
            i <= b.len(),
            forall|j: int| 0 <= j < i ==> b[j] < 0x80,
        decreases b.len() - i,
    {
        if b[i] >= 0x80 {
            assert(!all_ascii(b@));
            return b.len() as u64;
        }
        i = i + 1;
    }
    (b.len() as u64) | 0x8000_0000_0000_0000u64
}

/// The sum of two words, in a word.
pub fn plus(a: u64, b: u64) -> (r: u64)
    ensures
        r == (a + b) as u64,
{
    if a <= u64::MAX - b {
        a + b
    } else {
        assert(a > 0xffff_ffff_ffff_ffff - b ==> (a + b) as u64 == a - (0xffff_ffff_ffff_ffff - b)
            - 1) by (bit_vector);
        a - (u64::MAX - b) - 1
    }
}

/// The width of the widest copy that fits.
fn unit_of(left: u64) -> (r: u64)
    requires
        left > 0,
    ensures
        r == unit(left),
        0 < r <= left,
{
    if left >= 32 {
        32
    } else if left >= 24 {
        24
    } else if left >= 16 {
        16
    } else if left >= 8 {
        8
    } else if left >= 4 {
        4
    } else if left >= 2 {
        2
    } else {
        1
    }
}

/// The frame slot of a value of `w` bytes.
pub fn slot_of_width(w: u32) -> (r: u64)
    ensures
        r == slot_of(w),
        8 <= r <= 0x1_0000_0000,
{
    if w == 0 {
        8
    } else {
        (w as u64 + 7) / 8 * 8
    }
}

} // verus!
