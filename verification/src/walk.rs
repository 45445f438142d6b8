//! Reference counts: the walk over every counted block a value owns.
use vstd::prelude::*;

use crate::ir::Code;
use crate::ir::Program;
use crate::ir::Type;
use crate::select::Callee;
use crate::select::Emit;
use crate::select::Env;
use crate::select::Helper;
use crate::select::Item;
use crate::select::Op;
use crate::select::Ret;
use crate::select::Sel;
use crate::select::Src;
use crate::select::To;
use crate::select::H;
use crate::select::V;
use crate::text::own;
use crate::types::at_or;
use crate::types::ent;
use crate::types::EnumRepr;
use crate::types::FieldTy;
use crate::types::Repr;
use crate::types::Shape;
use crate::types::TypeInfo;

verus! {

/// How deep the walk goes before it refuses.
pub const RC_DEPTH: u32 = 8;

/// How many levels of a compound type are walked inline before the rest goes
/// through the type's own glue.
pub const RC_INLINE: u32 = 2;

/// The scratch word a runtime call leaves alone.
pub const SPARE_WORD: u64 = 27;

/// The first of the scratch words a comparison's answer lands in.
pub const RAW_WORD: u64 = 28;

/// Where the environment pointer sits inside a closure.
pub const ENV_WORD: u64 = 8;

/// Where the captured record sits inside an environment block.
pub const ENV_FIELDS: u64 = 16;

/// Where the copy function sits inside an environment block.
pub const ENV_COPY_WORD: u64 = 8;

impl Env {
    /// Whether one of some fields owns a counted block.
    pub open spec fn any_owned(self, fs: Seq<FieldTy>, i: int) -> bool
        decreases fs.len() - i,
    {
        if i >= fs.len() {
            false
        } else {
            fs[i].boxed || self.owns(fs[i].ty) || self.any_owned(fs, i + 1)
        }
    }

    /// Whether a type is a struct or an enum.
    pub open spec fn compound(self, ty: usize) -> bool {
        match self.layout(ty).repr {
            Repr::Aggregate => true,
            Repr::Enum { repr, variants } => true,
            _ => false,
        }
    }
}

/// What a walk past its depth is refused with.
pub open spec fn too_deep() -> Seq<char> {
    "a reference-counted type nested past the walk's depth"@
}

/// What a list layout on another type is refused with.
pub open spec fn not_a_list() -> Seq<char> {
    "a list layout on a type that is not one"@
}

impl Sel {
    /// The count of one block taken or given back. `glue` releases the block's
    /// contents once it dies.
    pub open spec fn rc_block(self, at: u64, retain: bool, glue: Option<usize>) -> Sel {
        if retain {
            self.emit("incref"@, seq![(H::A, V::I(at)), (H::Cont, V::Fall)])
        } else {
            match glue {
                Some(g) => self.emit(
                    "decref/drop"@,
                    seq![(H::A, V::I(at)), (H::M, V::Sym(g)), (H::Cont0, V::Fall)],
                ),
                None => self.emit("decref/free"@, seq![(H::A, V::I(at)), (H::Cont0, V::Fall)]),
            }
        }
    }

    /// The same, with the helper `h` as the glue where `wanted`.
    pub open spec fn rc_glued(self, at: u64, retain: bool, wanted: bool, h: Helper) -> Sel {
        if wanted {
            self.helper(h).rc_block(at, retain, Some(self.helper_index(h)))
        } else {
            self.rc_block(at, retain, None)
        }
    }

    /// The count of a boxed field: the field is the block's pointer.
    pub open spec fn rc_box(self, e: Env, at: u64, ty: usize, retain: bool) -> Sel {
        self.rc_glued(at, retain, !retain && e.owns(ty), Helper::Walk { ty, retain: false })
    }

    /// Every counted block of the value at `at`, and the refusal where there is
    /// one.
    pub open spec fn walk_rc(self, e: Env, ty: usize, at: u64, retain: bool, depth: nat) -> (
        Sel,
        Option<Seq<char>>,
    )
        decreases 9 - depth, 4nat, 0int,
    {
        if depth > RC_DEPTH {
            (self, Some(too_deep()))
        } else {
            match e.layout(ty).repr {
                Repr::Str => (self.rc_block(at, retain, None), None),
                Repr::List => match e.prog.tables.at(ty as int).shape {
                    Shape::Array(elem) => (
                        self.rc_glued(
                            at,
                            retain,
                            !retain && e.owns(elem),
                            Helper::Elems { ty: elem },
                        ),
                        None,
                    ),
                    _ => (self, Some(not_a_list())),
                },
                Repr::Closure => (
                    self.rc_glued((at + ENV_WORD) as u64, retain, !retain, Helper::EnvGlue),
                    None,
                ),
                Repr::Zero => (self, None),
                Repr::Scalar => (self, None),
                Repr::Aggregate => self.walk_fields(e, ty, at, retain, depth, 0),
                Repr::Enum { repr, variants } => match repr {
                    EnumRepr::Bare { tag } => (self, None),
                    EnumRepr::Tagged { tag } => {
                        let done = self.next();
                        let r = self.fresh().walk_variants(e, ty, at, retain, depth, tag, done, 0);
                        match r.1 {
                            Some(why) => r,
                            None => (r.0.place(done), None),
                        }
                    },
                    EnumRepr::Niche { null_at } => match e.prog.tables.at(ty as int).shape {
                        Shape::Con { args } => if args.len() > 0 && e.owns(args[0]) {
                            let skip = self.next();
                            let s = self.fresh().test_k(
                                e.arm("brcmp/eq/u64/fi"@, H::T),
                                (at + null_at) as u64,
                                0,
                                V::Blk(skip),
                                V::Fall,
                            );
                            let r = s.walk_rc(e, args[0], at, retain, depth + 1);
                            match r.1 {
                                Some(why) => r,
                                None => (r.0.place(skip), None),
                            }
                        } else {
                            (self, None)
                        },
                        _ => (self, None),
                    },
                },
            }
        }
    }

    /// The fields of a struct from field `i` on.
    pub open spec fn walk_fields(
        self,
        e: Env,
        ty: usize,
        at: u64,
        retain: bool,
        depth: nat,
        i: int,
    ) -> (Sel, Option<Seq<char>>)
        decreases 9 - depth, 2nat, e.prog.tables.at(ty as int).fields.len() - i,
    {
        let info = e.prog.tables.at(ty as int);
        if i >= info.fields.len() || i < 0 || depth > RC_DEPTH {
            (self, None)
        } else {
            let f = info.fields[i];
            let to = (at + at_or(info.layout.fields@, i, 0u32)) as u64;
            if f.boxed {
                self.rc_box(e, to, f.ty, retain).walk_fields(e, ty, at, retain, depth, i + 1)
            } else if !e.owns(f.ty) {
                self.walk_fields(e, ty, at, retain, depth, i + 1)
            } else {
                let r = self.walk_deep(e, f.ty, to, retain, depth);
                match r.1 {
                    Some(why) => r,
                    None => r.0.walk_fields(e, ty, at, retain, depth, i + 1),
                }
            }
        }
    }

    /// The variants of a tagged enum from variant `v` on, each behind a test of
    /// the tag.
    pub open spec fn walk_variants(
        self,
        e: Env,
        ty: usize,
        at: u64,
        retain: bool,
        depth: nat,
        tag: u32,
        done: usize,
        v: int,
    ) -> (Sel, Option<Seq<char>>)
        decreases 9 - depth, 3nat, e.layout(ty).width() - v,
    {
        if v >= e.layout(ty).width() || v < 0 || depth > RC_DEPTH {
            (self, None)
        } else {
            let fs = e.prog.tables.at(ty as int).variant(v);
            if !e.any_owned(fs, 0) {
                self.walk_variants(e, ty, at, retain, depth, tag, done, v + 1)
            } else {
                let next = self.next();
                let scr = e.word(SPARE_WORD as int);
                let s = self.fresh().load_w(scr, at, tag as u64).test_k(
                    e.arm("brcmp/eq/u64/fi"@, H::T),
                    scr,
                    v as u64,
                    V::Fall,
                    V::Blk(next),
                );
                let r = s.walk_payload(e, ty, at, retain, depth, v, 0);
                match r.1 {
                    Some(why) => r,
                    None => r.0.jump(V::Blk(done)).place(next).walk_variants(
                        e,
                        ty,
                        at,
                        retain,
                        depth,
                        tag,
                        done,
                        v + 1,
                    ),
                }
            }
        }
    }

    /// The payload fields of variant `v` from field `i` on.
    pub open spec fn walk_payload(
        self,
        e: Env,
        ty: usize,
        at: u64,
        retain: bool,
        depth: nat,
        v: int,
        i: int,
    ) -> (Sel, Option<Seq<char>>)
        decreases 9 - depth, 2nat, e.prog.tables.at(ty as int).variant(v).len() - i,
    {
        let info = e.prog.tables.at(ty as int);
        let fs = info.variant(v);
        if i >= fs.len() || i < 0 || depth > RC_DEPTH {
            (self, None)
        } else {
            let f = fs[i];
            let off = match info.layout.payload(v, i) {
                Some(o) => o,
                None => 0,
            };
            let to = (at + off) as u64;
            if f.boxed {
                self.rc_box(e, to, f.ty, retain).walk_payload(e, ty, at, retain, depth, v, i + 1)
            } else if !e.owns(f.ty) {
                self.walk_payload(e, ty, at, retain, depth, v, i + 1)
            } else {
                let r = self.walk_deep(e, f.ty, to, retain, depth);
                match r.1 {
                    Some(why) => r,
                    None => r.0.walk_payload(e, ty, at, retain, depth, v, i + 1),
                }
            }
        }
    }

    /// One step down: through the field's own glue where the field is compound
    /// and the walk is already deep, and inline otherwise.
    pub open spec fn walk_deep(self, e: Env, ty: usize, at: u64, retain: bool, depth: nat) -> (
        Sel,
        Option<Seq<char>>,
    )
        decreases 9 - depth, 1nat, 0int,
    {
        if depth > RC_DEPTH {
            (self, None)
        } else if e.compound(ty) && depth >= RC_INLINE {
            let h = Helper::Walk { ty, retain };
            let addr = e.word(RAW_WORD + 3);
            let s = self.helper(h).da("lea"@, addr, at).add(
                Item::Call {
                    to: To::Helper(self.helper_index(h)),
                    ints: seq![Src::Word(addr)],
                    floats: Seq::empty(),
                    dest: 0,
                    ret: Ret::Void,
                },
            );
            (s, None)
        } else {
            self.walk_rc(e, ty, at, retain, depth + 1)
        }
    }

    /// The walk, with its refusal recorded.
    pub open spec fn walk(self, e: Env, ty: usize, at: u64, retain: bool) -> Sel {
        let r = self.walk_rc(e, ty, at, retain, 0);
        match r.1 {
            Some(why) => r.0.unsupported(why),
            None => r.0,
        }
    }

    /// The counts of a value of the body.
    pub open spec fn rc(self, e: Env, code: Code, value: usize, retain: bool) -> Sel {
        match code.ty(value) {
            Type::Agg(id) => self.walk(e, id, e.at(value), retain),
            _ => self,
        }
    }

    /// The retain of a value that crosses a function value.
    pub open spec fn retain_value(self, e: Env, ty: usize, at: u64) -> Sel {
        if e.sw.no_counts {
            self
        } else {
            self.walk(e, ty, at, true)
        }
    }

    /// The same, where the type owns a counted block.
    pub open spec fn retain_counted(self, e: Env, ty: usize, at: u64) -> Sel {
        if e.owns(ty) {
            self.retain_value(e, ty, at)
        } else {
            self
        }
    }
}

/// A frame offset no walk of the given depth goes past.
pub open spec fn reach(depth: int) -> int {
    0x100_0000_0000 + depth * 0x1_0000_0000
}

impl<'a> Emit<'a> {
    /// The count of one block taken or given back.
    pub fn rc_block(&mut self, at: u64, retain: bool, glue: Option<usize>)
        ensures
            final(self)@ == old(self)@.rc_block(at, retain, glue),
            final(self).env() == old(self).env(),
    {
        if retain {
            self.emit("incref", vec![(H::A, V::I(at)), (H::Cont, V::Fall)]);
            return;
        }
        match glue {
            Some(g) => self.emit(
                "decref/drop",
                vec![(H::A, V::I(at)), (H::M, V::Sym(g)), (H::Cont0, V::Fall)],
            ),
            None => self.emit("decref/free", vec![(H::A, V::I(at)), (H::Cont0, V::Fall)]),
        }
    }

    fn rc_glued(&mut self, at: u64, retain: bool, wanted: bool, h: Helper)
        ensures
            final(self)@ == old(self)@.rc_glued(at, retain, wanted, h),
            final(self).env() == old(self).env(),
    {
        if wanted {
            let g: usize = self.helper(h);
            self.rc_block(at, retain, Some(g));
        } else {
            self.rc_block(at, retain, None);
        }
    }

    /// The count of a boxed field: the field is the block's pointer.
    pub fn rc_box(&mut self, at: u64, ty: usize, retain: bool)
        ensures
            final(self)@ == old(self)@.rc_box(old(self).env(), at, ty, retain),
            final(self).env() == old(self).env(),
    {
        let wanted: bool = !retain && self.rc_counted(ty);
        self.rc_glued(at, retain, wanted, Helper::Walk { ty, retain: false });
    }

    /// Whether a type is a struct or an enum.
    fn is_compound(&self, ty: usize) -> (r: bool)
        ensures
            r == self.env().compound(ty),
    {
        match &self.layout(ty).repr {
            Repr::Aggregate => true,
            Repr::Enum { repr, variants } => true,
            _ => false,
        }
    }

    /// Whether one of some fields owns a counted block.
    fn owns_any(&self, fs: &Vec<FieldTy>) -> (r: bool)
        ensures
            r == self.env().any_owned(fs@, 0),
    {
        let mut i: usize = 0;
        while i < fs.len()
            invariant
                i <= fs.len(),
                self.env().any_owned(fs@, 0) == self.env().any_owned(fs@, i as int),
            decreases fs.len() - i,
        {
            let f: FieldTy = fs[i];
            if f.boxed || self.rc_counted(f.ty) {
                return true;
            }
            i = i + 1;
        }
        false
    }

    /// Every counted block of the value at `at`.
    pub fn walk_rc(&mut self, ty: usize, at: u64, retain: bool, depth: u32) -> (r: Result<
        (),
        String,
    >)
        requires
            at <= reach(depth as int),
            depth <= 9,
        ensures
            final(self)@ == old(self)@.walk_rc(old(self).env(), ty, at, retain, depth as nat).0,
            match r {
                Ok(_) => old(self)@.walk_rc(
                    old(self).env(),
                    ty,
                    at,
                    retain,
                    depth as nat,
                ).1 is None,
                Err(why) => old(self)@.walk_rc(old(self).env(), ty, at, retain, depth as nat).1
                    == Some(why@),
            },
            final(self).env() == old(self).env(),
        decreases 9 - depth, 4nat, 0int,
    {
        if depth > RC_DEPTH {
            return Err(own("a reference-counted type nested past the walk's depth"));
        }
        let prog: &'a Program = self.prog;
        let info: &'a TypeInfo = prog.tables.info(ty);
        match &info.layout.repr {
            Repr::Str => {
                self.rc_block(at, retain, None);
                Ok(())
            },
            Repr::List => match &info.shape {
                Shape::Array(elem) => {
                    let wanted: bool = !retain && self.rc_counted(*elem);
                    self.rc_glued(at, retain, wanted, Helper::Elems { ty: *elem });
                    Ok(())
                },
                _ => Err(own("a list layout on a type that is not one")),
            },
            Repr::Closure => {
                self.rc_glued(at + ENV_WORD, retain, !retain, Helper::EnvGlue);
                Ok(())
            },
            Repr::Zero => Ok(()),
            Repr::Scalar => Ok(()),
            Repr::Aggregate => self.walk_fields(ty, at, retain, depth),
            Repr::Enum { repr, variants } => match repr {
                EnumRepr::Bare { tag } => Ok(()),
                EnumRepr::Tagged { tag } => self.tagged_rc(ty, at, retain, depth, *tag),
                EnumRepr::Niche { null_at } => self.niche_rc(ty, at, retain, depth, *null_at),
            },
        }
    }

    /// A niche enum: the payload's walk behind a test of the niche's pointer.
    fn niche_rc(&mut self, ty: usize, at: u64, retain: bool, depth: u32, null_at: u32) -> (r:
        Result<(), String>)
        requires
            at <= reach(depth as int),
            depth <= RC_DEPTH,
            old(self).env().layout(ty).tagging() == Some(EnumRepr::Niche { null_at }),
        ensures
            final(self)@ == old(self)@.walk_rc(old(self).env(), ty, at, retain, depth as nat).0,
            match r {
                Ok(_) => old(self)@.walk_rc(
                    old(self).env(),
                    ty,
                    at,
                    retain,
                    depth as nat,
                ).1 is None,
                Err(why) => old(self)@.walk_rc(old(self).env(), ty, at, retain, depth as nat).1
                    == Some(why@),
            },
            final(self).env() == old(self).env(),
        decreases 9 - depth, 3nat, 0int,
    {
        let prog: &'a Program = self.prog;
        let info: &'a TypeInfo = prog.tables.info(ty);
        let payload: usize = match &info.shape {
            Shape::Con { args } => if args.len() > 0 {
                args[0]
            } else {
                return Ok(());
            },
            _ => {
                return Ok(());
            },
        };
        if !self.rc_counted(payload) {
            return Ok(());
        }
        let skip: usize = self.label();
        let key: String = self.arm_key("brcmp/eq/u64/fi", H::T);
        self.test_k(key.as_str(), at + null_at as u64, 0, V::Blk(skip), V::Fall);
        match self.walk_rc(payload, at, retain, depth + 1) {
            Ok(_) => {
                self.place(skip);
                Ok(())
            },
            Err(why) => Err(why),
        }
    }

    /// A tagged enum: one arm per variant that owns something.
    fn tagged_rc(&mut self, ty: usize, at: u64, retain: bool, depth: u32, tag: u32) -> (r: Result<
        (),
        String,
    >)
        requires
            at <= reach(depth as int),
            depth <= RC_DEPTH,
            old(self).env().layout(ty).tagging() == Some(EnumRepr::Tagged { tag }),
        ensures
            final(self)@ == old(self)@.walk_rc(old(self).env(), ty, at, retain, depth as nat).0,
            match r {
                Ok(_) => old(self)@.walk_rc(
                    old(self).env(),
                    ty,
                    at,
                    retain,
                    depth as nat,
                ).1 is None,
                Err(why) => old(self)@.walk_rc(old(self).env(), ty, at, retain, depth as nat).1
                    == Some(why@),
            },
            final(self).env() == old(self).env(),
        decreases 9 - depth, 3nat, 0int,
    {
        let prog: &'a Program = self.prog;
        let info: &'a TypeInfo = prog.tables.info(ty);
        let done: usize = self.label();
        let n: usize = info.layout.variant_count();
        let ghost e = self.env();
        let ghost start = self@;
        let mut v: usize = 0;
        while v < n
            invariant
                v <= n,
                n == e.layout(ty).width(),
                *info == e.prog.tables.at(ty as int),
                self.env() == e,
                at <= reach(depth as int),
                depth <= RC_DEPTH,
                self@.walk_variants(e, ty, at, retain, depth as nat, tag, done, v as int)
                    == start.walk_variants(e, ty, at, retain, depth as nat, tag, done, 0),
                start == old(self)@.fresh(),
                done == old(self)@.next(),
                e == old(self).env(),
                old(self).env().layout(ty).tagging() == Some(EnumRepr::Tagged { tag }),
            decreases n - v,
        {
            let owned: bool = if v < info.variants.len() {
                self.owns_any(&info.variants[v])
            } else {
                false
            };
            if owned {
                let next: usize = self.label();
                let scr: u64 = self.word(SPARE_WORD);
                self.load_w(scr, at, tag as u64);
                let key: String = self.arm_key("brcmp/eq/u64/fi", H::T);
                self.test_k(key.as_str(), scr, v as u64, V::Fall, V::Blk(next));
                match self.walk_payload(ty, at, retain, depth, v) {
                    Ok(_) => {},
                    Err(why) => {
                        return Err(why);
                    },
                }
                self.jump(V::Blk(done));
                self.place(next);
            }
            v = v + 1;
        }
        self.place(done);
        Ok(())
    }

    /// The payload fields of variant `v`.
    fn walk_payload(&mut self, ty: usize, at: u64, retain: bool, depth: u32, v: usize) -> (r:
        Result<(), String>)
        requires
            at <= reach(depth as int),
            depth <= RC_DEPTH,
        ensures
            final(self)@ == old(self)@.walk_payload(
                old(self).env(),
                ty,
                at,
                retain,
                depth as nat,
                v as int,
                0,
            ).0,
            match r {
                Ok(_) => old(self)@.walk_payload(
                    old(self).env(),
                    ty,
                    at,
                    retain,
                    depth as nat,
                    v as int,
                    0,
                ).1 is None,
                Err(why) => old(self)@.walk_payload(
                    old(self).env(),
                    ty,
                    at,
                    retain,
                    depth as nat,
                    v as int,
                    0,
                ).1 == Some(why@),
            },
            final(self).env() == old(self).env(),
        decreases 9 - depth, 2nat, 0int,
    {
        let prog: &'a Program = self.prog;
        let info: &'a TypeInfo = prog.tables.info(ty);
        if v >= info.variants.len() {
            return Ok(());
        }
        let fs: &'a Vec<FieldTy> = &info.variants[v];
        let ghost e = self.env();
        let mut i: usize = 0;
        while i < fs.len()
            invariant
                i <= fs.len(),
                *info == e.prog.tables.at(ty as int),
                fs@ == info.variant(v as int),
                self.env() == e,
                e == old(self).env(),
                at <= reach(depth as int),
                depth <= RC_DEPTH,
                self@.walk_payload(e, ty, at, retain, depth as nat, v as int, i as int) == old(
                    self,
                )@.walk_payload(e, ty, at, retain, depth as nat, v as int, 0),
            decreases fs.len() - i,
        {
            let f: FieldTy = fs[i];
            let off: u32 = match info.layout.payload_field(v, i) {
                Some(o) => o,
                None => 0,
            };
            let to: u64 = at + off as u64;
            if f.boxed {
                self.rc_box(to, f.ty, retain);
            } else if self.rc_counted(f.ty) {
                match self.walk_deep(f.ty, to, retain, depth) {
                    Ok(_) => {},
                    Err(why) => {
                        return Err(why);
                    },
                }
            }
            i = i + 1;
        }
        Ok(())
    }

    /// The fields of a struct.
    fn walk_fields(&mut self, ty: usize, at: u64, retain: bool, depth: u32) -> (r: Result<
        (),
        String,
    >)
        requires
            at <= reach(depth as int),
            depth <= RC_DEPTH,
        ensures
            final(self)@ == old(self)@.walk_fields(
                old(self).env(),
                ty,
                at,
                retain,
                depth as nat,
                0,
            ).0,
            match r {
                Ok(_) => old(self)@.walk_fields(
                    old(self).env(),
                    ty,
                    at,
                    retain,
                    depth as nat,
                    0,
                ).1 is None,
                Err(why) => old(self)@.walk_fields(
                    old(self).env(),
                    ty,
                    at,
                    retain,
                    depth as nat,
                    0,
                ).1 == Some(why@),
            },
            final(self).env() == old(self).env(),
        decreases 9 - depth, 2nat, 0int,
    {
        let prog: &'a Program = self.prog;
        let info: &'a TypeInfo = prog.tables.info(ty);
        let ghost e = self.env();
        let mut i: usize = 0;
        while i < info.fields.len()
            invariant
                i <= info.fields.len(),
                *info == e.prog.tables.at(ty as int),
                self.env() == e,
                e == old(self).env(),
                at <= reach(depth as int),
                depth <= RC_DEPTH,
                self@.walk_fields(e, ty, at, retain, depth as nat, i as int) == old(
                    self,
                )@.walk_fields(e, ty, at, retain, depth as nat, 0),
            decreases info.fields.len() - i,
        {
            let f: FieldTy = info.fields[i];
            let to: u64 = at + ent(&info.layout.fields, i, 0) as u64;
            if f.boxed {
                self.rc_box(to, f.ty, retain);
            } else if self.rc_counted(f.ty) {
                match self.walk_deep(f.ty, to, retain, depth) {
                    Ok(_) => {},
                    Err(why) => {
                        return Err(why);
                    },
                }
            }
            i = i + 1;
        }
        Ok(())
    }

    /// One step down.
    fn walk_deep(&mut self, ty: usize, at: u64, retain: bool, depth: u32) -> (r: Result<
        (),
        String,
    >)
        requires
            at <= reach(depth as int + 1),
            depth <= RC_DEPTH,
        ensures
            final(self)@ == old(self)@.walk_deep(old(self).env(), ty, at, retain, depth as nat).0,
            match r {
                Ok(_) => old(self)@.walk_deep(
                    old(self).env(),
                    ty,
                    at,
                    retain,
                    depth as nat,
                ).1 is None,
                Err(why) => old(self)@.walk_deep(old(self).env(), ty, at, retain, depth as nat).1
                    == Some(why@),
            },
            final(self).env() == old(self).env(),
        decreases 9 - depth, 1nat, 0int,
    {
        if self.is_compound(ty) && depth >= RC_INLINE {
            let sym: usize = self.helper(Helper::Walk { ty, retain });
            let addr: u64 = self.word(RAW_WORD + 3);
            self.da("lea", addr, at);
            let ints: Vec<Src> = vec![Src::Word(addr)];
            assert(ints@ =~= seq![Src::Word(addr)]);
            self.add(
                Op::Call {
                    callee: Callee::Helper(sym),
                    ints,
                    floats: Vec::new(),
                    dest: 0,
                    ret: Ret::Void,
                },
            );
            return Ok(());
        }
        self.walk_rc(ty, at, retain, depth + 1)
    }

    /// The walk, with its refusal recorded.
    pub fn walk(&mut self, ty: usize, at: u64, retain: bool)
        requires
            at <= 0x100_0000_0000,
        ensures
            final(self)@ == old(self)@.walk(old(self).env(), ty, at, retain),
            final(self).env() == old(self).env(),
    {
        match self.walk_rc(ty, at, retain, 0) {
            Ok(_) => {},
            Err(why) => self.unsupported(why),
        }
    }

    /// The counts of a value of the body.
    pub fn rc(&mut self, code: &Code, value: usize, retain: bool)
        ensures
            final(self)@ == old(self)@.rc(old(self).env(), *code, value, retain),
            final(self).env() == old(self).env(),
    {
        match code.ty_of(value) {
            Type::Agg(id) => {
                let at: u64 = self.at(value);
                self.walk(id, at, retain);
            },
            _ => {},
        }
    }

    /// The retain of a value that crosses a function value.
    pub fn retain_value(&mut self, ty: usize, at: u64)
        requires
            at <= 0x100_0000_0000,
        ensures
            final(self)@ == old(self)@.retain_value(old(self).env(), ty, at),
            final(self).env() == old(self).env(),
    {
        if !self.sw.no_counts {
            self.walk(ty, at, true);
        }
    }

    /// The same, where the type owns a counted block.
    pub fn retain_counted(&mut self, ty: usize, at: u64)
        requires
            at <= 0x100_0000_0000,
        ensures
            final(self)@ == old(self)@.retain_counted(old(self).env(), ty, at),
            final(self).env() == old(self).env(),
    {
        if self.rc_counted(ty) {
            self.retain_value(ty, at);
        }
    }
}

} // verus!
