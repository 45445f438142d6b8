//! The bodies of intrinsic keys: at a call, and as a function of their own.
use vstd::prelude::*;

use crate::emit::concat_ctx;
use crate::emit::concat_parts;
use crate::emit::first_operand;
use crate::emit::operands_of;
use crate::ir::Code;
use crate::ir::Func;
use crate::ir::Inst;
use crate::ir::Program;
use crate::ir::Type;
use crate::keys::conversion_target;
use crate::keys::target_of;
use crate::lists::Operands;
use crate::numeric::bound_pattern;
use crate::numeric::pattern;
use crate::numeric::HASH_SEED;
use crate::prim::named;
use crate::prim::prim_of_name;
use crate::prim::prim_tag;
use crate::prim::tag_of;
use crate::prim::Prim;
use crate::select::Emit;
use crate::select::Env;
use crate::select::FrameSig;
use crate::select::Item;
use crate::select::Op;
use crate::select::Ret;
use crate::select::Sel;
use crate::select::Src;
use crate::select::H;
use crate::select::V;
use crate::text::after;
use crate::text::before;
use crate::text::begins;
use crate::text::dotted;
use crate::text::ends;
use crate::text::head;
use crate::text::join2;
use crate::text::join3;
use crate::text::join5;
use crate::text::own;
use crate::text::same;
use crate::text::split_dot;
use crate::text::strip_prefix;
use crate::text::strip_suffix;
use crate::text::tail;
use crate::types::at_or;
use crate::types::ent;

verus! {

/// The frame offset of parameter `i` of a function, or zero.
pub open spec fn param_at(params: Seq<u32>, i: int) -> u64 {
    at_or(params, i, 0u32) as u64
}

/// The frame offset of a function's first result, or zero.
pub open spec fn ret_at(rets: Seq<u32>) -> u64 {
    at_or(rets, 0, 0u32) as u64
}

/// A function's own parameters as operands.
pub open spec fn body_operands(at: Seq<u32>, params: Seq<Type>) -> Seq<(u32, Type)> {
    Seq::new(params.len(), |i: int| (at_or(at, i, 0u32), params[i]))
}

/// A function's first result as an operand.
pub open spec fn body_dest(at: Seq<u32>, rets: Seq<Type>) -> Option<(u32, Type)> {
    if rets.len() > 0 {
        Some((at_or(at, 0, 0u32), rets[0]))
    } else {
        None
    }
}

/// The strings of a concatenation that is a function's body, from parameter `i`
/// on.
pub open spec fn body_parts(params: Seq<u32>, n: int, i: int) -> Seq<u64>
    decreases n - i,
{
    if i >= n {
        Seq::empty()
    } else if concat_ctx(n) == Some(i) {
        body_parts(params, n, i + 1)
    } else {
        seq![param_at(params, i)] + body_parts(params, n, i + 1)
    }
}

/// The pointer and the length of every parameter, from parameter `i` on.
pub open spec fn text_args(params: Seq<u32>, len_at: u64, i: int) -> Seq<Src>
    decreases params.len() - i,
{
    if i >= params.len() {
        Seq::empty()
    } else {
        seq![
            Src::Word((param_at(params, i) + 8) as u64),
            Src::Word(len_at),
        ] + text_args(params, (len_at + 8) as u64, i + 1)
    }
}

/// The operation of a key `num.<T>.<op>`, with its type.
pub open spec fn num_op(key: Seq<char>) -> Option<(Prim, Seq<char>)> {
    if dotted(key) && head(key) == "num"@ && dotted(tail(key)) && !dotted(tail(tail(key))) {
        match named(head(tail(key))) {
            Some(p) => Some((p, tail(tail(key)))),
            None => None,
        }
    } else {
        None
    }
}

/// The name in a key `num.<name>.show`.
pub open spec fn shown_name(key: Seq<char>) -> Option<Seq<char>> {
    if begins(key, "num."@) && ends(after(key, "num."@), ".show"@) {
        Some(before(after(key, "num."@), ".show"@))
    } else {
        None
    }
}

impl Sel {
    /// The failure of an expectation, with the value rendered.
    pub open spec fn fail_shown(self, a: u64, b: u64, scratch: u64) -> Sel {
        let s1 = (scratch + 8) as u64;
        self.str_arg(a, scratch).str_arg(b, s1).c_call(
            "buri_rt_test_fail_expected"@,
            seq![
                Src::Word((a + 8) as u64),
                Src::Word(scratch),
                Src::Word((b + 8) as u64),
                Src::Word(s1),
            ],
            Seq::empty(),
            0,
            Ret::Void,
        )
    }

    /// An intrinsic call.
    pub open spec fn intrinsic(
        self,
        e: Env,
        code: Code,
        dests: Seq<usize>,
        key: Seq<char>,
        args: Seq<usize>,
    ) -> Sel {
        let scr = e.word(0);
        let d = e.arg(dests, 0);
        if key == "testing_assert.report"@ {
            self.report(e, e.arg(args, 0), e.arg(args, 1), scr)
        } else if key == "testing_assert.failWith"@ {
            self.abort_with("buri_rt_abort"@, e.arg(args, 0), scr)
        } else if key == "testing_assert.failExpectedShown"@ {
            self.fail_shown(e.arg(args, 0), e.arg(args, 1), scr)
        } else if key == "testing_assert.failExpected"@ {
            self.abort_with("buri_rt_abort_assert"@, e.arg(args, 0), scr)
        } else if key == "testing_assert.reportShown"@ {
            self.report_shown(e.arg(args, 0), e.arg(args, 1), e.arg(args, 2), scr)
        } else if key == "list.empty"@ {
            if dests.len() > 0 {
                self.imm_to(d, 0).imm_to((d + 8) as u64, 0)
            } else {
                self
            }
        } else if key == "testing_context.alloc"@ || key == "host_testing.alloc"@ {
            if dests.len() > 0 {
                self.imm_to(d, 0)
            } else {
                self
            }
        } else if key == "testing_context.TestAlloc.allocate"@ || key
            == "host_testing.TestAlloc.allocate"@ {
            if dests.len() > 0 && args.len() > 1 {
                self.mv(d, e.at(args[1]), 8)
            } else {
                self
            }
        } else if key == "str.concat"@ {
            if dests.len() > 0 {
                self.add(Item::Concat { parts: concat_parts(e, args, 0), dest: d })
            } else {
                self
            }
        } else {
            self.intrinsic_other(e, code, dests, key, args)
        }
    }

    /// An intrinsic call that is a loop, a trait leaf, a bit operation, a
    /// derived leaf, or an entry of the runtime: the first of these that it is.
    pub open spec fn intrinsic_other(
        self,
        e: Env,
        code: Code,
        dests: Seq<usize>,
        key: Seq<char>,
        args: Seq<usize>,
    ) -> Sel {
        match e.loop_of_call(code, dests, key, args) {
            Some(p) => self.list_loop(e, p),
            None => {
                let r = self.intrinsic_leaf(e, code, dests, key, args);
                if r.1 {
                    r.0
                } else {
                    self.intrinsic_derived(e, code, dests, key, args)
                }
            },
        }
    }

    /// The list operations, the trait leaves and the bit operations, which all
    /// have a destination, and whether the call is one.
    pub open spec fn intrinsic_leaf(
        self,
        e: Env,
        code: Code,
        dests: Seq<usize>,
        key: Seq<char>,
        args: Seq<usize>,
    ) -> (Sel, bool) {
        match first_operand(e, code, dests) {
            None => (self, false),
            Some(dest) => {
                let x = self.list_extra(e, key, operands_of(e, code, args), dest);
                if x.1 {
                    x
                } else {
                    let tag = match dest.1 {
                        Type::Agg(id) => Some(e.layout(id).tag()),
                        _ => None,
                    };
                    let t = self.prim_trait_at(
                        e,
                        key,
                        dest.0 as u64,
                        e.arg(args, 0),
                        e.arg(args, 1),
                        tag,
                    );
                    if t.1 {
                        t
                    } else {
                        self.bits_at(
                            e,
                            key,
                            dest.0 as u64,
                            e.arg(args, 0),
                            if args.len() > 1 {
                                Some(e.at(args[1]))
                            } else {
                                None
                            },
                        )
                    }
                }
            },
        }
    }

    /// The derived leaves, the entries of the runtime, and the refusal of
    /// anything else.
    pub open spec fn intrinsic_derived(
        self,
        e: Env,
        code: Code,
        dests: Seq<usize>,
        key: Seq<char>,
        args: Seq<usize>,
    ) -> Sel {
        if begins(key, "derivePrimHash."@) {
            if dests.len() == 0 {
                self
            } else {
                match named(after(key, "derivePrimHash."@)) {
                    Some(p) => self.hash_prim(
                        e,
                        p,
                        e.arg(args, 0),
                        e.arg(args, 1),
                        e.at(dests[0]),
                    ),
                    None => self.unsupported(key),
                }
            }
        } else if begins(key, "derivePrimShow."@) {
            if dests.len() == 0 {
                self
            } else {
                match named(after(key, "derivePrimShow."@)) {
                    Some(p) => self.add(
                        Item::Show {
                            prim: p,
                            src: e.arg(args, 0),
                            dest: e.at(dests[0]),
                            quoted: true,
                        },
                    ),
                    None => self.unsupported(key),
                }
            }
        } else if begins(key, "derivePrimJson."@) {
            if dests.len() == 0 || args.len() == 0 {
                self
            } else {
                match named(after(key, "derivePrimJson."@)) {
                    Some(p) => {
                        let r = self.json_prim(e, code, p, args[0], dests[0]);
                        match r.1 {
                            Some(why) => r.0.unsupported(why),
                            None => r.0,
                        }
                    },
                    None => self.unsupported(key),
                }
            }
        } else if e.prog.tables.entry(key) {
            self.add(
                Item::Entry {
                    key,
                    dest: first_operand(e, code, dests),
                    args: operands_of(e, code, args),
                },
            )
        } else {
            self.unsupported("CallIntrinsic "@ + key)
        }
    }

    /// The answer where it was refused, and the end of the body.
    pub open spec fn ret_or_refuse(self, why: Option<Seq<char>>) -> Sel {
        match why {
            Some(w) => self.unsupported(w),
            None => self.ret(),
        }
    }

    /// The end of a body, with a refusal before it where it has no code.
    pub open spec fn ret_if(self, done: bool, key: Seq<char>) -> Sel {
        if done {
            self.ret()
        } else {
            self.unsupported("Body::Runtime "@ + key).ret()
        }
    }

    /// The lengths of every parameter, from parameter `i` on.
    pub open spec fn text_lens(self, params: Seq<u32>, len_at: u64, i: int) -> Sel
        decreases params.len() - i,
    {
        if i >= params.len() {
            self
        } else {
            self.str_arg(param_at(params, i), len_at).text_lens(
                params,
                (len_at + 8) as u64,
                i + 1,
            )
        }
    }

    /// The body of a runtime function.
    pub open spec fn runtime_body(self, e: Env, fi: usize, key: Seq<char>) -> Sel {
        let f = e.frame_of(fi);
        let end = f.param_end as u64;
        if key == "testing_assert.report"@ {
            self.report(e, param_at(f.params@, 0), param_at(f.params@, 1), end).ret()
        } else if key == "testing_assert.failExpected"@ {
            self.abort_with("buri_rt_abort_assert"@, param_at(f.params@, 0), end).ret()
        } else if key == "testing_assert.failWith"@ || key == "testing_assert.failExpectedShown"@ {
            self.text_lens(f.params@, end, 0).c_call(
                if key == "testing_assert.failWith"@ {
                    "buri_rt_abort"@
                } else {
                    "buri_rt_test_fail_expected"@
                },
                text_args(f.params@, end, 0),
                Seq::empty(),
                0,
                Ret::Void,
            ).ret()
        } else if key == "testing_assert.reportShown"@ {
            self.report_shown(param_at(f.params@, 0), param_at(f.params@, 1), param_at(f.params@, 2), end).ret()
        } else {
            match shown_name(key) {
                Some(t) => match named(t) {
                    Some(p) => self.add(
                        Item::Show {
                            prim: p,
                            src: param_at(f.params@, 0),
                            dest: ret_at(f.ret@),
                            quoted: true,
                        },
                    ).ret(),
                    None => self.unsupported("num."@ + t + ".show"@),
                },
                None => {
                    let r = match num_op(key) {
                        Some(o) => self.numeric_body(e, fi, key, o.0, o.1),
                        None => (self, false),
                    };
                    if r.1 {
                        r.0
                    } else {
                        self.general_body(e, fi, key)
                    }
                },
            }
        }
    }

    /// The body of a numeric operation, and whether the operation has one.
    pub open spec fn numeric_body(
        self,
        e: Env,
        fi: usize,
        key: Seq<char>,
        p: Prim,
        op: Seq<char>,
    ) -> (Sel, bool) {
        let f = e.frame_of(fi);
        let p0 = param_at(f.params@, 0);
        let p1 = param_at(f.params@, 1);
        let d = ret_at(f.ret@);
        let refused = "Body::Runtime "@ + key;
        if op == "minValue"@ || op == "maxValue"@ {
            match pattern(p, op == "minValue"@) {
                Some(v) => (self.imm_num(d, p, v).ret(), true),
                None => (self.unsupported(refused), true),
            }
        } else if target_of(op) is Some {
            let to = target_of(op)->0;
            let exact = e.ret_agg(fi) is None && (begins(op, "wrapTo"@)
                || e.prog.tables.exact@.contains((p, to)) || op == "toChar"@);
            let r = if exact {
                self.convert(e, p, to, p0, d)
            } else {
                self.convert_checked(e, fi, p, to, p0, d)
            };
            (r.0.ret_or_refuse(r.1), true)
        } else if op == "hash"@ {
            let seed = f.param_end as u64;
            let s = self.imm_to(seed, HASH_SEED);
            if p == Prim::F32 {
                (s.unsupported(refused), true)
            } else if p == Prim::F64 {
                (
                    s.c_call(
                        "buri_rt_hash_f64"@,
                        seq![Src::Word(seed)],
                        seq![Src::Word(p0)],
                        d,
                        Ret::Int,
                    ).ret(),
                    true,
                )
            } else {
                (
                    s.c_call(
                        "buri_rt_mix"@,
                        seq![Src::Word(seed), Src::Word(p0)],
                        Seq::empty(),
                        d,
                        Ret::Int,
                    ).ret(),
                    true,
                )
            }
        } else if begins(op, "checked"@) {
            let r = self.checked(e, fi, p, after(op, "checked"@), p0, p1, d);
            (r.0.ret_if(r.1, key), true)
        } else if begins(op, "saturating"@) {
            let r = self.saturating(e, p, after(op, "saturating"@), p0, p1, d);
            (r.0.ret_if(r.1, key), true)
        } else if begins(op, "wrapping"@) {
            let r = self.wrapping(e, p, after(op, "wrapping"@), p0, p1, d);
            (r.0.ret_if(r.1, key), true)
        } else if op == "abs"@ || op == "signum"@ {
            let r = self.abs_signum(e, p, op == "abs"@, p0, d);
            (r.0.ret_if(r.1, key), true)
        } else if op == "compare"@ {
            match e.ret_tag(fi) {
                Some(w) => (self.compare_prim(e, p, p0, p1, d, w).ret(), true),
                None => (self.unsupported(refused), true),
            }
        } else {
            self.plain_body(e, fi, p, op)
        }
    }

    /// The body of an operation that is one stencil, and whether there is one.
    pub open spec fn plain_body(self, e: Env, fi: usize, p: Prim, op: Seq<char>) -> (Sel, bool) {
        let f = e.frame_of(fi);
        let p0 = param_at(f.params@, 0);
        let p1 = param_at(f.params@, 1);
        let d = ret_at(f.ret@);
        match tag_of(p) {
            None => (self, false),
            Some(t) => {
                let key = "bin/"@ + op + "/"@ + t.0 + "/ff/f"@;
                if fi < e.prog.funcs.len() && e.prog.funcs[fi as int].rets.len() == 1 && e.has(key)
                    && f.params@.len() == 2 {
                    (
                        self.emit(
                            key,
                            seq![
                                (H::A, V::I(p0)),
                                (H::B, V::I(p1)),
                                (H::D, V::I(d)),
                                (H::Cont, V::Fall),
                                (H::Cont0, V::Fall),
                            ],
                        ).ret(),
                        true,
                    )
                } else if op == "neg"@ && f.params@.len() == 1 {
                    (self.da("un/neg/"@ + t.0 + "/f/f"@, d, p0).ret(), true)
                } else {
                    (self, false)
                }
            },
        }
    }

    /// The body of anything that is not an assertion or a numeric operation.
    pub open spec fn general_body(self, e: Env, fi: usize, key: Seq<char>) -> Sel {
        match e.loop_of_body(fi, key) {
            Some(p) => self.list_loop(e, p).ret(),
            None => {
                let r = self.extra_body(e, fi, key);
                if r.1 {
                    r.0.ret()
                } else if fi < e.prog.funcs.len() && e.prog.tables.entry(key) {
                    let f = e.frame_of(fi);
                    let g = e.prog.funcs[fi as int];
                    self.add(
                        Item::Entry {
                            key,
                            dest: body_dest(f.ret@, g.rets@),
                            args: body_operands(f.params@, g.params@),
                        },
                    ).ret()
                } else {
                    self.last_body(e, fi, key)
                }
            },
        }
    }

    /// The body of a list operation whose answer is not one carried value, and
    /// whether the key is of one.
    pub open spec fn extra_body(self, e: Env, fi: usize, key: Seq<char>) -> (Sel, bool) {
        let f = e.frame_of(fi);
        if fi < e.prog.funcs.len() && f.ret@.len() > 0 && e.prog.funcs[fi as int].rets.len() > 0 {
            let g = e.prog.funcs[fi as int];
            self.list_extra(
                e,
                key,
                body_operands(f.params@, g.params@),
                (f.ret@[0], g.rets[0]),
            )
        } else {
            (self, false)
        }
    }

    /// The body of the keys that are a few instructions, and the refusal of
    /// anything else.
    pub open spec fn last_body(self, e: Env, fi: usize, key: Seq<char>) -> Sel {
        let f = e.frame_of(fi);
        let p0 = param_at(f.params@, 0);
        let p1 = param_at(f.params@, 1);
        let d = ret_at(f.ret@);
        let end = f.param_end as u64;
        if key == "str.eq"@ || key == "str.compare"@ {
            self.add(
                Item::StrCompare {
                    symbol: if key == "str.eq"@ {
                        "buri_rt_str_eq"@
                    } else {
                        "buri_rt_str_compare"@
                    },
                    a: p0,
                    b: p1,
                    dest: d,
                },
            ).ret()
        } else if key == "str.len"@ {
            self.str_arg(p0, end).c_call(
                "buri_rt_str_scalar_len"@,
                seq![Src::Word((p0 + 8) as u64), Src::Word(end)],
                Seq::empty(),
                d,
                Ret::Int,
            ).ret()
        } else if key == "testing_context.alloc"@ || key == "host_testing.alloc"@ {
            self.imm_to(d, 0).ret()
        } else if key == "testing_context.TestAlloc.allocate"@ || key
            == "host_testing.TestAlloc.allocate"@ {
            self.mv(d, p1, 8).ret()
        } else if key == "list.len"@ {
            self.mv(d, (p0 + 8) as u64, 8).ret()
        } else if key == "str.format"@ {
            if f.params@.len() == 0 {
                self.unsupported("Body::Runtime str.format with no argument"@).ret()
            } else {
                let s = self.mv(d, param_at(f.params@, f.params@.len() - 1), 24);
                (if e.sw.no_counts {
                    s
                } else {
                    s.rc_block(d, true, None)
                }).ret()
            }
        } else if key == "list.empty"@ {
            self.imm_to(d, 0).imm_to((d + 8) as u64, 0).ret()
        } else {
            let t = self.prim_trait_at(e, key, d, p0, p1, Some(e.ret_tag(fi)));
            if t.1 {
                t.0.ret()
            } else {
                let b = self.bits_at(
                    e,
                    key,
                    d,
                    p0,
                    if f.params@.len() > 1 {
                        Some(p1)
                    } else {
                        None
                    },
                );
                if b.1 {
                    b.0.ret()
                } else if key == "str.concat"@ {
                    let n = if fi < e.prog.funcs.len() {
                        e.prog.funcs[fi as int].params.len() as int
                    } else {
                        0
                    };
                    self.add(Item::Concat { parts: body_parts(f.params@, n, 0), dest: d }).ret()
                } else {
                    self.ret_if(false, key)
                }
            }
        }
    }

    /// One instruction.
    pub open spec fn inst(self, e: Env, code: Code, i: Inst) -> Sel {
        match i {
            Inst::Const { dest, value } => self.constant(e, e.at(dest), code.ty(dest), value),
            Inst::Unary { dest, op, prim, arg } => self.unary(e, dest, op, prim, arg),
            Inst::Binary { dest, op, prim, lhs, rhs } => self.binary(e, dest, op, prim, lhs, rhs),
            Inst::Call { dests, func, args } => self.call(e, code, dests@, func, args@),
            Inst::CallIndirect { dests, callee, args } => self.call_indirect(
                e,
                code,
                dests@,
                callee,
                args@,
            ),
            Inst::CallIntrinsic { dests, key, args } => self.intrinsic(
                e,
                code,
                dests@,
                key@,
                args@,
            ),
            Inst::MakeStruct { dest, fields } => self.make_struct(e, code, dest, fields@),
            Inst::GetField { dest, agg, index } => self.get_field(e, code, dest, agg, index),
            Inst::MakeEnum { dest, variant, fields } => self.make_enum(
                e,
                code,
                dest,
                variant,
                fields@,
            ),
            Inst::GetPayload { dest, agg, variant, index } => self.get_payload(
                e,
                code,
                dest,
                agg,
                variant,
                index,
            ),
            Inst::GetTag { dest, agg } => self.get_tag(e, code, dest, agg),
            Inst::MakeClosure { dest, func, env } => self.make_closure(e, code, dest, func, env),
            Inst::IncRef { value } => self.rc(e, code, value, true),
            Inst::DecRef { value, drop } => self.rc(e, code, value, false),
            Inst::Abort { message } => self.abort(vstd::utf8::encode_utf8(message@)),
            Inst::MakeArray { dest, elems } => self.make_array(e, code, dest, elems@),
            Inst::ArrayGet { dest, array, index } => self.array_get(e, code, dest, array, index),
            Inst::ArrayLen { dest, array } => self.mv(e.at(dest), (e.at(array) + 8) as u64, 8),
            Inst::ArraySlice { dest, array, from } => self.array_slice(
                e,
                code,
                dest,
                array,
                from,
            ),
            Inst::Derived { dest, op, ty, args } => self.structural(
                e,
                code,
                dest,
                op,
                ty,
                args@,
            ),
        }
    }
}

impl<'a> Emit<'a> {
    /// The frame offset of argument `i`, or zero.
    fn arg(&self, args: &Vec<usize>, i: usize) -> (r: u64)
        ensures
            r == self.env().arg(args@, i as int),
            r <= 0xffff_ffff,
    {
        if i < args.len() {
            self.at(args[i])
        } else {
            0
        }
    }

    fn fail_shown(&mut self, a: u64, b: u64, scratch: u64)
        requires
            a <= 0xffff_ffff,
            b <= 0xffff_ffff,
            scratch <= 0xffff_ffff,
        ensures
            final(self)@ == old(self)@.fail_shown(a, b, scratch),
            final(self).env() == old(self).env(),
    {
        self.add(Op::StrLen { at: a, scratch });
        self.add(Op::StrLen { at: b, scratch: scratch + 8 });
        self.c_call(
            "buri_rt_test_fail_expected",
            vec![
                Src::Word(a + 8),
                Src::Word(scratch),
                Src::Word(b + 8),
                Src::Word(scratch + 8),
            ],
            Vec::new(),
            0,
            Ret::Void,
        );
    }

    fn concat_parts(&self, args: &Vec<usize>) -> (r: Vec<u64>)
        ensures
            r@ == concat_parts(self.env(), args@, 0),
    {
        let ghost all = concat_parts(self.env(), args@, 0);
        let mut out: Vec<u64> = Vec::new();
        let mut i: usize = 0;
        while i < args.len()
            invariant
                i <= args.len(),
                all == out@ + concat_parts(self.env(), args@, i as int),
            decreases args.len() - i,
        {
            let ghost before = out@;
            let ghost next = concat_parts(self.env(), args@, i as int + 1);
            if !(args.len() == 3 && i == 1) {
                let at: u64 = self.at(args[i]);
                out.push(at);
                assert(all =~= before + (seq![at] + next));
            }
            assert(all =~= out@ + next);
            i = i + 1;
        }
        assert(all =~= out@);
        out
    }

    /// An intrinsic call.
    #[verifier::rlimit(40)]
    pub fn intrinsic(&mut self, code: &Code, dests: &Vec<usize>, key: &str, args: &Vec<usize>)
        ensures
            final(self)@ == old(self)@.intrinsic(old(self).env(), *code, dests@, key@, args@),
            final(self).env() == old(self).env(),
    {
        let scr: u64 = self.word(0);
        let d: u64 = self.arg(dests, 0);
        let a0: u64 = self.arg(args, 0);
        let a1: u64 = self.arg(args, 1);
        if same(key, "testing_assert.report") {
            self.report(a0, a1, scr);
        } else if same(key, "testing_assert.failWith") {
            self.abort_with("buri_rt_abort", a0, scr);
        } else if same(key, "testing_assert.failExpectedShown") {
            self.fail_shown(a0, a1, scr);
        } else if same(key, "testing_assert.failExpected") {
            self.abort_with("buri_rt_abort_assert", a0, scr);
        } else if same(key, "testing_assert.reportShown") {
            let a2: u64 = self.arg(args, 2);
            self.report_shown(a0, a1, a2, scr);
        } else if same(key, "list.empty") {
            if dests.len() > 0 {
                self.imm_to(d, 0);
                self.imm_to(d + 8, 0);
            }
        } else if same(key, "testing_context.alloc") || same(key, "host_testing.alloc") {
            if dests.len() > 0 {
                self.imm_to(d, 0);
            }
        } else if same(key, "testing_context.TestAlloc.allocate") || same(
            key,
            "host_testing.TestAlloc.allocate",
        ) {
            if dests.len() > 0 && args.len() > 1 {
                self.mv(d, a1, 8);
            }
        } else if same(key, "str.concat") {
            if dests.len() > 0 {
                let parts: Vec<u64> = self.concat_parts(args);
                self.add(Op::Concat { parts, dest: d });
            }
        } else {
            self.intrinsic_other(code, dests, key, args);
        }
    }

    fn call_operands(&self, code: &Code, args: &Vec<usize>) -> (r: Vec<(u32, Type)>)
        ensures
            r@ == operands_of(self.env(), *code, args@),
    {
        let mut out: Vec<(u32, Type)> = Vec::new();
        let mut i: usize = 0;
        while i < args.len()
            invariant
                i <= args.len(),
                out.len() == i,
                forall|j: int|
                    0 <= j < i ==> #[trigger] out[j] == (
                        self.env().at(args[j]) as u32,
                        code.ty(args[j]),
                    ),
            decreases args.len() - i,
        {
            out.push((self.st.at(args[i]), code.ty_of(args[i])));
            i = i + 1;
        }
        assert(out@ =~= operands_of(self.env(), *code, args@));
        out
    }

    fn intrinsic_other(&mut self, code: &Code, dests: &Vec<usize>, key: &str, args: &Vec<usize>)
        ensures
            final(self)@ == old(self)@.intrinsic_other(
                old(self).env(),
                *code,
                dests@,
                key@,
                args@,
            ),
            final(self).env() == old(self).env(),
    {
        if self.list_loop(code, dests, key, args) {
            return;
        }
        if self.intrinsic_leaf(code, dests, key, args) {
            return;
        }
        self.intrinsic_derived(code, dests, key, args);
    }

    fn intrinsic_leaf(
        &mut self,
        code: &Code,
        dests: &Vec<usize>,
        key: &str,
        args: &Vec<usize>,
    ) -> (r: bool)
        ensures
            (final(self)@, r) == old(self)@.intrinsic_leaf(
                old(self).env(),
                *code,
                dests@,
                key@,
                args@,
            ),
            !r ==> final(self)@ == old(self)@,
            final(self).env() == old(self).env(),
    {
        if dests.len() == 0 {
            return false;
        }
        let dest: (u32, Type) = (self.st.at(dests[0]), code.ty_of(dests[0]));
        let o: Operands = Operands { args: self.call_operands(code, args), dest };
        if self.list_extra(key, &o) {
            return true;
        }
        let tag: Option<Option<u32>> = match dest.1 {
            Type::Agg(id) => Some(self.layout(id).tag_width()),
            _ => None,
        };
        let a0: u64 = self.arg(args, 0);
        let a1: u64 = self.arg(args, 1);
        if self.prim_trait_at(key, dest.0 as u64, a0, a1, tag) {
            return true;
        }
        let count: Option<u64> = if args.len() > 1 {
            Some(a1)
        } else {
            None
        };
        self.bits_at(key, dest.0 as u64, a0, count)
    }

    fn intrinsic_derived(
        &mut self,
        code: &Code,
        dests: &Vec<usize>,
        key: &str,
        args: &Vec<usize>,
    )
        ensures
            final(self)@ == old(self)@.intrinsic_derived(
                old(self).env(),
                *code,
                dests@,
                key@,
                args@,
            ),
            final(self).env() == old(self).env(),
    {
        let a0: u64 = self.arg(args, 0);
        let a1: u64 = self.arg(args, 1);
        let d: u64 = self.arg(dests, 0);
        match strip_prefix(key, "derivePrimHash.") {
            Some(t) => {
                if dests.len() > 0 {
                    match prim_of_name(t.as_str()) {
                        Some(p) => self.hash_prim(p, a0, a1, d),
                        None => self.unsupported(own(key)),
                    }
                }
                return;
            },
            None => {},
        }
        match strip_prefix(key, "derivePrimShow.") {
            Some(t) => {
                if dests.len() > 0 {
                    match prim_of_name(t.as_str()) {
                        Some(p) => self.add(
                            Op::Show { prim: p, src: a0, dest: d, quoted: true },
                        ),
                        None => self.unsupported(own(key)),
                    }
                }
                return;
            },
            None => {},
        }
        match strip_prefix(key, "derivePrimJson.") {
            Some(t) => {
                if dests.len() > 0 && args.len() > 0 {
                    match prim_of_name(t.as_str()) {
                        Some(p) => match self.json_prim(code, p, args[0], dests[0]) {
                            Ok(_) => {},
                            Err(why) => self.unsupported(why),
                        },
                        None => self.unsupported(own(key)),
                    }
                }
                return;
            },
            None => {},
        }
        if self.prog.tables.has_entry(key) {
            let dest: Option<(u32, Type)> = if dests.len() > 0 {
                Some((self.st.at(dests[0]), code.ty_of(dests[0])))
            } else {
                None
            };
            let list: Vec<(u32, Type)> = self.call_operands(code, args);
            self.add(Op::Entry { key: own(key), dest, args: list });
        } else {
            let why: String = join2("CallIntrinsic ", key);
            self.unsupported(why);
        }
    }

    fn ret_if(&mut self, done: bool, key: &str)
        ensures
            final(self)@ == old(self)@.ret_if(done, key@),
            final(self).env() == old(self).env(),
    {
        if !done {
            let why: String = join2("Body::Runtime ", key);
            self.unsupported(why);
        }
        self.ret();
    }

    fn text_body(&mut self, symbol: &str, fs: &FrameSig)
        ensures
            final(self)@ == old(self)@.text_lens(fs.params@, fs.param_end as u64, 0).c_call(
                symbol@,
                text_args(fs.params@, fs.param_end as u64, 0),
                Seq::empty(),
                0,
                Ret::Void,
            ).ret(),
            final(self).env() == old(self).env(),
    {
        let ghost all = text_args(fs.params@, fs.param_end as u64, 0);
        let mut ints: Vec<Src> = Vec::new();
        let mut i: usize = 0;
        let mut len_at: u64 = fs.param_end as u64;
        while i < fs.params.len()
            invariant
                i <= fs.params.len(),
                all == ints@ + text_args(fs.params@, len_at, i as int),
                self.env() == old(self).env(),
                self@.text_lens(fs.params@, len_at, i as int) == old(self)@.text_lens(
                    fs.params@,
                    fs.param_end as u64,
                    0,
                ),
            decreases fs.params.len() - i,
        {
            let at: u64 = fs.params[i] as u64;
            let ghost before = ints@;
            let ghost next = text_args(fs.params@, (len_at + 8) as u64, i as int + 1);
            self.add(Op::StrLen { at, scratch: len_at });
            ints.push(Src::Word(at + 8));
            ints.push(Src::Word(len_at));
            proof {
                assert(all =~= before + (seq![
                    Src::Word((at + 8) as u64),
                    Src::Word(len_at),
                ] + next));
                assert(all =~= ints@ + next);
            }
            len_at = crate::select::plus(len_at, 8);
            i = i + 1;
        }
        assert(all =~= ints@);
        self.c_call(symbol, ints, Vec::new(), 0, Ret::Void);
        self.ret();
    }

    /// The body of a runtime function.
    #[verifier::rlimit(40)]
    pub fn runtime_body(&mut self, fi: usize, key: &str)
        ensures
            final(self)@ == old(self)@.runtime_body(old(self).env(), fi, key@),
            final(self).env() == old(self).env(),
    {
        let fs: FrameSig = self.frame_sig_of(fi);
        let end: u64 = fs.param_end as u64;
        let p0: u64 = ent(&fs.params, 0, 0) as u64;
        let p1: u64 = ent(&fs.params, 1, 0) as u64;
        if same(key, "testing_assert.report") {
            self.report(p0, p1, end);
            self.ret();
            return;
        }
        if same(key, "testing_assert.failExpected") {
            self.abort_with("buri_rt_abort_assert", p0, end);
            self.ret();
            return;
        }
        if same(key, "testing_assert.failWith") {
            self.text_body("buri_rt_abort", &fs);
            return;
        }
        if same(key, "testing_assert.failExpectedShown") {
            proof {
                reveal_strlit("testing_assert.failExpectedShown");
                reveal_strlit("testing_assert.failWith");
                assert("testing_assert.failExpectedShown"@.len()
                    != "testing_assert.failWith"@.len());
            }
            self.text_body("buri_rt_test_fail_expected", &fs);
            return;
        }
        if same(key, "testing_assert.reportShown") {
            let p2: u64 = ent(&fs.params, 2, 0) as u64;
            self.report_shown(p0, p1, p2, end);
            self.ret();
            return;
        }
        match strip_prefix(key, "num.") {
            Some(rest) => match strip_suffix(rest.as_str(), ".show") {
                Some(t) => {
                    match prim_of_name(t.as_str()) {
                        Some(p) => {
                            let d: u64 = ent(&fs.ret, 0, 0) as u64;
                            self.add(Op::Show { prim: p, src: p0, dest: d, quoted: true });
                            self.ret();
                        },
                        None => {
                            let why: String = join3("num.", t.as_str(), ".show");
                            self.unsupported(why);
                        },
                    }
                    return;
                },
                None => {},
            },
            None => {},
        }
        match num_op_of(key) {
            Some((p, op)) => {
                if self.numeric_body(fi, key, p, op.as_str()) {
                    return;
                }
            },
            None => {},
        }
        self.general_body(fi, key);
    }

    fn numeric_body(&mut self, fi: usize, key: &str, p: Prim, op: &str) -> (r: bool)
        ensures
            (final(self)@, r) == old(self)@.numeric_body(old(self).env(), fi, key@, p, op@),
            !r ==> final(self)@ == old(self)@,
            final(self).env() == old(self).env(),
    {
        let fs: FrameSig = self.frame_sig_of(fi);
        let p0: u64 = ent(&fs.params, 0, 0) as u64;
        let p1: u64 = ent(&fs.params, 1, 0) as u64;
        let d: u64 = ent(&fs.ret, 0, 0) as u64;
        let refused: String = join2("Body::Runtime ", key);
        if same(op, "minValue") || same(op, "maxValue") {
            match bound_pattern(p, same(op, "minValue")) {
                Some(v) => {
                    self.imm_num(d, p, v);
                    self.ret();
                },
                None => self.unsupported(refused),
            }
            return true;
        }
        match conversion_target(op) {
            Some(to) => {
                let exact: bool = self.ret_agg(fi).is_none() && (strip_prefix(
                    op,
                    "wrapTo",
                ).is_some() || self.prog.tables.is_exact(p, to) || same(op, "toChar"));
                let done: Result<(), String> = if exact {
                    self.convert(p, to, p0, d)
                } else {
                    self.convert_checked(fi, p, to, p0, d)
                };
                match done {
                    Ok(_) => self.ret(),
                    Err(why) => self.unsupported(why),
                }
                return true;
            },
            None => {},
        }
        if same(op, "hash") {
            let seed: u64 = fs.param_end as u64;
            self.imm_to(seed, HASH_SEED);
            if p == Prim::F32 {
                self.unsupported(refused);
                return true;
            }
            if p == Prim::F64 {
                let ints: Vec<Src> = vec![Src::Word(seed)];
                let floats: Vec<Src> = vec![Src::Word(p0)];
                assert(ints@ =~= seq![Src::Word(seed)]);
                assert(floats@ =~= seq![Src::Word(p0)]);
                self.c_call("buri_rt_hash_f64", ints, floats, d, Ret::Int);
            } else {
                self.c_call(
                    "buri_rt_mix",
                    vec![Src::Word(seed), Src::Word(p0)],
                    Vec::new(),
                    d,
                    Ret::Int,
                );
            }
            self.ret();
            return true;
        }
        match strip_prefix(op, "checked") {
            Some(kind) => {
                let done: bool = self.checked(fi, p, kind.as_str(), p0, p1, d);
                self.ret_if(done, key);
                return true;
            },
            None => {},
        }
        match strip_prefix(op, "saturating") {
            Some(kind) => {
                let done: bool = self.saturating(p, kind.as_str(), p0, p1, d);
                self.ret_if(done, key);
                return true;
            },
            None => {},
        }
        match strip_prefix(op, "wrapping") {
            Some(kind) => {
                let done: bool = self.wrapping(p, kind.as_str(), p0, p1, d);
                self.ret_if(done, key);
                return true;
            },
            None => {},
        }
        if same(op, "abs") || same(op, "signum") {
            let done: bool = self.abs_signum(p, same(op, "abs"), p0, d);
            self.ret_if(done, key);
            return true;
        }
        if same(op, "compare") {
            match self.ret_tag(fi) {
                Some(w) => {
                    self.compare_prim(p, p0, p1, d, w);
                    self.ret();
                },
                None => self.unsupported(refused),
            }
            return true;
        }
        self.plain_body(fi, p, op)
    }

    fn plain_body(&mut self, fi: usize, p: Prim, op: &str) -> (r: bool)
        ensures
            (final(self)@, r) == old(self)@.plain_body(old(self).env(), fi, p, op@),
            !r ==> final(self)@ == old(self)@,
            final(self).env() == old(self).env(),
    {
        let fs: FrameSig = self.frame_sig_of(fi);
        let p0: u64 = ent(&fs.params, 0, 0) as u64;
        let p1: u64 = ent(&fs.params, 1, 0) as u64;
        let d: u64 = ent(&fs.ret, 0, 0) as u64;
        match prim_tag(p) {
            None => false,
            Some(t) => {
                let key: String = join5("bin/", op, "/", t.0, "/ff/f");
                if fi < self.prog.funcs.len() && self.prog.funcs[fi].rets.len() == 1 && self.has(
                    key.as_str(),
                ) && fs.params.len() == 2 {
                    self.emit(
                        key.as_str(),
                        vec![
                            (H::A, V::I(p0)),
                            (H::B, V::I(p1)),
                            (H::D, V::I(d)),
                            (H::Cont, V::Fall),
                            (H::Cont0, V::Fall),
                        ],
                    );
                    self.ret();
                    return true;
                }
                if same(op, "neg") && fs.params.len() == 1 {
                    let key: String = join3("un/neg/", t.0, "/f/f");
                    self.da(key.as_str(), d, p0);
                    self.ret();
                    return true;
                }
                false
            },
        }
    }

    /// A function's own parameters as operands.
    fn body_operands(&self, fs: &FrameSig, params: &Vec<Type>) -> (r: Vec<(u32, Type)>)
        ensures
            r@ == body_operands(fs.params@, params@),
    {
        let mut out: Vec<(u32, Type)> = Vec::new();
        let mut i: usize = 0;
        while i < params.len()
            invariant
                i <= params.len(),
                out.len() == i,
                forall|j: int|
                    0 <= j < i ==> #[trigger] out[j] == (at_or(fs.params@, j, 0u32), params[j]),
            decreases params.len() - i,
        {
            out.push((ent(&fs.params, i, 0), params[i]));
            i = i + 1;
        }
        assert(out@ =~= body_operands(fs.params@, params@));
        out
    }

    fn general_body(&mut self, fi: usize, key: &str)
        ensures
            final(self)@ == old(self)@.general_body(old(self).env(), fi, key@),
            final(self).env() == old(self).env(),
    {
        if self.list_loop_rt(fi, key) {
            self.ret();
            return;
        }
        let prog: &'a Program = self.prog;
        if fi < prog.funcs.len() {
            let g: &'a Func = &prog.funcs[fi];
            let fs: FrameSig = self.frame_sig_of(fi);
            if fs.ret.len() > 0 && g.rets.len() > 0 {
                let o: Operands = Operands {
                    args: self.body_operands(&fs, &g.params),
                    dest: (fs.ret[0], g.rets[0]),
                };
                if self.list_extra(key, &o) {
                    self.ret();
                    return;
                }
            }
            if prog.tables.has_entry(key) {
                let dest: Option<(u32, Type)> = if g.rets.len() > 0 {
                    Some((ent(&fs.ret, 0, 0), g.rets[0]))
                } else {
                    None
                };
                let args: Vec<(u32, Type)> = self.body_operands(&fs, &g.params);
                self.add(Op::Entry { key: own(key), dest, args });
                self.ret();
                return;
            }
        }
        self.last_body(fi, key);
    }

    fn body_parts(&self, fs: &FrameSig, n: usize) -> (r: Vec<u64>)
        ensures
            r@ == body_parts(fs.params@, n as int, 0),
    {
        let ghost all = body_parts(fs.params@, n as int, 0);
        let mut out: Vec<u64> = Vec::new();
        let mut i: usize = 0;
        while i < n
            invariant
                i <= n,
                all == out@ + body_parts(fs.params@, n as int, i as int),
            decreases n - i,
        {
            let ghost before = out@;
            let ghost next = body_parts(fs.params@, n as int, i as int + 1);
            if !(n == 3 && i == 1) {
                let at: u64 = ent(&fs.params, i, 0) as u64;
                out.push(at);
                assert(all =~= before + (seq![at] + next));
            }
            assert(all =~= out@ + next);
            i = i + 1;
        }
        assert(all =~= out@);
        out
    }

    #[verifier::rlimit(40)]
    fn last_body(&mut self, fi: usize, key: &str)
        ensures
            final(self)@ == old(self)@.last_body(old(self).env(), fi, key@),
            final(self).env() == old(self).env(),
    {
        let fs: FrameSig = self.frame_sig_of(fi);
        let p0: u64 = ent(&fs.params, 0, 0) as u64;
        let p1: u64 = ent(&fs.params, 1, 0) as u64;
        let d: u64 = ent(&fs.ret, 0, 0) as u64;
        let end: u64 = fs.param_end as u64;
        if same(key, "str.eq") || same(key, "str.compare") {
            let symbol: String = if same(key, "str.eq") {
                own("buri_rt_str_eq")
            } else {
                own("buri_rt_str_compare")
            };
            self.add(Op::StrCompare { symbol, a: p0, b: p1, dest: d });
            self.ret();
            return;
        }
        if same(key, "str.len") {
            self.add(Op::StrLen { at: p0, scratch: end });
            self.c_call(
                "buri_rt_str_scalar_len",
                vec![Src::Word(p0 + 8), Src::Word(end)],
                Vec::new(),
                d,
                Ret::Int,
            );
            self.ret();
            return;
        }
        if same(key, "testing_context.alloc") || same(key, "host_testing.alloc") {
            self.imm_to(d, 0);
            self.ret();
            return;
        }
        if same(key, "testing_context.TestAlloc.allocate") || same(
            key,
            "host_testing.TestAlloc.allocate",
        ) {
            self.mv(d, p1, 8);
            self.ret();
            return;
        }
        if same(key, "list.len") {
            self.mv(d, p0 + 8, 8);
            self.ret();
            return;
        }
        if same(key, "str.format") {
            if fs.params.len() == 0 {
                self.unsupported(own("Body::Runtime str.format with no argument"));
            } else {
                self.mv(d, fs.params[fs.params.len() - 1] as u64, 24);
                if !self.sw.no_counts {
                    self.rc_block(d, true, None);
                }
            }
            self.ret();
            return;
        }
        if same(key, "list.empty") {
            self.imm_to(d, 0);
            self.imm_to(d + 8, 0);
            self.ret();
            return;
        }
        let tag: Option<u32> = self.ret_tag(fi);
        if self.prim_trait_at(key, d, p0, p1, Some(tag)) {
            self.ret();
            return;
        }
        let count: Option<u64> = if fs.params.len() > 1 {
            Some(p1)
        } else {
            None
        };
        if self.bits_at(key, d, p0, count) {
            self.ret();
            return;
        }
        if same(key, "str.concat") {
            let n: usize = if fi < self.prog.funcs.len() {
                self.prog.funcs[fi].params.len()
            } else {
                0
            };
            let parts: Vec<u64> = self.body_parts(&fs, n);
            self.add(Op::Concat { parts, dest: d });
            self.ret();
            return;
        }
        self.ret_if(false, key);
    }

    /// One instruction.
    pub fn inst(&mut self, code: &Code, i: &Inst)
        ensures
            final(self)@ == old(self)@.inst(old(self).env(), *code, *i),
            final(self).env() == old(self).env(),
    {
        match i {
            Inst::Const { dest, value } => {
                let off: u64 = self.at(*dest);
                self.emit_constant(off, code.ty_of(*dest), value);
            },
            Inst::Unary { dest, op, prim, arg } => self.unary(*dest, *op, *prim, *arg),
            Inst::Binary { dest, op, prim, lhs, rhs } => self.binary(
                *dest,
                *op,
                *prim,
                *lhs,
                *rhs,
            ),
            Inst::Call { dests, func, args } => self.call(code, dests, *func, args),
            Inst::CallIndirect { dests, callee, args } => self.call_indirect(
                code,
                dests,
                *callee,
                args,
            ),
            Inst::CallIntrinsic { dests, key, args } => self.intrinsic(
                code,
                dests,
                key.as_str(),
                args,
            ),
            Inst::MakeStruct { dest, fields } => self.make_struct(code, *dest, fields),
            Inst::GetField { dest, agg, index } => self.get_field(code, *dest, *agg, *index),
            Inst::MakeEnum { dest, variant, fields } => self.make_enum(
                code,
                *dest,
                *variant,
                fields,
            ),
            Inst::GetPayload { dest, agg, variant, index } => self.get_payload(
                code,
                *dest,
                *agg,
                *variant,
                *index,
            ),
            Inst::GetTag { dest, agg } => self.get_tag(code, *dest, *agg),
            Inst::MakeClosure { dest, func, env } => self.make_closure(code, *dest, *func, *env),
            Inst::IncRef { value } => self.rc(code, *value, true),
            Inst::DecRef { value, drop } => self.rc(code, *value, false),
            Inst::Abort { message } => self.abort(message.as_str()),
            Inst::MakeArray { dest, elems } => self.make_array(code, *dest, elems),
            Inst::ArrayGet { dest, array, index } => self.array_get(
                code,
                *dest,
                *array,
                *index,
            ),
            Inst::ArrayLen { dest, array } => {
                let d: u64 = self.at(*dest);
                let a: u64 = self.at(*array);
                self.mv(d, a + 8, 8);
            },
            Inst::ArraySlice { dest, array, from } => self.array_slice(
                code,
                *dest,
                *array,
                *from,
            ),
            Inst::Derived { dest, op, ty, args } => self.structural(code, *dest, *op, *ty, args),
        }
    }
}

/// The operation of a key `num.<T>.<op>`, with its type.
fn num_op_of(key: &str) -> (r: Option<(Prim, String)>)
    ensures
        match r {
            Some(o) => num_op(key@) == Some((o.0, o.1@)),
            None => num_op(key@) is None,
        },
{
    match split_dot(key) {
        Some((module, rest)) => {
            if !same(module.as_str(), "num") {
                return None;
            }
            match split_dot(rest.as_str()) {
                Some((t, op)) => {
                    if split_dot(op.as_str()).is_some() {
                        return None;
                    }
                    match prim_of_name(t.as_str()) {
                        Some(p) => Some((p, op)),
                        None => None,
                    }
                },
                None => None,
            }
        },
        None => None,
    }
}

} // verus!
