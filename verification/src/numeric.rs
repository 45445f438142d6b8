//! The numeric surface: conversions, checked and saturating arithmetic, bounds,
//! comparisons, hashes and bit operations.
use vstd::prelude::*;

use crate::ir::Program;
use crate::ir::Type;
use crate::keys::bits_width;
use crate::keys::bits_width_of;
use crate::keys::stem;
use crate::keys::stem_of;
use crate::lists::EQUAL;
use crate::lists::GREATER;
use crate::lists::LESS;
use crate::prim::prim_tag;
use crate::prim::tag_of;
use crate::prim::Prim;
use crate::select::Emit;
use crate::select::Env;
use crate::select::Item;
use crate::select::Op;
use crate::select::Ret;
use crate::select::Sel;
use crate::select::Src;
use crate::select::H;
use crate::select::V;
use crate::text::after;
use crate::text::begins;
use crate::text::decimal;
use crate::text::decimal_of;
use crate::text::dotted;
use crate::text::head;
use crate::text::join2;
use crate::text::join3;
use crate::text::join4;
use crate::text::join5;
use crate::text::own;
use crate::text::same;
use crate::text::split_dot;
use crate::text::strip_prefix;
use crate::text::tail;
use crate::types::payload_at;
use crate::types::Layout;
use crate::types::Shape;
use crate::types::TypeInfo;
use crate::walk::RAW_WORD;
use crate::walk::SPARE_WORD;

verus! {

/// The offset basis a hash starts from.
pub const HASH_SEED: u64 = 0x811c_9dc5;

/// Whether a type is sixteen bytes.
pub open spec fn wide(p: Prim) -> bool {
    p == Prim::I128 || p == Prim::U128
}

/// Whether a type is sixteen bytes.
fn is_wide(p: Prim) -> (r: bool)
    ensures
        r == wide(p),
{
    match p {
        Prim::I128 | Prim::U128 => true,
        _ => false,
    }
}

/// The bit pattern of a type's lowest or highest value, as a frame slot holds
/// it: an integer at its own width with zeros above, a float's largest finite
/// magnitude. The two sixteen-byte types do not fit a slot and have none.
pub open spec fn pattern(p: Prim, low: bool) -> Option<u128> {
    match p {
        Prim::F32 => Some(
            if low {
                0xff7f_ffffu128
            } else {
                0x7f7f_ffffu128
            },
        ),
        Prim::F64 => Some(
            if low {
                0xffef_ffff_ffff_ffffu128
            } else {
                0x7fef_ffff_ffff_ffffu128
            },
        ),
        Prim::I8 => Some(
            if low {
                0x80u128
            } else {
                0x7fu128
            },
        ),
        Prim::I16 => Some(
            if low {
                0x8000u128
            } else {
                0x7fffu128
            },
        ),
        Prim::I32 => Some(
            if low {
                0x8000_0000u128
            } else {
                0x7fff_ffffu128
            },
        ),
        Prim::I64 => Some(
            if low {
                0x8000_0000_0000_0000u128
            } else {
                0x7fff_ffff_ffff_ffffu128
            },
        ),
        Prim::I128 => None,
        Prim::U8 => Some(
            if low {
                0u128
            } else {
                0xffu128
            },
        ),
        Prim::U16 => Some(
            if low {
                0u128
            } else {
                0xffffu128
            },
        ),
        Prim::U32 => Some(
            if low {
                0u128
            } else {
                0xffff_ffffu128
            },
        ),
        Prim::U64 => Some(
            if low {
                0u128
            } else {
                0xffff_ffff_ffff_ffffu128
            },
        ),
        Prim::U128 => None,
        _ => None,
    }
}

/// The bit pattern of a type's lowest or highest value, as a frame slot holds
/// it. The two sixteen-byte types do not fit a slot and have none.
pub fn bound_pattern(p: Prim, low: bool) -> (r: Option<u128>)
    ensures
        r == pattern(p, low),
{
    let ends: (u128, u128) = match p {
        Prim::F32 => (0xff7f_ffff, 0x7f7f_ffff),
        Prim::F64 => (0xffef_ffff_ffff_ffff, 0x7fef_ffff_ffff_ffff),
        Prim::I8 => (0x80, 0x7f),
        Prim::I16 => (0x8000, 0x7fff),
        Prim::I32 => (0x8000_0000, 0x7fff_ffff),
        Prim::I64 => (0x8000_0000_0000_0000, 0x7fff_ffff_ffff_ffff),
        Prim::U8 => (0, 0xff),
        Prim::U16 => (0, 0xffff),
        Prim::U32 => (0, 0xffff_ffff),
        Prim::U64 => (0, 0xffff_ffff_ffff_ffff),
        _ => {
            return None;
        },
    };
    Some(
        if low {
            ends.0
        } else {
            ends.1
        },
    )
}

/// How many values an integer type has.
pub open spec fn modulus(p: Prim) -> int {
    p.range().1 - p.range().0 + 1
}

/// The pattern of an integer bound is the bound modulo the number of values of
/// the type: below that number, and a multiple of it away from the bound. Every
/// integer type that fits a frame slot has one.
pub proof fn a_bound_is_its_pattern_modulo_the_width(p: Prim, low: bool)
    requires
        p.integer(),
        !wide(p),
    ensures
        pattern(p, low) is Some,
        0 <= pattern(p, low)->0 < modulus(p),
        ({
            let bound = if low {
                p.range().0
            } else {
                p.range().1
            };
            pattern(p, low)->0 == bound || pattern(p, low)->0 == bound + modulus(p)
        }),
{
}

/// Where a widened value is: the source itself where nothing has to be done.
pub open spec fn widened(src: u64, scratch: u64, bits: u32, signed: bool) -> u64 {
    if !signed || bits >= 64 {
        src
    } else {
        scratch
    }
}

/// What a conversion between types without a stencil is refused with.
pub open spec fn no_conversion(from: Prim, to: Prim) -> Seq<char> {
    "a conversion at `"@ + from.text() + "` or `"@ + to.text() + "`"@
}

/// What a conversion from a float is refused with.
pub open spec fn no_conversion_from(from: Prim) -> Seq<char> {
    "a conversion from `"@ + from.text() + "`"@
}

/// What a checked conversion is refused with.
pub open spec fn no_checked(from: Prim, to: Prim) -> Seq<char> {
    "Body::Runtime num."@ + from.text() + ".to"@ + to.text()
}

/// The stencil name of a checked operation.
pub open spec fn kind_name(kind: Seq<char>) -> Option<Seq<char>> {
    if kind == "Add"@ {
        Some("add"@)
    } else if kind == "Sub"@ {
        Some("sub"@)
    } else if kind == "Mul"@ {
        Some("mul"@)
    } else if kind == "Div"@ {
        Some("div"@)
    } else {
        None
    }
}

fn name_of_kind(kind: &str) -> (r: Option<&'static str>)
    ensures
        match r {
            Some(n) => kind_name(kind@) == Some(n@),
            None => kind_name(kind@) is None,
        },
{
    if same(kind, "Add") {
        Some("add")
    } else if same(kind, "Sub") {
        Some("sub")
    } else if same(kind, "Mul") {
        Some("mul")
    } else if same(kind, "Div") {
        Some("div")
    } else {
        None
    }
}

impl Env {
    /// The type of a function's first result, where it is an aggregate.
    pub open spec fn ret_agg(self, fi: usize) -> Option<usize> {
        if fi < self.prog.funcs.len() && self.prog.funcs[fi as int].rets.len() > 0 {
            match self.prog.funcs[fi as int].rets[0] {
                Type::Agg(id) => Some(id),
                _ => None,
            }
        } else {
            None
        }
    }

    /// The tag width of a function's first result, where it is an enum with
    /// one.
    pub open spec fn ret_tag(self, fi: usize) -> Option<u32> {
        match self.ret_agg(fi) {
            Some(id) => self.layout(id).tag(),
            None => None,
        }
    }

    /// The stencil of an operation with an overflow flag, where there is one.
    pub open spec fn overflow_key(self, p: Prim, kind: Seq<char>) -> Option<Seq<char>> {
        match (tag_of(p), kind_name(kind)) {
            (Some(t), Some(n)) => {
                let key = "chk/"@ + n + "/"@ + t.0;
                if p.integer() && self.has(key) {
                    Some(key)
                } else {
                    None
                }
            },
            _ => None,
        }
    }

    /// The layouts of a checked conversion's answer, and of its error, where the
    /// function's result is one.
    pub open spec fn checked_layouts(self, fi: usize) -> Option<(Layout, Layout, u32)> {
        match self.ret_agg(fi) {
            None => None,
            Some(id) => match self.prog.tables.at(id as int).shape {
                Shape::Con { args } => if args.len() < 2 {
                    None
                } else {
                    let result = self.layout(id);
                    let error = self.layout(args[1]);
                    if result.tag() is None || error.fields.len() != 2 {
                        None
                    } else {
                        match result.payload(1, 0) {
                            Some(at) => Some((result, error, at)),
                            None => None,
                        }
                    }
                },
                _ => None,
            },
        }
    }
}

impl Sel {
    /// A literal at the type's own width.
    pub open spec fn imm_num(self, d: u64, p: Prim, v: u128) -> Sel {
        if wide(p) {
            self.imm_to(d, v as u64).imm_to((d + 8) as u64, (v >> 64) as u64)
        } else {
            self.imm_to(d, v as u64)
        }
    }

    /// A narrow signed value extended to a word.
    pub open spec fn widen(self, src: u64, scratch: u64, bits: u32, signed: bool) -> Sel {
        if !signed || bits >= 64 {
            self
        } else {
            self.da("sext/"@ + decimal(bits as nat), scratch, src)
        }
    }

    /// A conversion to a single from a double that is already there.
    pub open spec fn narrow_float(self, to: Prim, d: u64) -> Sel {
        if to == Prim::F32 {
            self.da("cvt/f2f32"@, d, d)
        } else {
            self
        }
    }

    /// One numeric conversion between two types that a frame slot can hold, and the refusal where
    /// there is one. A sixteen-byte type on either side is refused.
    #[verifier::opaque]
    pub open spec fn convert(self, e: Env, from: Prim, to: Prim, src: u64, dest: u64) -> (
        Sel,
        Option<Seq<char>>,
    ) {
        match (tag_of(from), tag_of(to)) {
            (Some(f), Some(t)) => {
                let scr = e.word(SPARE_WORD as int);
                let at = widened(src, scr, f.1, f.2);
                if f.1 == 128 || t.1 == 128 {
                    (self, Some(no_conversion(from, to)))
                } else if from.float() && to.float() {
                    if from == to {
                        (self.mv(dest, src, 8), None)
                    } else if to == Prim::F32 {
                        (self.da("cvt/f2f32"@, dest, src), None)
                    } else {
                        (self.da("cvt/f322f"@, dest, src), None)
                    }
                } else if to.float() {
                    (
                        self.widen(src, scr, f.1, f.2).da(
                            if f.2 {
                                "cvt/i2f"@
                            } else {
                                "cvt/u2f"@
                            },
                            dest,
                            at,
                        ).narrow_float(to, dest),
                        None,
                    )
                } else if from.float() {
                    (self, Some(no_conversion_from(from)))
                } else if t.1 >= 64 {
                    (self.widen(src, scr, f.1, f.2).mv(dest, at, 8), None)
                } else {
                    (
                        self.widen(src, scr, f.1, f.2).da(
                            "zext/"@ + decimal(t.1 as nat),
                            dest,
                            at,
                        ),
                        None,
                    )
                }
            },
            _ => (self, Some(no_conversion(from, to))),
        }
    }

    /// A comparison of the source with one end of the target's range, and a
    /// branch to `err` where it is past it.
    pub open spec fn bound_test(
        self,
        e: Env,
        op: Seq<char>,
        from: Prim,
        tag: Seq<char>,
        v: u128,
        src: u64,
        err: usize,
    ) -> Sel {
        let bound = e.word(SPARE_WORD as int);
        let verdict = e.word(0);
        self.imm_num(bound, from, v).dab(
            "bin/"@ + op + "/"@ + tag + "/ff/f"@,
            verdict,
            src,
            bound,
        ).test(e.arm("br/f"@, H::F), verdict, V::Blk(err), V::Fall)
    }

    /// A conversion of a value that may not fit: a test of each end the source
    /// can be past, the value, and the error that renders it.
    #[verifier::opaque]
    pub open spec fn convert_checked(
        self,
        e: Env,
        fi: usize,
        from: Prim,
        to: Prim,
        src: u64,
        dest: u64,
    ) -> (Sel, Option<Seq<char>>) {
        match (e.checked_layouts(fi), tag_of(from)) {
            (Some(ls), Some(t)) => if !from.integer() || !to.integer() {
                (self, Some(no_checked(from, to)))
            } else {
                let err = self.next();
                let done = self.fresh().next();
                let s = self.fresh().fresh();
                let s = if to.range().0 > from.range().0 {
                    s.bound_test(
                        e,
                        "lt"@,
                        from,
                        t.0,
                        (to.range().0 as i128) as u128,
                        src,
                        err,
                    )
                } else {
                    s
                };
                let s = if to.range().1 < from.range().1 {
                    s.bound_test(e, "gt"@, from, t.0, to.range().1 as u128, src, err)
                } else {
                    s
                };
                let ok_at = (dest + ls.0.first_payload(0)) as u64;
                let err_at = (dest + ls.2) as u64;
                let r = s.convert(e, from, to, src, ok_at);
                match r.1 {
                    Some(why) => r,
                    None => (
                        r.0.store_disc(ls.0, dest, 0).jump(V::Blk(done)).place(err).add(
                            Item::Show {
                                prim: from,
                                src,
                                dest: (err_at + ls.1.fields[0]) as u64,
                                quoted: false,
                            },
                        ).str_literal(
                            (err_at + ls.1.fields[1]) as u64,
                            vstd::utf8::encode_utf8(to.text()),
                        ).store_disc(ls.0, dest, 1).place(done),
                        None,
                    ),
                }
            },
            _ => (self, Some(no_checked(from, to))),
        }
    }

    /// An operation's result and its overflow flag, where there is a stencil for
    /// it.
    pub open spec fn overflowing(self, e: Env, key: Seq<char>, a: u64, b: u64) -> Sel {
        self.emit(
            key,
            seq![
                (H::A, V::I(a)),
                (H::B, V::I(b)),
                (H::D, V::I(e.word(RAW_WORD as int))),
                (H::N, V::I(e.word(SPARE_WORD as int))),
                (H::Cont, V::Fall),
                (H::Cont0, V::Fall),
            ],
        )
    }

    /// Checked arithmetic as an option, and whether there is such a thing.
    #[verifier::opaque]
    pub open spec fn checked(
        self,
        e: Env,
        fi: usize,
        p: Prim,
        kind: Seq<char>,
        a: u64,
        b: u64,
        dest: u64,
    ) -> (Sel, bool) {
        match (e.ret_agg(fi), e.overflow_key(p, kind), tag_of(p)) {
            (Some(id), Some(key), Some(t)) => {
                let l = e.layout(id);
                let s = self.overflowing(e, key, a, b);
                let some = s.next();
                let done = s.fresh().next();
                (
                    s.fresh().fresh().test_k(
                        e.arm("brcmp/eq/u64/fi"@, H::T),
                        e.word(SPARE_WORD as int),
                        0,
                        V::Blk(some),
                        V::Fall,
                    ).store_disc(l, dest, 1).jump(V::Blk(done)).place(some).store_w(
                        (dest + l.first_payload(0)) as u64,
                        e.word(RAW_WORD as int),
                        (t.1 / 8) as u64,
                    ).store_disc(l, dest, 0).place(done),
                    true,
                )
            },
            _ => (self, false),
        }
    }

    /// Whether the number at `a` is negative. At sixteen bytes the high half
    /// says so.
    pub open spec fn lt_zero(self, d: u64, a: u64, tag: Seq<char>) -> Sel {
        if tag == "i128"@ || tag == "u128"@ {
            self.dak("bin/lt/i64/fi/f"@, d, (a + 8) as u64, 0)
        } else {
            self.dak("bin/lt/"@ + tag + "/fi/f"@, d, a, 0)
        }
    }

    /// Which end a signed operation ran off: the sign of the left operand, and
    /// for a product whether the signs differ.
    pub open spec fn ran_off(
        self,
        e: Env,
        p: Prim,
        tag: Seq<char>,
        kind: Seq<char>,
        a: u64,
        b: u64,
        dest: u64,
        done: usize,
    ) -> Sel {
        let scr = e.word(RAW_WORD + 1);
        let other = (scr + 8) as u64;
        let s = self.lt_zero(scr, a, tag);
        let s = if kind == "Mul"@ {
            s.lt_zero(other, b, tag).dab("bin/xor/u64/ff/f"@, scr, scr, other)
        } else {
            s
        };
        let top = s.next();
        s.fresh().test(e.arm("br/f"@, H::T), scr, V::Fall, V::Blk(top)).imm_num(
            dest,
            p,
            pattern(p, true)->0,
        ).jump(V::Blk(done)).place(top).imm_num(dest, p, pattern(p, false)->0)
    }

    /// Saturating arithmetic, and whether there is such a thing. Division has no
    /// end to run off, and a type without the patterns of its ends cannot be
    /// put at one.
    #[verifier::opaque]
    pub open spec fn saturating(
        self,
        e: Env,
        p: Prim,
        kind: Seq<char>,
        a: u64,
        b: u64,
        dest: u64,
    ) -> (Sel, bool) {
        if kind == "Div"@ {
            (self, false)
        } else {
            match (e.overflow_key(p, kind), tag_of(p)) {
                (Some(key), Some(t)) => if pattern(p, true) is None || pattern(p, false) is None {
                    (self.overflowing(e, key, a, b), false)
                } else {
                    let s = self.overflowing(e, key, a, b);
                    let ok = s.next();
                    let done = s.fresh().next();
                    let s = s.fresh().fresh().test_k(
                        e.arm("brcmp/eq/u64/fi"@, H::T),
                        e.word(SPARE_WORD as int),
                        0,
                        V::Blk(ok),
                        V::Fall,
                    );
                    let s = if !t.2 {
                        s.imm_num(dest, p, pattern(p, kind == "Sub"@)->0)
                    } else {
                        s.ran_off(e, p, t.0, kind, a, b, dest, done)
                    };
                    (
                        s.jump(V::Blk(done)).place(ok).mv(
                            dest,
                            e.word(RAW_WORD as int),
                            8,
                        ).place(done),
                        true,
                    )
                },
                _ => (self, false),
            }
        }
    }

    /// Wrapping arithmetic, and whether there is such a thing: the machine
    /// operation at the operand's own width.
    #[verifier::opaque]
    pub open spec fn wrapping(
        self,
        e: Env,
        p: Prim,
        kind: Seq<char>,
        a: u64,
        b: u64,
        dest: u64,
    ) -> (Sel, bool) {
        match (tag_of(p), kind_name(kind)) {
            (Some(t), Some(n)) => {
                let key = "bin/"@ + n + "/"@ + t.0 + "/ff/f"@;
                if kind != "Div"@ && e.has(key) {
                    (self.dab(key, dest, a, b), true)
                } else {
                    (self, false)
                }
            },
            _ => (self, false),
        }
    }

    /// The magnitude of a number.
    pub open spec fn abs(self, e: Env, p: Prim, tag: Seq<char>, signed: bool, a: u64, dest: u64) -> Sel {
        if p.float() {
            self.dak(
                "bin/and/u64/fi/f"@,
                dest,
                a,
                if p == Prim::F32 {
                    0x7fff_ffff
                } else {
                    0x7fff_ffff_ffff_ffff
                },
            )
        } else {
            let s = self.mv(
                dest,
                a,
                if wide(p) {
                    16
                } else {
                    8
                },
            );
            if !signed {
                s
            } else {
                let scr = e.word(SPARE_WORD as int);
                let s = s.lt_zero(scr, a, tag);
                let skip = s.next();
                s.fresh().test(e.arm("br/f"@, H::T), scr, V::Fall, V::Blk(skip)).da(
                    "un/neg/"@ + tag + "/f/f"@,
                    dest,
                    a,
                ).place(skip)
            }
        }
    }

    /// One end of a sign: a test, and the value where it holds.
    pub open spec fn sign_test(
        self,
        e: Env,
        p: Prim,
        op: Seq<char>,
        tag: Seq<char>,
        a: u64,
        dest: u64,
        v: u128,
    ) -> Sel {
        let scr = e.word(SPARE_WORD as int);
        let zero = e.word(RAW_WORD + 1);
        let s = self.emit(
            "bin/"@ + op + "/"@ + tag + (if wide(p) {
                "/ff/f"@
            } else {
                "/fi/f"@
            }),
            seq![
                (H::D, V::I(scr)),
                (H::A, V::I(a)),
                (H::B, V::I(zero)),
                (H::K, V::I(0)),
                (H::Cont, V::Fall),
            ],
        );
        let skip = s.next();
        s.fresh().test(e.arm("br/f"@, H::T), scr, V::Fall, V::Blk(skip)).imm_num(
            dest,
            p,
            v,
        ).place(skip)
    }

    /// The sign of a number: zero, and then one test per end.
    pub open spec fn signum(self, e: Env, p: Prim, tag: Seq<char>, a: u64, dest: u64) -> Sel {
        let s = self.imm_num(dest, p, 0);
        let s = if wide(p) {
            s.imm_num(e.word(RAW_WORD + 1), p, 0)
        } else {
            s
        };
        s.sign_test(e, p, "gt"@, tag, a, dest, unit_pattern(p)).sign_test(
            e,
            p,
            "lt"@,
            tag,
            a,
            dest,
            minus_pattern(p),
        )
    }

    /// The magnitude or the sign of a number, and whether there is such a thing.
    #[verifier::opaque]
    pub open spec fn abs_signum(self, e: Env, p: Prim, abs: bool, a: u64, dest: u64) -> (Sel, bool) {
        match tag_of(p) {
            Some(t) => if abs {
                (self.abs(e, p, t.0, t.2, a, dest), true)
            } else {
                (self.signum(e, p, t.0, a, dest), true)
            },
            None => (self, false),
        }
    }

    /// One end of a comparison: a test, and the variant where it holds.
    pub open spec fn order_step(self, e: Env, key: Seq<char>, a: u64, b: u64, v: u64) -> Sel {
        let raw = e.word(RAW_WORD as int);
        let scr = e.word(SPARE_WORD as int);
        let s = self.dab(key, scr, a, b);
        let skip = s.next();
        s.fresh().test(e.arm("br/f"@, H::T), scr, V::Fall, V::Blk(skip)).imm_to(raw, v).place(
            skip,
        )
    }

    /// The order of two words by two stencils: equal unless one of them says
    /// otherwise.
    pub open spec fn order(self, e: Env, lt: Seq<char>, gt: Seq<char>, a: u64, b: u64) -> Sel {
        self.imm_to(e.word(RAW_WORD as int), EQUAL).order_step(e, lt, a, b, LESS).order_step(
            e,
            gt,
            a,
            b,
            GREATER,
        )
    }

    /// The order of two numbers, as an enum with a tag of `w` bytes.
    pub open spec fn compare_prim(self, e: Env, p: Prim, a: u64, b: u64, dest: u64, w: u32) -> Sel {
        match tag_of(p) {
            Some(t) => self.order(
                e,
                "bin/lt/"@ + t.0 + "/ff/f"@,
                "bin/gt/"@ + t.0 + "/ff/f"@,
                a,
                b,
            ).store_w(dest, e.word(RAW_WORD as int), w as u64),
            None => self.unsupported("Ord::compare at `"@ + p.text() + "`"@),
        }
    }

    /// A primitive mixed into a hash.
    pub open spec fn hash_prim(self, e: Env, p: Prim, acc: u64, v: u64, dest: u64) -> Sel {
        if p.stringy() {
            self.c_call(
                "buri_rt_hash_str"@,
                seq![
                    Src::Word(acc),
                    Src::Word(v),
                    Src::Word((v + 8) as u64),
                    Src::Word((v + 16) as u64),
                ],
                Seq::empty(),
                dest,
                Ret::Int,
            )
        } else if p == Prim::Char {
            self.c_call(
                "buri_rt_hash_char"@,
                seq![Src::Word(acc), Src::Word(v)],
                Seq::empty(),
                dest,
                Ret::Int,
            )
        } else if p == Prim::F32 {
            let scr = e.word(SPARE_WORD as int);
            self.da("cvt/f322f"@, scr, v).c_call(
                "buri_rt_hash_f64"@,
                seq![Src::Word(acc)],
                seq![Src::Word(scr)],
                dest,
                Ret::Int,
            )
        } else if p == Prim::F64 {
            self.c_call(
                "buri_rt_hash_f64"@,
                seq![Src::Word(acc)],
                seq![Src::Word(v)],
                dest,
                Ret::Int,
            )
        } else {
            self.c_call(
                "buri_rt_mix"@,
                seq![Src::Word(acc), Src::Word(v)],
                Seq::empty(),
                dest,
                Ret::Int,
            )
        }
    }

    /// The range check of a shift count, which aborts past the width.
    pub open spec fn shift_count_check(self, e: Env, count: u64, width: u32) -> Sel {
        let ok = self.next();
        let scr = e.word(SPARE_WORD as int);
        self.fresh().dak("bin/lt/u64/fi/f"@, scr, count, width as u64).test(
            e.arm("br/f"@, H::T),
            scr,
            V::Blk(ok),
            V::Fall,
        ).c_call("buri_rt_abort_shift"@, Seq::empty(), Seq::empty(), 0, Ret::Void).place(ok)
    }

    /// A bit operation, and whether the key is of one.
    #[verifier::opaque]
    pub open spec fn bits_at(self, e: Env, key: Seq<char>, d: u64, a: u64, count: Option<u64>) -> (
        Sel,
        bool,
    ) {
        if !begins(key, "bits."@) {
            (self, false)
        } else {
            let op = after(key, "bits."@);
            let w = bits_width(op);
            let st = stem(op);
            let k = "bits/"@ + st + "/"@ + decimal(w as nat);
            let why = "CallIntrinsic "@ + key;
            if st == "popCount"@ || st == "leadingZeros"@ || st == "trailingZeros"@ {
                if e.has(k) {
                    (self.da(k, d, a), true)
                } else {
                    (self.unsupported(why), true)
                }
            } else {
                match count {
                    None => (self, false),
                    Some(c) => {
                        let s = self.shift_count_check(e, c, w);
                        if e.has(k) {
                            (s.dab(k, d, a, c), true)
                        } else {
                            (s.unsupported(why), true)
                        }
                    },
                }
            }
        }
    }

    /// A trait leaf at a truth value, a character or a string, and whether the
    /// key is of one. `tag` is the width of the destination's tag: `None` inside
    /// for an aggregate without one.
    #[verifier::opaque]
    pub open spec fn prim_trait_at(
        self,
        e: Env,
        key: Seq<char>,
        d: u64,
        a: u64,
        b: u64,
        tag: Option<Option<u32>>,
    ) -> (Sel, bool) {
        match trait_prim(key) {
            None => (self, false),
            Some(p) => {
                let op = tail(key);
                if op == "show"@ {
                    (self.add(Item::Show { prim: p, src: a, dest: d, quoted: false }), true)
                } else if op == "eq"@ && p != Prim::Str {
                    (self.dab("bin/eq/u64/ff/f"@, d, a, b), true)
                } else if op == "compare"@ && p != Prim::Str {
                    let s = self.order(e, "bin/lt/u64/ff/f"@, "bin/gt/u64/ff/f"@, a, b);
                    (
                        match tag {
                            None => s.store_w(d, e.word(RAW_WORD as int), 8),
                            Some(Some(w)) => s.store_w(d, e.word(RAW_WORD as int), w as u64),
                            Some(None) => s.unsupported(
                                key + " into a destination that is not a tag"@,
                            ),
                        },
                        true,
                    )
                } else if op == "hash"@ && p != Prim::Str {
                    let seed = e.word(SPARE_WORD as int);
                    (
                        self.imm_to(seed, HASH_SEED).c_call(
                            if p == Prim::Char {
                                "buri_rt_hash_char"@
                            } else {
                                "buri_rt_mix"@
                            },
                            seq![Src::Word(seed), Src::Word(a)],
                            Seq::empty(),
                            d,
                            Ret::Int,
                        ),
                        true,
                    )
                } else if op == "toU32"@ && p == Prim::Char {
                    (self.mv(d, a, 8), true)
                } else {
                    (self, false)
                }
            },
        }
    }
}

/// The pattern of one at a type.
pub open spec fn unit_pattern(p: Prim) -> u128 {
    match p {
        Prim::F64 => 0x3ff0_0000_0000_0000u128,
        Prim::F32 => 0x3f80_0000u128,
        _ => 1u128,
    }
}

/// The pattern of minus one at a type.
pub open spec fn minus_pattern(p: Prim) -> u128 {
    match p {
        Prim::F64 => 0xbff0_0000_0000_0000u128,
        Prim::F32 => 0xbf80_0000u128,
        Prim::I8 => 0xffu128,
        Prim::U8 => 0xffu128,
        Prim::I16 => 0xffffu128,
        Prim::U16 => 0xffffu128,
        Prim::I32 => 0xffff_ffffu128,
        Prim::U32 => 0xffff_ffffu128,
        Prim::Char => 0xffff_ffffu128,
        Prim::I128 => 0xffff_ffff_ffff_ffff_ffff_ffff_ffff_ffffu128,
        Prim::U128 => 0xffff_ffff_ffff_ffff_ffff_ffff_ffff_ffffu128,
        _ => 0xffff_ffff_ffff_ffffu128,
    }
}

fn unit_of_prim(p: Prim) -> (r: u128)
    ensures
        r == unit_pattern(p),
{
    match p {
        Prim::F64 => 0x3ff0_0000_0000_0000u128,
        Prim::F32 => 0x3f80_0000u128,
        _ => 1u128,
    }
}

fn minus_of_prim(p: Prim) -> (r: u128)
    ensures
        r == minus_pattern(p),
{
    match p {
        Prim::F64 => 0xbff0_0000_0000_0000u128,
        Prim::F32 => 0xbf80_0000u128,
        Prim::I8 => 0xffu128,
        Prim::U8 => 0xffu128,
        Prim::I16 => 0xffffu128,
        Prim::U16 => 0xffffu128,
        Prim::I32 => 0xffff_ffffu128,
        Prim::U32 => 0xffff_ffffu128,
        Prim::Char => 0xffff_ffffu128,
        Prim::I128 => 0xffff_ffff_ffff_ffff_ffff_ffff_ffff_ffffu128,
        Prim::U128 => 0xffff_ffff_ffff_ffff_ffff_ffff_ffff_ffffu128,
        _ => 0xffff_ffff_ffff_ffffu128,
    }
}

/// The primitive a trait key is at.
pub open spec fn trait_prim(key: Seq<char>) -> Option<Prim> {
    if !dotted(key) {
        None
    } else if head(key) == "bool"@ {
        Some(Prim::Bool)
    } else if head(key) == "char"@ {
        Some(Prim::Char)
    } else if head(key) == "str"@ {
        Some(Prim::Str)
    } else {
        None
    }
}

impl<'a> Emit<'a> {
    /// A literal at the type's own width.
    pub fn imm_num(&mut self, d: u64, p: Prim, v: u128)
        requires
            d <= 0x100_0000_0000,
        ensures
            final(self)@ == old(self)@.imm_num(d, p, v),
            final(self).env() == old(self).env(),
    {
        self.imm_to(d, v as u64);
        if is_wide(p) {
            self.imm_to(d + 8, (v >> 64) as u64);
        }
    }

    /// A narrow signed value extended to a word. Answers where it is.
    fn widen(&mut self, src: u64, scratch: u64, bits: u32, signed: bool) -> (r: u64)
        ensures
            r == widened(src, scratch, bits, signed),
            final(self)@ == old(self)@.widen(src, scratch, bits, signed),
            final(self).env() == old(self).env(),
    {
        if !signed || bits >= 64 {
            return src;
        }
        let n: String = decimal_of(bits as u64);
        let key: String = join2("sext/", n.as_str());
        self.da(key.as_str(), scratch, src);
        scratch
    }

    fn narrow_float(&mut self, to: Prim, d: u64)
        ensures
            final(self)@ == old(self)@.narrow_float(to, d),
            final(self).env() == old(self).env(),
    {
        if to == Prim::F32 {
            self.da("cvt/f2f32", d, d);
        }
    }

    /// One numeric conversion between two types that a frame slot can hold. A sixteen-byte type on
    /// either side is refused.
    pub fn convert(&mut self, from: Prim, to: Prim, src: u64, dest: u64) -> (r: Result<
        (),
        String,
    >)
        requires
            src <= 0x100_0000_0000,
            dest <= 0x100_0000_0000,
        ensures
            final(self)@ == old(self)@.convert(old(self).env(), from, to, src, dest).0,
            match r {
                Ok(_) => old(self)@.convert(old(self).env(), from, to, src, dest).1 is None,
                Err(why) => old(self)@.convert(old(self).env(), from, to, src, dest).1 == Some(
                    why@,
                ),
            },
            final(self).env() == old(self).env(),
    {
        reveal(Sel::convert);
        let scr: u64 = self.word(SPARE_WORD);
        let (f, t) = match (prim_tag(from), prim_tag(to)) {
            (Some(f), Some(t)) => (f, t),
            _ => {
                return Err(
                    join5("a conversion at `", from.name(), "` or `", to.name(), "`"),
                );
            },
        };
        if f.1 == 128 || t.1 == 128 {
            return Err(join5("a conversion at `", from.name(), "` or `", to.name(), "`"));
        }
        if from.is_float() && to.is_float() {
            if from == to {
                self.mv(dest, src, 8);
            } else if to == Prim::F32 {
                self.da("cvt/f2f32", dest, src);
            } else {
                self.da("cvt/f322f", dest, src);
            }
            return Ok(());
        }
        if to.is_float() {
            let at: u64 = self.widen(src, scr, f.1, f.2);
            if f.2 {
                self.da("cvt/i2f", dest, at);
            } else {
                self.da("cvt/u2f", dest, at);
            }
            self.narrow_float(to, dest);
            return Ok(());
        }
        if from.is_float() {
            return Err(join3("a conversion from `", from.name(), "`"));
        }
        let at: u64 = self.widen(src, scr, f.1, f.2);
        if t.1 >= 64 {
            self.mv(dest, at, 8);
        } else {
            let n: String = decimal_of(t.1 as u64);
            let key: String = join2("zext/", n.as_str());
            self.da(key.as_str(), dest, at);
        }
        Ok(())
    }

    fn bound_test(&mut self, op: &str, from: Prim, tag: &str, v: u128, src: u64, err: usize)
        ensures
            final(self)@ == old(self)@.bound_test(
                old(self).env(),
                op@,
                from,
                tag@,
                v,
                src,
                err,
            ),
            final(self).env() == old(self).env(),
    {
        let bound: u64 = self.word(SPARE_WORD);
        let verdict: u64 = self.word(0);
        self.imm_num(bound, from, v);
        let key: String = join5("bin/", op, "/", tag, "/ff/f");
        self.dab(key.as_str(), verdict, src, bound);
        let br: String = self.arm_key("br/f", H::F);
        self.test(br.as_str(), verdict, V::Blk(err), V::Fall);
    }

    /// The type of a function's first result, where it is an aggregate.
    pub fn ret_agg(&self, fi: usize) -> (r: Option<usize>)
        ensures
            r == self.env().ret_agg(fi),
    {
        if fi < self.prog.funcs.len() && self.prog.funcs[fi].rets.len() > 0 {
            match self.prog.funcs[fi].rets[0] {
                Type::Agg(id) => Some(id),
                _ => None,
            }
        } else {
            None
        }
    }

    /// The tag width of a function's first result.
    pub fn ret_tag(&self, fi: usize) -> (r: Option<u32>)
        ensures
            r == self.env().ret_tag(fi),
    {
        match self.ret_agg(fi) {
            Some(id) => self.layout(id).tag_width(),
            None => None,
        }
    }

    fn checked_layouts(&self, fi: usize) -> (r: Option<(&'a Layout, &'a Layout, u32)>)
        ensures
            match r {
                Some(ls) => self.env().checked_layouts(fi) == Some((*ls.0, *ls.1, ls.2))
                    && ls.1.fields.len() == 2,
                None => self.env().checked_layouts(fi) is None,
            },
    {
        let id: usize = match self.ret_agg(fi) {
            Some(id) => id,
            None => {
                return None;
            },
        };
        let prog: &'a Program = self.prog;
        let info: &'a TypeInfo = prog.tables.info(id);
        match &info.shape {
            Shape::Con { args } => {
                if args.len() < 2 {
                    return None;
                }
                let error: &'a Layout = self.layout(args[1]);
                if info.layout.tag_width().is_none() || error.fields.len() != 2 {
                    return None;
                }
                match info.layout.payload_field(1, 0) {
                    Some(at) => Some((&info.layout, error, at)),
                    None => None,
                }
            },
            _ => None,
        }
    }

    /// A conversion of a value that may not fit.
    #[verifier::rlimit(40)]
    pub fn convert_checked(&mut self, fi: usize, from: Prim, to: Prim, src: u64, dest: u64) -> (r:
        Result<(), String>)
        requires
            src <= 0xffff_ffff,
            dest <= 0xffff_ffff,
        ensures
            final(self)@ == old(self)@.convert_checked(
                old(self).env(),
                fi,
                from,
                to,
                src,
                dest,
            ).0,
            match r {
                Ok(_) => old(self)@.convert_checked(
                    old(self).env(),
                    fi,
                    from,
                    to,
                    src,
                    dest,
                ).1 is None,
                Err(why) => old(self)@.convert_checked(
                    old(self).env(),
                    fi,
                    from,
                    to,
                    src,
                    dest,
                ).1 == Some(why@),
            },
            final(self).env() == old(self).env(),
    {
        reveal(Sel::convert_checked);
        let refusal: String = join4("Body::Runtime num.", from.name(), ".to", to.name());
        let ls: (&'a Layout, &'a Layout, u32) = match self.checked_layouts(fi) {
            Some(ls) => ls,
            None => {
                return Err(refusal);
            },
        };
        let t: (&'static str, u32, bool) = match prim_tag(from) {
            Some(t) => t,
            None => {
                return Err(refusal);
            },
        };
        let (f_range, t_range): ((i128, u128), (i128, u128)) = match (
            from.int_range(),
            to.int_range(),
        ) {
            (Some(f), Some(g)) => (f, g),
            _ => {
                return Err(refusal);
            },
        };
        let err: usize = self.label();
        let done: usize = self.label();
        if t_range.0 > f_range.0 {
            self.bound_test("lt", from, t.0, t_range.0 as u128, src, err);
        }
        if t_range.1 < f_range.1 {
            self.bound_test("gt", from, t.0, t_range.1, src, err);
        }
        let ok_at: u64 = dest + payload_at(ls.0, 0) as u64;
        let err_at: u64 = dest + ls.2 as u64;
        match self.convert(from, to, src, ok_at) {
            Ok(_) => {},
            Err(why) => {
                return Err(why);
            },
        }
        self.store_disc(ls.0, dest, 0);
        self.jump(V::Blk(done));
        self.place(err);
        self.add(
            Op::Show {
                prim: from,
                src,
                dest: err_at + ls.1.fields[0] as u64,
                quoted: false,
            },
        );
        self.str_literal(err_at + ls.1.fields[1] as u64, to.name().as_bytes());
        self.store_disc(ls.0, dest, 1);
        self.place(done);
        Ok(())
    }

    fn overflow_key(&self, p: Prim, kind: &str) -> (r: Option<String>)
        ensures
            match r {
                Some(k) => self.env().overflow_key(p, kind@) == Some(k@),
                None => self.env().overflow_key(p, kind@) is None,
            },
    {
        match (prim_tag(p), name_of_kind(kind)) {
            (Some(t), Some(n)) => {
                let key: String = join4("chk/", n, "/", t.0);
                if p.is_integer() && self.has(key.as_str()) {
                    Some(key)
                } else {
                    None
                }
            },
            _ => None,
        }
    }

    fn overflowing(&mut self, key: &str, a: u64, b: u64)
        ensures
            final(self)@ == old(self)@.overflowing(old(self).env(), key@, a, b),
            final(self).env() == old(self).env(),
    {
        let res: u64 = self.word(RAW_WORD);
        let flag: u64 = self.word(SPARE_WORD);
        self.emit(
            key,
            vec![
                (H::A, V::I(a)),
                (H::B, V::I(b)),
                (H::D, V::I(res)),
                (H::N, V::I(flag)),
                (H::Cont, V::Fall),
                (H::Cont0, V::Fall),
            ],
        );
    }

    /// Checked arithmetic as an option. Answers whether there is such a thing.
    pub fn checked(&mut self, fi: usize, p: Prim, kind: &str, a: u64, b: u64, dest: u64) -> (r: bool)
        requires
            dest <= 0xffff_ffff,
        ensures
            (final(self)@, r) == old(self)@.checked(
                old(self).env(),
                fi,
                p,
                kind@,
                a,
                b,
                dest,
            ),
            !r ==> final(self)@ == old(self)@,
            final(self).env() == old(self).env(),
    {
        reveal(Sel::checked);
        let (id, key, t) = match (self.ret_agg(fi), self.overflow_key(p, kind), prim_tag(p)) {
            (Some(id), Some(key), Some(t)) => (id, key, t),
            _ => {
                return false;
            },
        };
        let l: &'a Layout = self.layout(id);
        let res: u64 = self.word(RAW_WORD);
        let flag: u64 = self.word(SPARE_WORD);
        self.overflowing(key.as_str(), a, b);
        let some: usize = self.label();
        let done: usize = self.label();
        let br: String = self.arm_key("brcmp/eq/u64/fi", H::T);
        self.test_k(br.as_str(), flag, 0, V::Blk(some), V::Fall);
        self.store_disc(l, dest, 1);
        self.jump(V::Blk(done));
        self.place(some);
        self.store_w(dest + payload_at(l, 0) as u64, res, (t.1 / 8) as u64);
        self.store_disc(l, dest, 0);
        self.place(done);
        true
    }

    fn lt_zero(&mut self, d: u64, a: u64, tag: &str)
        requires
            a <= 0x100_0000_0000,
        ensures
            final(self)@ == old(self)@.lt_zero(d, a, tag@),
            final(self).env() == old(self).env(),
    {
        if same(tag, "i128") || same(tag, "u128") {
            self.dak("bin/lt/i64/fi/f", d, a + 8, 0);
        } else {
            let key: String = join3("bin/lt/", tag, "/fi/f");
            self.dak(key.as_str(), d, a, 0);
        }
    }

    fn ran_off(
        &mut self,
        p: Prim,
        tag: &str,
        kind: &str,
        a: u64,
        b: u64,
        dest: u64,
        done: usize,
        ends: (u128, u128),
    )
        requires
            a <= 0x100_0000_0000,
            b <= 0x100_0000_0000,
            dest <= 0x100_0000_0000,
            pattern(p, true) == Some(ends.0),
            pattern(p, false) == Some(ends.1),
        ensures
            final(self)@ == old(self)@.ran_off(
                old(self).env(),
                p,
                tag@,
                kind@,
                a,
                b,
                dest,
                done,
            ),
            final(self).env() == old(self).env(),
    {
        let scr: u64 = self.word(RAW_WORD + 1);
        self.lt_zero(scr, a, tag);
        if same(kind, "Mul") {
            self.lt_zero(scr + 8, b, tag);
            self.dab("bin/xor/u64/ff/f", scr, scr, scr + 8);
        }
        let top: usize = self.label();
        let br: String = self.arm_key("br/f", H::T);
        self.test(br.as_str(), scr, V::Fall, V::Blk(top));
        self.imm_num(dest, p, ends.0);
        self.jump(V::Blk(done));
        self.place(top);
        self.imm_num(dest, p, ends.1);
    }

    /// Saturating arithmetic. Answers whether there is such a thing.
    pub fn saturating(&mut self, p: Prim, kind: &str, a: u64, b: u64, dest: u64) -> (r: bool)
        requires
            a <= 0x100_0000_0000,
            b <= 0x100_0000_0000,
            dest <= 0x100_0000_0000,
        ensures
            (final(self)@, r) == old(self)@.saturating(old(self).env(), p, kind@, a, b, dest),
            final(self).env() == old(self).env(),
    {
        reveal(Sel::saturating);
        if same(kind, "Div") {
            return false;
        }
        let (key, t) = match (self.overflow_key(p, kind), prim_tag(p)) {
            (Some(key), Some(t)) => (key, t),
            _ => {
                return false;
            },
        };
        let res: u64 = self.word(RAW_WORD);
        let flag: u64 = self.word(SPARE_WORD);
        self.overflowing(key.as_str(), a, b);
        let ends: (u128, u128) = match (bound_pattern(p, true), bound_pattern(p, false)) {
            (Some(lo), Some(hi)) => (lo, hi),
            _ => {
                return false;
            },
        };
        let ok: usize = self.label();
        let done: usize = self.label();
        let br: String = self.arm_key("brcmp/eq/u64/fi", H::T);
        self.test_k(br.as_str(), flag, 0, V::Blk(ok), V::Fall);
        if !t.2 {
            let v: u128 = if same(kind, "Sub") {
                ends.0
            } else {
                ends.1
            };
            self.imm_num(dest, p, v);
        } else {
            self.ran_off(p, t.0, kind, a, b, dest, done, ends);
        }
        self.jump(V::Blk(done));
        self.place(ok);
        self.mv(dest, res, 8);
        self.place(done);
        true
    }

    /// Wrapping arithmetic. Answers whether there is such a thing.
    pub fn wrapping(&mut self, p: Prim, kind: &str, a: u64, b: u64, dest: u64) -> (r: bool)
        ensures
            (final(self)@, r) == old(self)@.wrapping(old(self).env(), p, kind@, a, b, dest),
            !r ==> final(self)@ == old(self)@,
            final(self).env() == old(self).env(),
    {
        reveal(Sel::wrapping);
        match (prim_tag(p), name_of_kind(kind)) {
            (Some(t), Some(n)) => {
                let key: String = join5("bin/", n, "/", t.0, "/ff/f");
                if !same(kind, "Div") && self.has(key.as_str()) {
                    self.dab(key.as_str(), dest, a, b);
                    true
                } else {
                    false
                }
            },
            _ => false,
        }
    }

    fn abs(&mut self, p: Prim, tag: &str, signed: bool, a: u64, dest: u64)
        requires
            a <= 0x100_0000_0000,
            dest <= 0x100_0000_0000,
        ensures
            final(self)@ == old(self)@.abs(old(self).env(), p, tag@, signed, a, dest),
            final(self).env() == old(self).env(),
    {
        if p.is_float() {
            let mask: u64 = if p == Prim::F32 {
                0x7fff_ffff
            } else {
                0x7fff_ffff_ffff_ffff
            };
            self.dak("bin/and/u64/fi/f", dest, a, mask);
            return;
        }
        self.mv(
            dest,
            a,
            if is_wide(p) {
                16
            } else {
                8
            },
        );
        if !signed {
            return;
        }
        let scr: u64 = self.word(SPARE_WORD);
        self.lt_zero(scr, a, tag);
        let skip: usize = self.label();
        let br: String = self.arm_key("br/f", H::T);
        self.test(br.as_str(), scr, V::Fall, V::Blk(skip));
        let key: String = join3("un/neg/", tag, "/f/f");
        self.da(key.as_str(), dest, a);
        self.place(skip);
    }

    fn sign_test(&mut self, p: Prim, op: &str, tag: &str, a: u64, dest: u64, v: u128)
        requires
            dest <= 0x100_0000_0000,
        ensures
            final(self)@ == old(self)@.sign_test(
                old(self).env(),
                p,
                op@,
                tag@,
                a,
                dest,
                v,
            ),
            final(self).env() == old(self).env(),
    {
        let scr: u64 = self.word(SPARE_WORD);
        let zero: u64 = self.word(RAW_WORD + 1);
        let form: &str = if is_wide(p) {
            "/ff/f"
        } else {
            "/fi/f"
        };
        let key: String = join5("bin/", op, "/", tag, form);
        self.emit(
            key.as_str(),
            vec![
                (H::D, V::I(scr)),
                (H::A, V::I(a)),
                (H::B, V::I(zero)),
                (H::K, V::I(0)),
                (H::Cont, V::Fall),
            ],
        );
        let skip: usize = self.label();
        let br: String = self.arm_key("br/f", H::T);
        self.test(br.as_str(), scr, V::Fall, V::Blk(skip));
        self.imm_num(dest, p, v);
        self.place(skip);
    }

    fn signum(&mut self, p: Prim, tag: &str, a: u64, dest: u64)
        requires
            dest <= 0x100_0000_0000,
        ensures
            final(self)@ == old(self)@.signum(old(self).env(), p, tag@, a, dest),
            final(self).env() == old(self).env(),
    {
        self.imm_num(dest, p, 0);
        if is_wide(p) {
            let zero: u64 = self.word(RAW_WORD + 1);
            self.imm_num(zero, p, 0);
        }
        self.sign_test(p, "gt", tag, a, dest, unit_of_prim(p));
        self.sign_test(p, "lt", tag, a, dest, minus_of_prim(p));
    }

    /// The magnitude or the sign of a number. Answers whether there is such a
    /// thing.
    pub fn abs_signum(&mut self, p: Prim, abs: bool, a: u64, dest: u64) -> (r: bool)
        requires
            a <= 0x100_0000_0000,
            dest <= 0x100_0000_0000,
        ensures
            (final(self)@, r) == old(self)@.abs_signum(old(self).env(), p, abs, a, dest),
            !r ==> final(self)@ == old(self)@,
            final(self).env() == old(self).env(),
    {
        reveal(Sel::abs_signum);
        match prim_tag(p) {
            Some(t) => {
                if abs {
                    self.abs(p, t.0, t.2, a, dest);
                } else {
                    self.signum(p, t.0, a, dest);
                }
                true
            },
            None => false,
        }
    }

    fn order_step(&mut self, key: &str, a: u64, b: u64, v: u64)
        ensures
            final(self)@ == old(self)@.order_step(old(self).env(), key@, a, b, v),
            final(self).env() == old(self).env(),
    {
        let raw: u64 = self.word(RAW_WORD);
        let scr: u64 = self.word(SPARE_WORD);
        self.dab(key, scr, a, b);
        let skip: usize = self.label();
        let br: String = self.arm_key("br/f", H::T);
        self.test(br.as_str(), scr, V::Fall, V::Blk(skip));
        self.imm_to(raw, v);
        self.place(skip);
    }

    fn order(&mut self, lt: &str, gt: &str, a: u64, b: u64)
        ensures
            final(self)@ == old(self)@.order(old(self).env(), lt@, gt@, a, b),
            final(self).env() == old(self).env(),
    {
        let raw: u64 = self.word(RAW_WORD);
        self.imm_to(raw, EQUAL);
        self.order_step(lt, a, b, LESS);
        self.order_step(gt, a, b, GREATER);
    }

    /// The order of two numbers, as an enum with a tag of `w` bytes.
    pub fn compare_prim(&mut self, p: Prim, a: u64, b: u64, dest: u64, w: u32)
        requires
            dest <= 0x100_0000_0000,
        ensures
            final(self)@ == old(self)@.compare_prim(old(self).env(), p, a, b, dest, w),
            final(self).env() == old(self).env(),
    {
        match prim_tag(p) {
            Some(t) => {
                let lt: String = join3("bin/lt/", t.0, "/ff/f");
                let gt: String = join3("bin/gt/", t.0, "/ff/f");
                self.order(lt.as_str(), gt.as_str(), a, b);
                let raw: u64 = self.word(RAW_WORD);
                self.store_w(dest, raw, w as u64);
            },
            None => {
                let why: String = join3("Ord::compare at `", p.name(), "`");
                self.unsupported(why);
            },
        }
    }

    /// A primitive mixed into a hash.
    pub fn hash_prim(&mut self, p: Prim, acc: u64, v: u64, dest: u64)
        requires
            v <= 0x100_0000_0000,
        ensures
            final(self)@ == old(self)@.hash_prim(old(self).env(), p, acc, v, dest),
            final(self).env() == old(self).env(),
    {
        if p.is_stringy() {
            self.c_call(
                "buri_rt_hash_str",
                vec![Src::Word(acc), Src::Word(v), Src::Word(v + 8), Src::Word(v + 16)],
                Vec::new(),
                dest,
                Ret::Int,
            );
        } else if p == Prim::Char {
            self.c_call(
                "buri_rt_hash_char",
                vec![Src::Word(acc), Src::Word(v)],
                Vec::new(),
                dest,
                Ret::Int,
            );
        } else if p == Prim::F32 || p == Prim::F64 {
            let at: u64 = if p == Prim::F32 {
                let scr: u64 = self.word(SPARE_WORD);
                self.da("cvt/f322f", scr, v);
                scr
            } else {
                v
            };
            let ints: Vec<Src> = vec![Src::Word(acc)];
            let floats: Vec<Src> = vec![Src::Word(at)];
            assert(ints@ =~= seq![Src::Word(acc)]);
            assert(floats@ =~= seq![Src::Word(at)]);
            self.c_call("buri_rt_hash_f64", ints, floats, dest, Ret::Int);
        } else {
            self.c_call(
                "buri_rt_mix",
                vec![Src::Word(acc), Src::Word(v)],
                Vec::new(),
                dest,
                Ret::Int,
            );
        }
    }

    fn shift_count_check(&mut self, count: u64, width: u32)
        ensures
            final(self)@ == old(self)@.shift_count_check(old(self).env(), count, width),
            final(self).env() == old(self).env(),
    {
        let ok: usize = self.label();
        let scr: u64 = self.word(SPARE_WORD);
        self.dak("bin/lt/u64/fi/f", scr, count, width as u64);
        let br: String = self.arm_key("br/f", H::T);
        self.test(br.as_str(), scr, V::Blk(ok), V::Fall);
        self.c_call("buri_rt_abort_shift", Vec::new(), Vec::new(), 0, Ret::Void);
        self.place(ok);
    }

    /// A bit operation. Answers whether the key is of one.
    pub fn bits_at(&mut self, key: &str, d: u64, a: u64, count: Option<u64>) -> (r: bool)
        ensures
            (final(self)@, r) == old(self)@.bits_at(old(self).env(), key@, d, a, count),
            !r ==> final(self)@ == old(self)@,
            final(self).env() == old(self).env(),
    {
        reveal(Sel::bits_at);
        let op: String = match strip_prefix(key, "bits.") {
            Some(op) => op,
            None => {
                return false;
            },
        };
        let w: u32 = bits_width_of(op.as_str());
        let st: String = stem_of(op.as_str());
        let n: String = decimal_of(w as u64);
        let k: String = join4("bits/", st.as_str(), "/", n.as_str());
        let why: String = join2("CallIntrinsic ", key);
        if same(st.as_str(), "popCount") || same(st.as_str(), "leadingZeros") || same(
            st.as_str(),
            "trailingZeros",
        ) {
            if self.has(k.as_str()) {
                self.da(k.as_str(), d, a);
            } else {
                self.unsupported(why);
            }
            return true;
        }
        match count {
            None => false,
            Some(c) => {
                self.shift_count_check(c, w);
                if self.has(k.as_str()) {
                    self.dab(k.as_str(), d, a, c);
                } else {
                    self.unsupported(why);
                }
                true
            },
        }
    }

    /// A trait leaf at a truth value, a character or a string. Answers whether
    /// the key is of one.
    pub fn prim_trait_at(
        &mut self,
        key: &str,
        d: u64,
        a: u64,
        b: u64,
        tag: Option<Option<u32>>,
    ) -> (r: bool)
        requires
            d <= 0x100_0000_0000,
            a <= 0x100_0000_0000,
        ensures
            (final(self)@, r) == old(self)@.prim_trait_at(
                old(self).env(),
                key@,
                d,
                a,
                b,
                tag,
            ),
            !r ==> final(self)@ == old(self)@,
            final(self).env() == old(self).env(),
    {
        reveal(Sel::prim_trait_at);
        let (module, op): (String, String) = match split_dot(key) {
            Some(p) => p,
            None => {
                return false;
            },
        };
        let p: Prim = if same(module.as_str(), "bool") {
            Prim::Bool
        } else if same(module.as_str(), "char") {
            Prim::Char
        } else if same(module.as_str(), "str") {
            Prim::Str
        } else {
            return false;
        };
        if same(op.as_str(), "show") {
            self.add(Op::Show { prim: p, src: a, dest: d, quoted: false });
            return true;
        }
        if same(op.as_str(), "eq") && p != Prim::Str {
            self.dab("bin/eq/u64/ff/f", d, a, b);
            return true;
        }
        if same(op.as_str(), "compare") && p != Prim::Str {
            self.order("bin/lt/u64/ff/f", "bin/gt/u64/ff/f", a, b);
            let raw: u64 = self.word(RAW_WORD);
            match tag {
                None => self.store_w(d, raw, 8),
                Some(Some(w)) => self.store_w(d, raw, w as u64),
                Some(None) => {
                    let why: String = join2(key, " into a destination that is not a tag");
                    self.unsupported(why);
                },
            }
            return true;
        }
        if same(op.as_str(), "hash") && p != Prim::Str {
            let seed: u64 = self.word(SPARE_WORD);
            self.imm_to(seed, HASH_SEED);
            let symbol: &str = if p == Prim::Char {
                "buri_rt_hash_char"
            } else {
                "buri_rt_mix"
            };
            self.c_call(symbol, vec![Src::Word(seed), Src::Word(a)], Vec::new(), d, Ret::Int);
            return true;
        }
        if same(op.as_str(), "toU32") && p == Prim::Char {
            self.mv(d, a, 8);
            return true;
        }
        false
    }
}

} // verus!
