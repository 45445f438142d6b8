//! What arithmetic comes to: a number at a slot is its pattern at its own width, zeros above.

use crate::copies::{copied, Frame};
use crate::grown::{
    adds, adds_imm_num, adds_jump, adds_lt_zero, adds_order_step, adds_place, adds_ran_off,
    adds_sign_test, adds_store_w,
};
use crate::machine::{
    arm_is_a_twin, byte_beside_put, clear, copies_words, hole, leads, moves_fields, op_da, op_dab,
    op_dak, tests_words, word, word_beside_copied, word_beside_put, word_of_copied, word_of_put,
    Machine, Run, St,
};
use crate::numeric::{a_bound_is_its_pattern_modulo_the_width, modulus, pattern, wide};
use crate::owning::tag_number;
use crate::prim::{tag_of, Prim};
use crate::select::{Env, Item, Sel, H, V};
use crate::text::decimal;
use vstd::prelude::*;

verus! {

/// What stands for an integer type of a word at most in the key of a stencil.
pub open spec fn suffix(p: Prim) -> Seq<char> {
    match p {
        Prim::I8 => "i8"@,
        Prim::I16 => "i16"@,
        Prim::I32 => "i32"@,
        Prim::I64 => "i64"@,
        Prim::U8 => "u8"@,
        Prim::U16 => "u16"@,
        Prim::U32 => "u32"@,
        _ => "u64"@,
    }
}

/// Whether a type is an integer of a word at most.
pub open spec fn narrow(p: Prim) -> bool {
    p.integer() && !wide(p)
}

/// Whether a word has zeros above the pattern of a number of a type.
pub open spec fn fits(p: Prim, w: u64) -> bool {
    w < modulus(p)
}

/// The number whose pattern is the low end of a word.
pub open spec fn number(p: Prim, w: u64) -> int {
    let low = w as int % modulus(p);
    if low <= p.range().1 {
        low
    } else {
        low - modulus(p)
    }
}

/// The pattern of a number, at the width of the type.
pub open spec fn slot(p: Prim, n: int) -> u64 {
    (n % modulus(p)) as u64
}

/// A number brought into the range of a type.
pub open spec fn clamped(p: Prim, n: int) -> int {
    if n < p.range().0 {
        p.range().0
    } else if n > p.range().1 {
        p.range().1
    } else {
        n
    }
}

/// A sum, a difference or a product.
pub enum Sum {
    Plus,
    Minus,
    Times,
}

impl Sum {
    /// The exact result.
    pub open spec fn of(self, x: int, y: int) -> int {
        match self {
            Sum::Plus => x + y,
            Sum::Minus => x - y,
            Sum::Times => x * y,
        }
    }

    /// Its word in the key of a stencil.
    pub open spec fn key(self) -> Seq<char> {
        match self {
            Sum::Plus => "add"@,
            Sum::Minus => "sub"@,
            Sum::Times => "mul"@,
        }
    }

    /// Its word in an instruction.
    pub open spec fn kind(self) -> Seq<char> {
        match self {
            Sum::Plus => "Add"@,
            Sum::Minus => "Sub"@,
            Sum::Times => "Mul"@,
        }
    }
}

/// The operation that leaves a result at `d` and whether it is not exact at `n`.
pub open spec fn op_chk(key: Seq<char>, a: u64, b: u64, d: u64, n: u64) -> Item {
    Item::Stencil {
        key,
        binds: seq![
            (H::A, V::I(a)),
            (H::B, V::I(b)),
            (H::D, V::I(d)),
            (H::N, V::I(n)),
            (H::Cont, V::Fall),
            (H::Cont0, V::Fall),
        ],
    }
}

/// A truth value as a word.
pub open spec fn truth(b: bool) -> u64 {
    if b {
        1
    } else {
        0
    }
}

/// The operation of a stencil from `a` and `b`, with a literal beside them, to `d`.
pub open spec fn op_dabk(key: Seq<char>, d: u64, a: u64, b: u64, k: u64) -> Item {
    Item::Stencil {
        key,
        binds: seq![
            (H::D, V::I(d)),
            (H::A, V::I(a)),
            (H::B, V::I(b)),
            (H::K, V::I(k)),
            (H::Cont, V::Fall),
        ],
    }
}

/// Numbers are added, subtracted, multiplied and negated at their width, and compared.
pub open spec fn reckons(m: Machine) -> bool {
    &&& forall|o: Sum, p: Prim, d: u64, a: u64, b: u64, st: St|
        narrow(p) ==> #[trigger] (m.does)(
            op_dab("bin/"@ + o.key() + "/"@ + suffix(p) + "/ff/f"@, d, a, b),
            st,
        ) == st.with(d, slot(p, o.of(number(p, st.at(a)), number(p, st.at(b)))))
    &&& forall|p: Prim, d: u64, a: u64, st: St|
        narrow(p) ==> #[trigger] (m.does)(op_da("un/neg/"@ + suffix(p) + "/f/f"@, d, a), st)
            == st.with(d, slot(p, -number(p, st.at(a))))
    &&& forall|p: Prim, d: u64, a: u64, b: u64, st: St|
        narrow(p) ==> #[trigger] (m.does)(op_dab("bin/lt/"@ + suffix(p) + "/ff/f"@, d, a, b), st)
            == st.with(d, truth(number(p, st.at(a)) < number(p, st.at(b))))
    &&& forall|p: Prim, d: u64, a: u64, b: u64, st: St|
        narrow(p) ==> #[trigger] (m.does)(op_dab("bin/gt/"@ + suffix(p) + "/ff/f"@, d, a, b), st)
            == st.with(d, truth(number(p, st.at(a)) > number(p, st.at(b))))
    &&& forall|p: Prim, d: u64, a: u64, b: u64, k: u64, st: St|
        narrow(p) ==> #[trigger] (m.does)(
            op_dabk("bin/lt/"@ + suffix(p) + "/fi/f"@, d, a, b, k),
            st,
        ) == st.with(d, truth(number(p, st.at(a)) < number(p, k)))
    &&& forall|p: Prim, d: u64, a: u64, b: u64, k: u64, st: St|
        narrow(p) ==> #[trigger] (m.does)(
            op_dabk("bin/gt/"@ + suffix(p) + "/fi/f"@, d, a, b, k),
            st,
        ) == st.with(d, truth(number(p, st.at(a)) > number(p, k)))
}

/// The bits of an integer type of a word at most.
pub open spec fn width_of(p: Prim) -> nat {
    match p {
        Prim::I8 => 8,
        Prim::U8 => 8,
        Prim::I16 => 16,
        Prim::U16 => 16,
        Prim::I32 => 32,
        Prim::U32 => 32,
        _ => 64,
    }
}

/// Numbers are extended to a word: with their sign, or with zeros.
pub open spec fn extends(m: Machine) -> bool {
    &&& forall|p: Prim, d: u64, a: u64, st: St|
        narrow(p) && p.range().0 < 0 ==> #[trigger] (m.does)(
            op_da("sext/"@ + decimal(width_of(p)), d, a),
            st,
        ) == st.with(d, slot(Prim::I64, number(p, st.at(a))))
    &&& forall|p: Prim, d: u64, a: u64, st: St|
        narrow(p) ==> #[trigger] (m.does)(op_da("zext/"@ + decimal(width_of(p)), d, a), st)
            == st.with(d, (st.at(a) as int % modulus(p)) as u64)
}

/// Checked operations leave the result at its width and whether it ran off, comparisons with a
/// literal leave a truth value, and bits are combined.
pub open spec fn counts_numbers(m: Machine) -> bool {
    &&& forall|o: Sum, p: Prim, a: u64, b: u64, d: u64, n: u64, st: St|
        narrow(p) ==> #[trigger] (m.does)(
            op_chk("chk/"@ + o.key() + "/"@ + suffix(p), a, b, d, n),
            st,
        ) == ({
            let v = o.of(number(p, st.at(a)), number(p, st.at(b)));
            st.with(d, slot(p, v)).with(n, truth(v < p.range().0 || v > p.range().1))
        })
    &&& forall|p: Prim, d: u64, a: u64, k: u64, st: St|
        narrow(p) ==> #[trigger] (m.does)(op_dak("bin/lt/"@ + suffix(p) + "/fi/f"@, d, a, k), st)
            == st.with(d, truth(number(p, st.at(a)) < number(p, k)))
    &&& forall|d: u64, a: u64, b: u64, st: St| #[trigger]
        (m.does)(op_dab("bin/xor/u64/ff/f"@, d, a, b), st) == st.with(d, st.at(a) ^ st.at(b))
}

/// Whether a state is another but for `n` bytes at `d` and what is behind the slots.
pub open spec fn kept(before: St, after: St, slots: int, d: int, n: int) -> bool {
    &&& after.heap == before.heap
    &&& after.regs == before.regs
    &&& after.floats == before.floats
    &&& after.log == before.log
    &&& forall|x: int|
        x < slots && (x < d || d + n <= x) ==> #[trigger] (after.frame)(x) == (before.frame)(x)
}

proof fn lemma_word_kept(before: St, after: St, slots: int, d: int, n: int, a: u64)
    requires
        kept(before, after, slots, d, n),
        a + 8 <= slots,
        clear(d, n, a as int, 8),
    ensures
        after.at(a) == before.at(a),
{
    reveal(word);
    assert(Seq::new(8, |i: int| (after.frame)(a + i)) =~= Seq::new(
        8,
        |i: int| (before.frame)(a + i),
    ));
}

proof fn lemma_bits()
    ensures
        0u64 ^ 0u64 == 0,
        0u64 ^ 1u64 == 1,
        1u64 ^ 0u64 == 1,
        1u64 ^ 1u64 == 0,
{
    assert(0u64 ^ 0u64 == 0 && 0u64 ^ 1u64 == 1 && 1u64 ^ 0u64 == 1 && 1u64 ^ 1u64 == 0)
        by (bit_vector);
}

proof fn lemma_texts()
    ensures
        "Add"@ != "Sub"@,
        "Add"@ != "Mul"@,
        "Add"@ != "Div"@,
        "Sub"@ != "Mul"@,
        "Sub"@ != "Div"@,
        "Mul"@ != "Div"@,
{
    reveal_strlit("Add");
    reveal_strlit("Sub");
    reveal_strlit("Mul");
    reveal_strlit("Div");
    assert("Add"@[0] != "Sub"@[0]);
    assert("Add"@[0] != "Mul"@[0]);
    assert("Add"@[0] != "Div"@[0]);
    assert("Sub"@[0] != "Mul"@[0]);
    assert("Sub"@[0] != "Div"@[0]);
    assert("Mul"@[0] != "Div"@[0]);
}

proof fn lemma_signs(x: int, y: int)
    ensures
        (x < 0) != (y < 0) ==> x * y <= 0,
        (x < 0) == (y < 0) ==> x * y >= 0,
{
    assert((x < 0 && y >= 0) ==> x * y <= 0) by (nonlinear_arith);
    assert((x >= 0 && y < 0) ==> x * y <= 0) by (nonlinear_arith);
    assert((x < 0 && y < 0) ==> x * y >= 0) by (nonlinear_arith);
    assert((x >= 0 && y >= 0) ==> x * y >= 0) by (nonlinear_arith);
}

/// The pattern of a bound is what a slot holds for it.
proof fn lemma_bound(p: Prim, low: bool)
    requires
        narrow(p),
    ensures
        pattern(p, low) is Some,
        (pattern(p, low)->0) as u64 == slot(
            p,
            if low {
                p.range().0
            } else {
                p.range().1
            },
        ),
{
    a_bound_is_its_pattern_modulo_the_width(p, low);
    let bound = if low {
        p.range().0
    } else {
        p.range().1
    };
    let v = (pattern(p, low)->0) as int;
    let k = modulus(p);
    if v == bound {
        vstd::arithmetic::div_mod::lemma_small_mod(v as nat, k as nat);
    } else {
        vstd::arithmetic::div_mod::lemma_small_mod(v as nat, k as nat);
        vstd::arithmetic::div_mod::lemma_mod_add_multiples_vanish(bound, k);
    }
    assert(k <= 0x1_0000_0000_0000_0000);
}

/// Where the checked operation leads.
proof fn lemma_chk(r: Run, s: Sel, e: Env, o: Sum, p: Prim, a: u64, b: u64, st: St)
    requires
        counts_numbers(r.m),
        narrow(p),
        r.has(s.overflowing(e, "chk/"@ + o.key() + "/"@ + suffix(p), a, b)),
    ensures
        ({
            let v = o.of(number(p, st.at(a)), number(p, st.at(b)));
            let t = s.overflowing(e, "chk/"@ + o.key() + "/"@ + suffix(p), a, b);
            &&& t.ops.len() == s.ops.len() + 1
            &&& r.goes(
                s.ops.len() as int,
                st,
                t.ops.len() as int,
                st.with(e.word(28), slot(p, v)).with(
                    e.word(27),
                    truth(v < p.range().0 || v > p.range().1),
                ),
            )
        }),
{
    let key = "chk/"@ + o.key() + "/"@ + suffix(p);
    let i = op_chk(key, a, b, e.word(28), e.word(27));
    assert(s.overflowing(e, key, a, b) == s.add(i));
    reveal_with_fuel(hole, 8);
    r.lemma_add(s, i, st);
}

/// Whether a number is negative.
proof fn lemma_lt_zero(r: Run, s: Sel, p: Prim, d: u64, a: u64, st: St)
    requires
        counts_numbers(r.m),
        narrow(p),
        r.has(s.lt_zero(d, a, suffix(p))),
    ensures
        r.has(s),
        s.lt_zero(d, a, suffix(p)).ops.len() == s.ops.len() + 1,
        r.goes(
            s.ops.len() as int,
            st,
            s.ops.len() as int + 1,
            st.with(d, truth(number(p, st.at(a)) < 0)),
        ),
{
    lemma_narrow_suffix(p);
    let i = op_dak("bin/lt/"@ + suffix(p) + "/fi/f"@, d, a, 0);
    assert(s.lt_zero(d, a, suffix(p)) == s.add(i));
    reveal_with_fuel(hole, 6);
    r.lemma_add(s, i, st);
    assert(number(p, 0) == 0);
}

proof fn lemma_narrow_suffix(p: Prim)
    ensures
        suffix(p) != "i128"@,
        suffix(p) != "u128"@,
{
    reveal_strlit("i8");
    reveal_strlit("i16");
    reveal_strlit("i32");
    reveal_strlit("i64");
    reveal_strlit("u8");
    reveal_strlit("u16");
    reveal_strlit("u32");
    reveal_strlit("u64");
    reveal_strlit("i128");
    reveal_strlit("u128");
    assert(suffix(p).len() < 4);
}

/// From behind a result that ran off: the end that it ran off, and on to where all is done.
proof fn lemma_off(
    r: Run,
    e: Env,
    s: Sel,
    o: Sum,
    p: Prim,
    a: u64,
    b: u64,
    dest: u64,
    done: usize,
    st: St,
) -> (after: St)
    requires
        r.wf(),
        leads(r.m),
        copies_words(r.m),
        tests_words(r.m),
        counts_numbers(r.m),
        narrow(p),
        a + 8 <= e.scratch,
        b + 8 <= e.scratch,
        dest + 8 <= e.scratch,
        ({
            let v = o.of(number(p, st.at(a)), number(p, st.at(b)));
            v < p.range().0 || v > p.range().1
        }),
        ({
            let t = tag_of(p)->0;
            r.has(
                (if !t.2 {
                    s.imm_num(dest, p, pattern(p, o.kind() == "Sub"@)->0)
                } else {
                    s.ran_off(e, p, t.0, o.kind(), a, b, dest, done)
                }).jump(V::Blk(done)),
            )
        }),
    ensures
        r.has(s),
        r.goes(s.ops.len() as int, st, (r.at)(done), after),
        after.at(dest) == slot(p, clamped(p, o.of(number(p, st.at(a)), number(p, st.at(b))))),
        kept(st, after, e.scratch as int, dest as int, 8),
{
    broadcast use {word_of_put, word_beside_put, byte_beside_put, arm_is_a_twin};

    lemma_texts();
    lemma_bits();
    lemma_bound(p, true);
    lemma_bound(p, false);
    let kind = o.kind();
    let x = number(p, st.at(a));
    let y = number(p, st.at(b));
    let v = o.of(x, y);
    lemma_signs(x, y);
    let t = tag_of(p)->0;
    assert(t.0 == suffix(p));
    let pc = s.ops.len() as int;
    let lo = pattern(p, true)->0;
    let hi = pattern(p, false)->0;
    if !t.2 {
        let w = pattern(p, kind == "Sub"@)->0;
        let s1 = s.imm_num(dest, p, w);
        assert(s1 == s.imm_to(dest, w as u64));
        let after = st.with(dest, w as u64);
        r.lemma_jump(s1, V::Blk(done), after);
        r.lemma_imm(s, dest, w as u64, st);
        r.lemma_on(pc, st, s1.ops.len() as int, after, (r.at)(done), after);
        after
    } else {
        let scr = e.word(29);
        let other = e.word(30);
        assert(other == (scr + 8) as u64);
        let s1 = s.lt_zero(scr, a, t.0);
        let st1 = st.with(scr, truth(x < 0));
        let two = s1.lt_zero(other, b, t.0);
        let s2 = if kind == "Mul"@ {
            two.dab("bin/xor/u64/ff/f"@, scr, scr, other)
        } else {
            s1
        };
        let low = v < p.range().0;
        let top = s2.next();
        let s3 = s2.fresh();
        let br = e.arm("br/f"@, H::T);
        let s4 = s3.test(br, scr, V::Fall, V::Blk(top));
        let s5 = s4.imm_num(dest, p, lo);
        let s6 = s5.jump(V::Blk(done));
        let s7 = s6.place(top);
        let s8 = s7.imm_num(dest, p, hi);
        assert(s8 == s.ran_off(e, p, t.0, kind, a, b, dest, done));
        let st2 = if kind == "Mul"@ {
            st1.with(other, truth(y < 0)).with(scr, truth(x < 0) ^ truth(y < 0))
        } else {
            st1
        };
        let end_lo = st2.with(dest, lo as u64);
        let end_hi = st2.with(dest, hi as u64);
        r.lemma_jump(s8, V::Blk(done), end_hi);
        r.lemma_imm(s7, dest, hi as u64, st2);
        r.lemma_place(s6, top, st2);
        r.lemma_jump(s5, V::Blk(done), end_lo);
        r.lemma_imm(s4, dest, lo as u64, st2);
        r.lemma_test(s3, br, scr, V::Fall, V::Blk(top), st2);
        if kind == "Mul"@ {
            let i = op_dab("bin/xor/u64/ff/f"@, scr, scr, other);
            assert(s2 == two.add(i));
            reveal_with_fuel(hole, 6);
            let mid = st1.with(other, truth(y < 0));
            r.lemma_add(two, i, mid);
            assert(st1.at(b) == st.at(b));
            lemma_lt_zero(r, s1, p, other, b, st1);
            lemma_lt_zero(r, s, p, scr, a, st);
            r.lemma_on(pc, st, s1.ops.len() as int, st1, two.ops.len() as int, mid);
            assert(mid.at(scr) == truth(x < 0));
            assert(mid.at(other) == truth(y < 0));
            r.lemma_on(pc, st, two.ops.len() as int, mid, s2.ops.len() as int, st2);
        } else {
            lemma_lt_zero(r, s, p, scr, a, st);
        }
        assert(st2.at(scr) != 0 <==> low);
        if low {
            r.lemma_on(pc, st, s3.ops.len() as int, st2, s4.ops.len() as int, st2);
            r.lemma_on(pc, st, s4.ops.len() as int, st2, s5.ops.len() as int, end_lo);
            r.lemma_on(pc, st, s5.ops.len() as int, end_lo, (r.at)(done), end_lo);
            end_lo
        } else {
            r.lemma_on(pc, st, s3.ops.len() as int, st2, s6.ops.len() as int, st2);
            r.lemma_on(pc, st, s6.ops.len() as int, st2, s7.ops.len() as int, st2);
            r.lemma_on(pc, st, s7.ops.len() as int, st2, s8.ops.len() as int, end_hi);
            r.lemma_on(pc, st, s8.ops.len() as int, end_hi, (r.at)(done), end_hi);
            end_hi
        }
    }
}

/// Saturating arithmetic is there for a sum, a difference and a product at every integer type of a
/// word at most whose checked operation the library has. It leaves the exact result brought into
/// the range of the type: the highest number past the top, the lowest below the bottom, and the
/// result itself in between. Nothing else that a slot holds changes.
pub proof fn saturating_arithmetic_clamps_the_exact_result(
    r: Run,
    e: Env,
    s: Sel,
    o: Sum,
    p: Prim,
    a: u64,
    b: u64,
    dest: u64,
    st: St,
) -> (after: St)
    requires
        r.wf(),
        leads(r.m),
        copies_words(r.m),
        tests_words(r.m),
        counts_numbers(r.m),
        narrow(p),
        a + 8 <= e.scratch,
        b + 8 <= e.scratch,
        dest + 8 <= e.scratch,
        e.has("chk/"@ + o.key() + "/"@ + suffix(p)),
        r.has(s.saturating(e, p, o.kind(), a, b, dest).0),
    ensures
        s.saturating(e, p, o.kind(), a, b, dest).1,
        r.goes(
            s.ops.len() as int,
            st,
            s.saturating(e, p, o.kind(), a, b, dest).0.ops.len() as int,
            after,
        ),
        after.at(dest) == slot(p, clamped(p, o.of(number(p, st.at(a)), number(p, st.at(b))))),
        kept(st, after, e.scratch as int, dest as int, 8),
{
    broadcast use {word_of_put, word_beside_put, word_of_copied, word_beside_copied,
        byte_beside_put, arm_is_a_twin};

    reveal(Sel::saturating);
    lemma_texts();
    lemma_bits();
    lemma_bound(p, true);
    lemma_bound(p, false);
    let kind = o.kind();
    let x = number(p, st.at(a));
    let y = number(p, st.at(b));
    let v = o.of(x, y);
    lemma_signs(x, y);
    let t = tag_of(p)->0;
    assert(t.0 == suffix(p));
    let key = "chk/"@ + o.key() + "/"@ + suffix(p);
    assert(e.overflow_key(p, kind) == Some(key));
    let end = s.saturating(e, p, kind, a, b, dest).0;
    let s1 = s.overflowing(e, key, a, b);
    let ok = s1.next();
    let done = s1.fresh().next();
    let brk = e.arm("brcmp/eq/u64/fi"@, H::T);
    let s2 = s1.fresh().fresh();
    let s3 = s2.test_k(brk, e.word(27), 0, V::Blk(ok), V::Fall);
    let s4 = if !t.2 {
        s3.imm_num(dest, p, pattern(p, kind == "Sub"@)->0)
    } else {
        s3.ran_off(e, p, t.0, kind, a, b, dest, done)
    };
    let s5 = s4.jump(V::Blk(done));
    let s6 = s5.place(ok);
    let s7 = s6.mv(dest, e.word(28), 8);
    let s8 = s7.place(done);
    assert(end == s8);
    let off = v < p.range().0 || v > p.range().1;
    let st1 = st.with(e.word(28), slot(p, v)).with(e.word(27), truth(off));
    let st7 = st1.moved(dest, e.word(28), 8);
    let at_end = s8.ops.len() as int;
    let pc0 = s.ops.len() as int;
    r.lemma_place(s7, done, st7);
    r.lemma_mv(s6, dest, e.word(28), 8, st1);
    r.lemma_place(s5, ok, st1);
    broadcast use {adds_ran_off, adds_imm_num, adds_jump};

    reveal(adds);
    let after = if !off {
        st7
    } else {
        lemma_off(r, e, s3, o, p, a, b, dest, done, st1)
    };
    r.lemma_test_k(s2, brk, e.word(27), 0, V::Blk(ok), V::Fall, st1);
    lemma_chk(r, s, e, o, p, a, b, st);
    if !off {
        r.lemma_on(pc0, st, s2.ops.len() as int, st1, s5.ops.len() as int, st1);
        r.lemma_on(pc0, st, s5.ops.len() as int, st1, s6.ops.len() as int, st1);
        r.lemma_on(pc0, st, s6.ops.len() as int, st1, s7.ops.len() as int, st7);
        r.lemma_on(pc0, st, s7.ops.len() as int, st7, at_end, st7);
    } else {
        r.lemma_on(pc0, st, s2.ops.len() as int, st1, s3.ops.len() as int, st1);
        r.lemma_place(s7, done, after);
        r.lemma_on(pc0, st, s3.ops.len() as int, st1, s7.ops.len() as int, after);
        r.lemma_on(pc0, st, s7.ops.len() as int, after, at_end, after);
    }
    after
}

/// Wrapping arithmetic is there where the library has the operation, and leaves the exact result at
/// the width of the type: that result less as many times the number of values of the type as it
/// takes.
pub proof fn wrapping_arithmetic_keeps_the_low_end(
    r: Run,
    e: Env,
    s: Sel,
    o: Sum,
    p: Prim,
    a: u64,
    b: u64,
    dest: u64,
    st: St,
) -> (after: St)
    requires
        reckons(r.m),
        narrow(p),
        e.has("bin/"@ + o.key() + "/"@ + suffix(p) + "/ff/f"@),
        r.has(s.wrapping(e, p, o.kind(), a, b, dest).0),
    ensures
        s.wrapping(e, p, o.kind(), a, b, dest).1,
        r.goes(
            s.ops.len() as int,
            st,
            s.wrapping(e, p, o.kind(), a, b, dest).0.ops.len() as int,
            after,
        ),
        after == st.with(dest, slot(p, o.of(number(p, st.at(a)), number(p, st.at(b))))),
{
    reveal(Sel::wrapping);
    lemma_texts();
    let key = "bin/"@ + o.key() + "/"@ + suffix(p) + "/ff/f"@;
    let i = op_dab(key, dest, a, b);
    assert(s.wrapping(e, p, o.kind(), a, b, dest).0 == s.add(i));
    reveal_with_fuel(hole, 6);
    r.lemma_add(s, i, st);
    (r.m.does)(i, st)
}

/// The magnitude of a number is left at its width: the number itself, or the number negated where it
/// is below zero.
pub proof fn a_magnitude_is_the_number_without_its_sign(
    r: Run,
    e: Env,
    s: Sel,
    p: Prim,
    a: u64,
    dest: u64,
    st: St,
) -> (after: St)
    requires
        r.wf(),
        leads(r.m),
        copies_words(r.m),
        tests_words(r.m),
        counts_numbers(r.m),
        reckons(r.m),
        narrow(p),
        fits(p, st.at(a)),
        a + 8 <= e.scratch,
        dest + 8 <= e.scratch,
        dest == a || clear(dest as int, 8, a as int, 8),
        dest == a ==> p.range().0 == 0,
        r.has(s.abs_signum(e, p, true, a, dest).0),
    ensures
        s.abs_signum(e, p, true, a, dest).1,
        r.goes(
            s.ops.len() as int,
            st,
            s.abs_signum(e, p, true, a, dest).0.ops.len() as int,
            after,
        ),
        after.at(dest) == slot(
            p,
            if number(p, st.at(a)) < 0 {
                -number(p, st.at(a))
            } else {
                number(p, st.at(a))
            },
        ),
        kept(st, after, e.scratch as int, dest as int, 8),
{
    broadcast use {word_of_put, word_beside_put, word_of_copied, word_beside_copied,
        byte_beside_put, arm_is_a_twin, adds_place, adds_lt_zero, crate::grown::adds_da};

    reveal(Sel::abs_signum);
    let t = tag_of(p)->0;
    assert(t.0 == suffix(p));
    let x = number(p, st.at(a));
    let pc = s.ops.len() as int;
    assert(x >= 0 ==> slot(p, x) == st.at(a)) by {
        vstd::arithmetic::div_mod::lemma_small_mod(st.at(a) as nat, modulus(p) as nat);
        if x >= 0 {
            vstd::arithmetic::div_mod::lemma_small_mod(x as nat, modulus(p) as nat);
        }
    }
    let s1 = s.mv(dest, a, 8);
    let st1 = st.moved(dest, a, 8);
    if !t.2 {
        r.lemma_mv(s, dest, a, 8, st);
        st1
    } else {
        let scr = e.word(27);
        let s2 = s1.lt_zero(scr, a, t.0);
        let skip = s2.next();
        let s3 = s2.fresh();
        let br = e.arm("br/f"@, H::T);
        let s4 = s3.test(br, scr, V::Fall, V::Blk(skip));
        let o = op_da("un/neg/"@ + t.0 + "/f/f"@, dest, a);
        let s5 = s4.add(o);
        let s6 = s5.place(skip);
        assert(s.abs_signum(e, p, true, a, dest).0 == s6);
        r.lemma_place(s5, skip, st);
        reveal_with_fuel(hole, 5);
        r.lemma_add(s4, o, st);
        let st2 = st1.with(scr, truth(x < 0));
        r.lemma_test(s3, br, scr, V::Fall, V::Blk(skip), st2);
        lemma_lt_zero(r, s1, p, scr, a, st1);
        r.lemma_mv(s, dest, a, 8, st);
        assert(st1.at(a) == st.at(a));
        assert(st2.at(a) == st.at(a));
        r.lemma_on(pc, st, s1.ops.len() as int, st1, s2.ops.len() as int, st2);
        if x < 0 {
            r.lemma_on(pc, st, s3.ops.len() as int, st2, s4.ops.len() as int, st2);
            r.lemma_add(s4, o, st2);
            let st3 = (r.m.does)(o, st2);
            r.lemma_on(pc, st, s4.ops.len() as int, st2, s5.ops.len() as int, st3);
            r.lemma_place(s5, skip, st3);
            r.lemma_on(pc, st, s5.ops.len() as int, st3, s6.ops.len() as int, st3);
            st3
        } else {
            r.lemma_on(pc, st, s3.ops.len() as int, st2, s5.ops.len() as int, st2);
            r.lemma_place(s5, skip, st2);
            r.lemma_on(pc, st, s5.ops.len() as int, st2, s6.ops.len() as int, st2);
            st2
        }
    }
}

/// One end of a sign.
proof fn lemma_sign(
    r: Run,
    e: Env,
    s: Sel,
    p: Prim,
    above: bool,
    a: u64,
    dest: u64,
    v: u128,
    st: St,
) -> (after: St)
    requires
        r.wf(),
        leads(r.m),
        copies_words(r.m),
        tests_words(r.m),
        reckons(r.m),
        narrow(p),
        a + 8 <= e.scratch,
        dest + 8 <= e.scratch,
        r.has(
            s.sign_test(
                e,
                p,
                if above {
                    "gt"@
                } else {
                    "lt"@
                },
                suffix(p),
                a,
                dest,
                v,
            ),
        ),
    ensures
        r.has(s),
        r.goes(
            s.ops.len() as int,
            st,
            s.sign_test(
                e,
                p,
                if above {
                    "gt"@
                } else {
                    "lt"@
                },
                suffix(p),
                a,
                dest,
                v,
            ).ops.len() as int,
            after,
        ),
        after.at(dest) == if (if above {
            number(p, st.at(a)) > 0
        } else {
            number(p, st.at(a)) < 0
        }) {
            v as u64
        } else {
            st.at(dest)
        },
        kept(st, after, e.scratch as int, dest as int, 8),
{
    broadcast use {word_of_put, word_beside_put, byte_beside_put, arm_is_a_twin};

    let op = if above {
        "gt"@
    } else {
        "lt"@
    };
    let scr = e.word(27);
    let o = op_dabk("bin/"@ + op + "/"@ + suffix(p) + "/fi/f"@, scr, a, e.word(29), 0);
    assert("bin/"@ + "gt"@ + "/"@ =~= "bin/gt/"@ && "bin/"@ + "lt"@ + "/"@ =~= "bin/lt/"@) by {
        reveal_strlit("bin/");
        reveal_strlit("gt");
        reveal_strlit("lt");
        reveal_strlit("/");
        reveal_strlit("bin/gt/");
        reveal_strlit("bin/lt/");
    }
    let s1 = s.add(o);
    let skip = s1.next();
    let s2 = s1.fresh();
    let br = e.arm("br/f"@, H::T);
    let s3 = s2.test(br, scr, V::Fall, V::Blk(skip));
    let s4 = s3.imm_to(dest, v as u64);
    let s5 = s4.place(skip);
    assert(s.sign_test(e, p, op, suffix(p), a, dest, v) == s5);
    let pc = s.ops.len() as int;
    let x = number(p, st.at(a));
    let holds = if above {
        x > 0
    } else {
        x < 0
    };
    assert(number(p, 0) == 0);
    let st1 = st.with(scr, truth(holds));
    r.lemma_place(s4, skip, st1);
    r.lemma_imm(s3, dest, v as u64, st1);
    r.lemma_test(s2, br, scr, V::Fall, V::Blk(skip), st1);
    reveal_with_fuel(hole, 7);
    r.lemma_add(s, o, st);
    assert((r.m.does)(o, st) == st1);
    if holds {
        let st2 = st1.with(dest, v as u64);
        r.lemma_on(pc, st, s2.ops.len() as int, st1, s3.ops.len() as int, st1);
        r.lemma_on(pc, st, s3.ops.len() as int, st1, s4.ops.len() as int, st2);
        r.lemma_place(s4, skip, st2);
        r.lemma_on(pc, st, s4.ops.len() as int, st2, s5.ops.len() as int, st2);
        st2
    } else {
        r.lemma_on(pc, st, s2.ops.len() as int, st1, s4.ops.len() as int, st1);
        r.lemma_on(pc, st, s4.ops.len() as int, st1, s5.ops.len() as int, st1);
        st1
    }
}

/// The sign of a number is one above zero, minus one below it, and zero at zero.
pub proof fn a_sign_is_one_zero_or_minus_one(
    r: Run,
    e: Env,
    s: Sel,
    p: Prim,
    a: u64,
    dest: u64,
    st: St,
) -> (after: St)
    requires
        r.wf(),
        leads(r.m),
        copies_words(r.m),
        tests_words(r.m),
        reckons(r.m),
        narrow(p),
        a + 8 <= e.scratch,
        dest + 8 <= e.scratch,
        clear(dest as int, 8, a as int, 8),
        r.has(s.abs_signum(e, p, false, a, dest).0),
    ensures
        s.abs_signum(e, p, false, a, dest).1,
        r.goes(
            s.ops.len() as int,
            st,
            s.abs_signum(e, p, false, a, dest).0.ops.len() as int,
            after,
        ),
        after.at(dest) == slot(
            p,
            if number(p, st.at(a)) > 0 {
                1
            } else if number(p, st.at(a)) < 0 {
                -1
            } else {
                0
            },
        ),
        kept(st, after, e.scratch as int, dest as int, 8),
{
    broadcast use {word_of_put, word_beside_put, byte_beside_put, adds_sign_test};

    reveal(Sel::abs_signum);
    let t = tag_of(p)->0;
    assert(t.0 == suffix(p));
    let s1 = s.imm_to(dest, 0);
    let up = crate::numeric::unit_pattern(p);
    let down = crate::numeric::minus_pattern(p);
    let s2 = s1.sign_test(e, p, "gt"@, suffix(p), a, dest, up);
    let s3 = s2.sign_test(e, p, "lt"@, suffix(p), a, dest, down);
    assert(s.abs_signum(e, p, false, a, dest).0 == s3);
    reveal(adds);
    let pc = s.ops.len() as int;
    let st1 = st.with(dest, 0);
    let st2 = lemma_sign(r, e, s1, p, true, a, dest, up, st1);
    r.lemma_imm(s, dest, 0, st);
    let st3 = lemma_sign(r, e, s2, p, false, a, dest, down, st2);
    lemma_word_kept(st1, st2, e.scratch as int, dest as int, 8, a);
    r.lemma_on(pc, st, s1.ops.len() as int, st1, s2.ops.len() as int, st2);
    r.lemma_on(pc, st, s2.ops.len() as int, st2, s3.ops.len() as int, st3);
    let k = modulus(p);
    vstd::arithmetic::div_mod::lemma_small_mod(1, k as nat);
    vstd::arithmetic::div_mod::lemma_small_mod((k - 1) as nat, k as nat);
    vstd::arithmetic::div_mod::lemma_mod_add_multiples_vanish(-1, k);
    assert(k <= 0x1_0000_0000_0000_0000);
    assert(down as u64 == slot(p, -1) || p.range().0 == 0);
    assert(up as u64 == slot(p, 1));
    assert(slot(p, 0) == 0);
    assert(p.range().0 == 0 ==> number(p, st.at(a)) >= 0) by {
        vstd::arithmetic::div_mod::lemma_mod_bound(st.at(a) as int, modulus(p));
    }
    st3
}

/// One end of an order.
proof fn lemma_order_step(
    r: Run,
    e: Env,
    s: Sel,
    p: Prim,
    above: bool,
    a: u64,
    b: u64,
    v: u64,
    st: St,
) -> (after: St)
    requires
        r.wf(),
        leads(r.m),
        copies_words(r.m),
        tests_words(r.m),
        reckons(r.m),
        narrow(p),
        r.has(
            s.order_step(
                e,
                (if above {
                    "bin/gt/"@
                } else {
                    "bin/lt/"@
                }) + suffix(p) + "/ff/f"@,
                a,
                b,
                v,
            ),
        ),
    ensures
        r.has(s),
        r.goes(
            s.ops.len() as int,
            st,
            s.order_step(
                e,
                (if above {
                    "bin/gt/"@
                } else {
                    "bin/lt/"@
                }) + suffix(p) + "/ff/f"@,
                a,
                b,
                v,
            ).ops.len() as int,
            after,
        ),
        after.at(e.word(28)) == if (if above {
            number(p, st.at(a)) > number(p, st.at(b))
        } else {
            number(p, st.at(a)) < number(p, st.at(b))
        }) {
            v
        } else {
            st.at(e.word(28))
        },
        kept(st, after, e.scratch as int, e.scratch as int, 0),
{
    broadcast use {word_of_put, word_beside_put, byte_beside_put, arm_is_a_twin};

    let scr = e.word(27);
    let raw = e.word(28);
    let key = (if above {
        "bin/gt/"@
    } else {
        "bin/lt/"@
    }) + suffix(p) + "/ff/f"@;
    let o = op_dab(key, scr, a, b);
    let s1 = s.add(o);
    let skip = s1.next();
    let s2 = s1.fresh();
    let br = e.arm("br/f"@, H::T);
    let s3 = s2.test(br, scr, V::Fall, V::Blk(skip));
    let s4 = s3.imm_to(raw, v);
    let s5 = s4.place(skip);
    assert(s.order_step(e, key, a, b, v) == s5);
    let pc = s.ops.len() as int;
    let holds = if above {
        number(p, st.at(a)) > number(p, st.at(b))
    } else {
        number(p, st.at(a)) < number(p, st.at(b))
    };
    let st1 = st.with(scr, truth(holds));
    r.lemma_place(s4, skip, st1);
    r.lemma_imm(s3, raw, v, st1);
    r.lemma_test(s2, br, scr, V::Fall, V::Blk(skip), st1);
    reveal_with_fuel(hole, 6);
    r.lemma_add(s, o, st);
    assert((r.m.does)(o, st) == st1);
    if holds {
        let st2 = st1.with(raw, v);
        r.lemma_on(pc, st, s2.ops.len() as int, st1, s3.ops.len() as int, st1);
        r.lemma_on(pc, st, s3.ops.len() as int, st1, s4.ops.len() as int, st2);
        r.lemma_place(s4, skip, st2);
        r.lemma_on(pc, st, s4.ops.len() as int, st2, s5.ops.len() as int, st2);
        st2
    } else {
        r.lemma_on(pc, st, s2.ops.len() as int, st1, s4.ops.len() as int, st1);
        r.lemma_on(pc, st, s4.ops.len() as int, st1, s5.ops.len() as int, st1);
        st1
    }
}

/// What is read of a tag that the low end of a word was copied into is the word.
pub proof fn lemma_tag_copied(m: Frame, to: int, from: int, n: int)
    requires
        0 <= n <= 8,
        crate::aggregate::in_tag(n as u32, word(m, from)),
    ensures
        tag_number(copied(m, to, from, n), to, n) == word(m, from),
{
    reveal(word);
    let v = word(m, from);
    let c = copied(m, to, from, n);
    let s = Seq::new(8, |i: int| m(from + i));
    crate::control::lemma_word_bytes(m, from);
    crate::aggregate::lemma_low_bytes(v);
    assert(Seq::new(
        8,
        |i: int|
            if i < n {
                c(to + i)
            } else {
                0u8
            },
    ) =~= s);
}

/// The order of two numbers is left as the number of its variant: zero where the first is less, one
/// where they are equal, and two where it is greater.
pub proof fn a_comparison_leaves_the_order_of_two_numbers(
    r: Run,
    e: Env,
    s: Sel,
    p: Prim,
    a: u64,
    b: u64,
    dest: u64,
    w: u32,
    st: St,
) -> (after: St)
    requires
        r.wf(),
        leads(r.m),
        copies_words(r.m),
        moves_fields(r.m),
        tests_words(r.m),
        reckons(r.m),
        narrow(p),
        w == 1 || w == 2 || w == 4 || w == 8,
        a + 8 <= e.scratch,
        b + 8 <= e.scratch,
        dest + w <= e.scratch,
        r.has(s.compare_prim(e, p, a, b, dest, w)),
    ensures
        r.goes(
            s.ops.len() as int,
            st,
            s.compare_prim(e, p, a, b, dest, w).ops.len() as int,
            after,
        ),
        tag_number(after.frame, dest as int, w as int) == if number(p, st.at(a)) < number(
            p,
            st.at(b),
        ) {
            0
        } else if number(p, st.at(a)) == number(p, st.at(b)) {
            1
        } else {
            2u64
        },
        kept(st, after, e.scratch as int, dest as int, w as int),
{
    broadcast use {word_of_put, word_beside_put, byte_beside_put, adds_order_step, adds_store_w};

    let t = tag_of(p)->0;
    assert(t.0 == suffix(p));
    let raw = e.word(28);
    let s1 = s.imm_to(raw, 1);
    let s2 = s1.order_step(e, "bin/lt/"@ + suffix(p) + "/ff/f"@, a, b, 0);
    let s3 = s2.order_step(e, "bin/gt/"@ + suffix(p) + "/ff/f"@, a, b, 2);
    let s4 = s3.store_w(dest, raw, w as u64);
    assert(s.compare_prim(e, p, a, b, dest, w) == s4);
    reveal(adds);
    let pc = s.ops.len() as int;
    let st1 = st.with(raw, 1);
    let st2 = lemma_order_step(r, e, s1, p, false, a, b, 0, st1);
    r.lemma_imm(s, raw, 1, st);
    lemma_word_kept(st1, st2, e.scratch as int, e.scratch as int, 0, a);
    lemma_word_kept(st1, st2, e.scratch as int, e.scratch as int, 0, b);
    let st3 = lemma_order_step(r, e, s2, p, true, a, b, 2, st2);
    r.lemma_on(pc, st, s1.ops.len() as int, st1, s2.ops.len() as int, st2);
    r.lemma_on(pc, st, s2.ops.len() as int, st2, s3.ops.len() as int, st3);
    let after = lemma_store_low(r, s3, dest, raw, w as u64, st3);
    r.lemma_on(pc, st, s3.ops.len() as int, st3, s4.ops.len() as int, after);
    lemma_tag_copied(st3.frame, dest as int, raw as int, w as int);
    after
}

/// The low end of a word into a field.
proof fn lemma_store_low(r: Run, s: Sel, d: u64, a: u64, w: u64, st: St) -> (after: St)
    requires
        copies_words(r.m),
        moves_fields(r.m),
        r.has(s.store_w(d, a, w)),
        w == 1 || w == 2 || w == 4 || w == 8,
        clear(d as int, w as int, a as int, 8),
        d + w <= u64::MAX,
        a + 8 <= u64::MAX,
    ensures
        r.has(s),
        r.goes(s.ops.len() as int, st, s.store_w(d, a, w).ops.len() as int, after),
        after == st.moved(d, a, w),
{
    if crate::select::narrow(w) {
        let o = op_da("store/"@ + decimal(w as nat), d, a);
        assert(s.store_w(d, a, w) == s.add(o));
        reveal_with_fuel(hole, 5);
        r.lemma_add(s, o, st);
    } else {
        r.lemma_mv(s, d, a, w, st);
    }
    st.moved(d, a, w)
}

/// A conversion between integer types keeps the number where the target has it, and its low end where
/// not.
pub proof fn a_conversion_keeps_the_low_end(
    r: Run,
    e: Env,
    s: Sel,
    from: Prim,
    to: Prim,
    src: u64,
    dest: u64,
    st: St,
) -> (after: St)
    requires
        copies_words(r.m),
        extends(r.m),
        narrow(from),
        narrow(to),
        fits(from, st.at(src)),
        src + 8 <= e.scratch,
        dest + 8 <= e.scratch,
        dest == src || clear(dest as int, 8, src as int, 8),
        r.has(s.convert(e, from, to, src, dest).0),
    ensures
        s.convert(e, from, to, src, dest).1 is None,
        r.has(s),
        r.goes(
            s.ops.len() as int,
            st,
            s.convert(e, from, to, src, dest).0.ops.len() as int,
            after,
        ),
        after.at(dest) == slot(to, number(from, st.at(src))),
        kept(st, after, e.scratch as int, dest as int, 8),
{
    broadcast use {word_of_put, word_beside_put, word_of_copied, word_beside_copied,
        byte_beside_put};

    reveal(Sel::convert);
    reveal_with_fuel(hole, 5);
    let f = tag_of(from)->0;
    let t = tag_of(to)->0;
    let scr = e.word(27);
    let x = number(from, st.at(src));
    let pc = s.ops.len() as int;
    let widens = f.2 && f.1 < 64;
    let at = if widens {
        scr
    } else {
        src
    };
    let s1 = s.widen(src, scr, f.1, f.2);
    let o = op_da("sext/"@ + decimal(width_of(from)), scr, src);
    let st1 = if widens {
        st.with(scr, slot(Prim::I64, x))
    } else {
        st
    };
    assert(widens ==> s1 == s.add(o));
    assert(st1.at(at) as int == x % 0x1_0000_0000_0000_0000) by {
        vstd::arithmetic::div_mod::lemma_small_mod(st.at(src) as nat, modulus(from) as nat);
    }
    let s2 = s.convert(e, from, to, src, dest).0;
    let after = if t.1 >= 64 {
        assert(s2 == s1.mv(dest, at, 8));
        r.lemma_mv(s1, dest, at, 8, st1);
        st1.moved(dest, at, 8)
    } else {
        let z = op_da("zext/"@ + decimal(width_of(to)), dest, at);
        assert(s2 == s1.add(z));
        r.lemma_add(s1, z, st1);
        (r.m.does)(z, st1)
    };
    if widens {
        r.lemma_add(s, o, st);
        assert((r.m.does)(o, st) == st1);
    } else {
        r.lemma_stays(pc, st);
    }
    r.lemma_on(pc, st, s1.ops.len() as int, st1, s2.ops.len() as int, after);
    let k = modulus(to);
    let more: int = if k == 0x100 {
        0x100_0000_0000_0000
    } else if k == 0x1_0000 {
        0x1_0000_0000_0000
    } else if k == 0x1_0000_0000 {
        0x1_0000_0000
    } else {
        1
    };
    assert(k * more == 0x1_0000_0000_0000_0000);
    vstd::arithmetic::div_mod::lemma_mod_mod(x, k, more);
    assert(after.at(dest) == slot(to, x));
    after
}

/// What is read of a tag is the number that it was written with.
proof fn lemma_tag_is(m: Frame, at: int, tag: u32, v: u64)
    requires
        crate::aggregate::in_tag(tag, v),
        forall|k: int| 0 <= k < tag ==> #[trigger] m(at + k) == crate::bytes::le64(v)[k],
    ensures
        tag_number(m, at, tag as int) == v,
{
    let n = tag as int;
    crate::aggregate::lemma_low_bytes(v);
    let none = Seq::<u8>::empty();
    crate::bytes::what_was_written_is_read64(none, v, none);
    assert(none + crate::bytes::le64(v) + none =~= Seq::new(
        8,
        |i: int|
            if i < n {
                m(at + i)
            } else {
                0u8
            },
    ));
}

/// Checked arithmetic is there for a sum, a difference and a product at every integer type of a word
/// at most whose operation the library has, where the function answers with an option. The option is
/// the first variant with the exact result where the type has it, and the second variant where not.
pub proof fn checked_arithmetic_answers_where_the_result_is_exact(
    r: Run,
    e: Env,
    s: Sel,
    fi: usize,
    id: usize,
    o: Sum,
    p: Prim,
    a: u64,
    b: u64,
    dest: u64,
    st: St,
) -> (after: St)
    requires
        r.wf(),
        leads(r.m),
        copies_words(r.m),
        moves_fields(r.m),
        crate::machine::moves_elements(r.m),
        crate::machine::makes_blocks(r.m),
        tests_words(r.m),
        counts_numbers(r.m),
        narrow(p),
        e.ret_agg(fi) == Some(id),
        e.layout(id).tag() matches Some(tag) && (tag == 1 || tag == 2 || tag == 4 || tag == 8),
        a + 8 <= e.scratch,
        b + 8 <= e.scratch,
        dest + e.layout(id).first_payload(0) + 8 <= e.scratch,
        dest + 8 <= e.scratch,
        e.layout(id).tag()->0 <= e.layout(id).first_payload(0),
        e.has("chk/"@ + o.key() + "/"@ + suffix(p)),
        r.has(s.checked(e, fi, p, o.kind(), a, b, dest).0),
    ensures
        s.checked(e, fi, p, o.kind(), a, b, dest).1,
        r.goes(
            s.ops.len() as int,
            st,
            s.checked(e, fi, p, o.kind(), a, b, dest).0.ops.len() as int,
            after,
        ),
        ({
            let l = e.layout(id);
            let v = o.of(number(p, st.at(a)), number(p, st.at(b)));
            let exact = p.range().0 <= v <= p.range().1;
            &&& tag_number(after.frame, dest as int, l.tag()->0 as int) == truth(!exact)
            &&& exact ==> tag_number(
                after.frame,
                dest + l.first_payload(0),
                (width_of(p) / 8) as int,
            ) == slot(p, v)
        }),
{
    broadcast use {word_of_put, word_beside_put, byte_beside_put, arm_is_a_twin, adds_place,
        adds_jump, adds_store_w, crate::grown::adds_store_disc};

    reveal(Sel::checked);
    reveal(adds);
    lemma_texts();
    let kind = o.kind();
    let l = e.layout(id);
    let tag = l.tag()->0;
    let t = tag_of(p)->0;
    assert(t.0 == suffix(p));
    let key = "chk/"@ + o.key() + "/"@ + suffix(p);
    assert(e.overflow_key(p, kind) == Some(key));
    let v = o.of(number(p, st.at(a)), number(p, st.at(b)));
    let off = v < p.range().0 || v > p.range().1;
    let raw = e.word(28);
    let flag = e.word(27);
    let pay = (dest + l.first_payload(0)) as u64;
    let w = (t.1 / 8) as u64;
    assert(w == width_of(p) / 8);
    let s1 = s.overflowing(e, key, a, b);
    let some = s1.next();
    let done = s1.fresh().next();
    let s2 = s1.fresh().fresh();
    let br = e.arm("brcmp/eq/u64/fi"@, H::T);
    let s3 = s2.test_k(br, flag, 0, V::Blk(some), V::Fall);
    let s4 = s3.store_disc(l, dest, 1);
    let s5 = s4.jump(V::Blk(done));
    let s6 = s5.place(some);
    let s7 = s6.store_w(pay, raw, w);
    let s8 = s7.store_disc(l, dest, 0);
    let s9 = s8.place(done);
    assert(s.checked(e, fi, p, kind, a, b, dest).0 == s9);
    assert(s4 == s3.imm_w(dest, tag as u64, 1) && s8 == s7.imm_w(dest, tag as u64, 0));
    let st1 = st.with(raw, slot(p, v)).with(flag, truth(off));
    let pc = s.ops.len() as int;
    let end = s9.ops.len() as int;
    r.lemma_place(s8, done, st1);
    r.lemma_place(s5, some, st1);
    r.lemma_test_k(s2, br, flag, 0, V::Blk(some), V::Fall, st1);
    lemma_chk(r, s, e, o, p, a, b, st);
    if off {
        r.lemma_on(pc, st, s2.ops.len() as int, st1, s3.ops.len() as int, st1);
        let st2 = crate::aggregate::lemma_tag_written(r, s3, tag, dest, 1, st1);
        r.lemma_on(pc, st, s3.ops.len() as int, st1, s4.ops.len() as int, st2);
        r.lemma_jump(s4, V::Blk(done), st2);
        r.lemma_on(pc, st, s4.ops.len() as int, st2, s8.ops.len() as int, st2);
        r.lemma_place(s8, done, st2);
        r.lemma_on(pc, st, s8.ops.len() as int, st2, end, st2);
        lemma_tag_is(st2.frame, dest as int, tag, 1);
        st2
    } else {
        r.lemma_on(pc, st, s2.ops.len() as int, st1, s5.ops.len() as int, st1);
        r.lemma_on(pc, st, s5.ops.len() as int, st1, s6.ops.len() as int, st1);
        let st2 = lemma_store_low(r, s6, pay, raw, w, st1);
        r.lemma_on(pc, st, s6.ops.len() as int, st1, s7.ops.len() as int, st2);
        let st3 = crate::aggregate::lemma_tag_written(r, s7, tag, dest, 0, st2);
        r.lemma_on(pc, st, s7.ops.len() as int, st2, s8.ops.len() as int, st3);
        r.lemma_place(s8, done, st3);
        r.lemma_on(pc, st, s8.ops.len() as int, st3, end, st3);
        lemma_tag_is(st3.frame, dest as int, tag, 0);
        vstd::arithmetic::div_mod::lemma_mod_bound(v, modulus(p));
        lemma_tag_copied(st1.frame, pay as int, raw as int, w as int);
        lemma_tag_same(st2.frame, st3.frame, pay as int, w as int);
        st3
    }
}

proof fn lemma_tag_same(m: Frame, f: Frame, at: int, n: int)
    requires
        forall|k: int| 0 <= k < n ==> #[trigger] f(at + k) == m(at + k),
    ensures
        tag_number(f, at, n) == tag_number(m, at, n),
{
    assert(Seq::new(
        8,
        |i: int|
            if i < n {
                f(at + i)
            } else {
                0u8
            },
    ) =~= Seq::new(
        8,
        |i: int|
            if i < n {
                m(at + i)
            } else {
                0u8
            },
    ));
}

} // verus!
