//! What a walk of a value does to counts: each counted block that the value owns is touched once, and
//! nothing else is.

use crate::bytes::of64;
use crate::copies::Frame;
use crate::grown::{
    adds, adds_jump, adds_place, adds_walk_fields, adds_walk_payload, adds_walk_rc,
    adds_walk_variants, starts,
};
use crate::machine::{
    arm_is_a_twin, byte_beside_put, copies_words, extended, hole, leads, moves_fields, op_da,
    tests_words, word, word_of_put, Machine, Run, St, Touch,
};
use crate::select::{helper_at, narrow, Env, Helper, Item, Ret, Sel, Src, To, H, V};
use crate::text::decimal;
use crate::types::{EnumRepr, FieldTy, Repr, Shape, Tables};
use crate::walk::{RAW_WORD, RC_DEPTH, RC_INLINE, SPARE_WORD};
use vstd::prelude::*;

verus! {

/// What a counted block holds.
pub enum Holds {
    /// The bytes of a string.
    Text,
    /// The elements of a list.
    List(usize),
    /// What a closure captured.
    Captures,
    /// A value of a type.
    Boxed(usize),
}

/// The number in a tag of `n` bytes.
pub open spec fn tag_number(m: Frame, at: int, n: int) -> u64 {
    of64(
        Seq::new(
            8,
            |i: int|
                if i < n {
                    m(at + i)
                } else {
                    0u8
                },
        ),
        0,
    )
}

/// The counted blocks that a value of a type in a frame owns, `n` levels of fields down: the block of
/// a string, of a list, of what a closure captured and of each boxed field, of the fields of a
/// struct and of the variant that an enum is.
pub open spec fn owned(t: Tables, m: Frame, ty: usize, at: int, n: nat) -> Seq<(u64, Holds)>
    decreases n, 1nat, 0int,
{
    let info = t.at(ty as int);
    if n == 0 {
        Seq::empty()
    } else {
        match info.layout.repr {
            Repr::Zero => Seq::empty(),
            Repr::Scalar => Seq::empty(),
            Repr::Str => seq![(word(m, at), Holds::Text)],
            Repr::List => match info.shape {
                Shape::Array(elem) => seq![(word(m, at), Holds::List(elem))],
                _ => Seq::empty(),
            },
            Repr::Closure => seq![(word(m, at + 8), Holds::Captures)],
            Repr::Aggregate => owned_by_fields(t, m, info.fields@, info.layout.fields@, at, n, 0),
            Repr::Enum { repr, variants } => match repr {
                EnumRepr::Bare { tag } => Seq::empty(),
                EnumRepr::Tagged { tag } => {
                    let v = tag_number(m, at, tag as int) as int;
                    if v < variants.len() {
                        owned_by_fields(t, m, info.variant(v), variants[v]@, at, n, 0)
                    } else {
                        Seq::empty()
                    }
                },
                EnumRepr::Niche { null_at } => match info.shape {
                    Shape::Con { args } => if args.len() > 0 && word(m, at + null_at) != 0 {
                        owned(t, m, args[0], at, (n - 1) as nat)
                    } else {
                        Seq::empty()
                    },
                    _ => Seq::empty(),
                },
            },
        }
    }
}

/// Those of fields from field `i` on.
pub open spec fn owned_by_fields(
    t: Tables,
    m: Frame,
    fs: Seq<FieldTy>,
    offs: Seq<u32>,
    at: int,
    n: nat,
    i: int,
) -> Seq<(u64, Holds)>
    decreases n, 0nat, fs.len() - i,
{
    if i >= fs.len() || i < 0 || n == 0 {
        Seq::empty()
    } else {
        (if fs[i].boxed {
            seq![(word(m, at + offs[i]), Holds::Boxed(fs[i].ty))]
        } else {
            owned(t, m, fs[i].ty, at + offs[i], (n - 1) as nat)
        }) + owned_by_fields(t, m, fs, offs, at, n, i + 1)
    }
}

/// Whether a value of a type at an offset is below `lim`, and nested `n` levels at most.
pub open spec fn sits(t: Tables, ty: usize, at: int, n: nat, lim: int) -> bool
    decreases n, 1nat, 0int,
{
    let info = t.at(ty as int);
    n > 0 && 0 <= at && match info.layout.repr {
        Repr::Zero => true,
        Repr::Scalar => true,
        Repr::Str => at + 8 <= lim,
        Repr::List => at + 8 <= lim,
        Repr::Closure => at + 16 <= lim,
        Repr::Aggregate => fields_sit(t, info.fields@, info.layout.fields@, at, n, lim, 0),
        Repr::Enum { repr, variants } => match repr {
            EnumRepr::Bare { tag } => true,
            EnumRepr::Tagged { tag } => {
                &&& tag == 1 || tag == 2 || tag == 4 || tag == 8
                &&& at + tag <= lim
                &&& forall|v: int|
                    0 <= v < variants.len() ==> fields_sit(
                        t,
                        #[trigger] info.variant(v),
                        variants[v]@,
                        at,
                        n,
                        lim,
                        0,
                    )
            },
            EnumRepr::Niche { null_at } => at + null_at + 8 <= lim && match info.shape {
                Shape::Con { args } => args.len() > 0 ==> sits(
                    t,
                    args[0],
                    at,
                    (n - 1) as nat,
                    lim,
                ),
                _ => true,
            },
        },
    }
}

/// The same of fields from field `i` on.
pub open spec fn fields_sit(
    t: Tables,
    fs: Seq<FieldTy>,
    offs: Seq<u32>,
    at: int,
    n: nat,
    lim: int,
    i: int,
) -> bool
    decreases n, 0nat, fs.len() - i,
{
    i >= fs.len() || i < 0 || n == 0 || {
        &&& fs.len() <= offs.len()
        &&& at + offs[i] <= lim
        &&& if fs[i].boxed {
            at + offs[i] + 8 <= lim
        } else {
            sits(t, fs[i].ty, at + offs[i], (n - 1) as nat, lim)
        }
        &&& fields_sit(t, fs, offs, at, n, lim, i + 1)
    }
}

/// What the contents of a block are left to: nothing where they own nothing.
pub open spec fn glue_of(e: Env, h: Holds) -> Option<Helper> {
    match h {
        Holds::Text => None,
        Holds::List(elem) => if e.owns(elem) {
            Some(Helper::Elems { ty: elem })
        } else {
            None
        },
        Holds::Captures => Some(Helper::EnvGlue),
        Holds::Boxed(ty) => if e.owns(ty) {
            Some(Helper::Walk { ty, retain: false })
        } else {
            None
        },
    }
}

/// One touch of each block: up where they are retained, and down where they are released, their
/// contents left to their glue.
pub open spec fn touches(e: Env, bs: Seq<(u64, Holds)>, retain: bool) -> Seq<Touch> {
    Seq::new(
        bs.len(),
        |i: int|
            Touch {
                block: bs[i].0,
                up: retain,
                glue: if retain {
                    None
                } else {
                    glue_of(e, bs[i].1)
                },
            },
    )
}

/// How far touches have brought the count of a block.
pub open spec fn count(log: Seq<Touch>, block: u64) -> int
    decreases log.len(),
{
    if log.len() == 0 {
        0
    } else {
        count(log.drop_last(), block) + if log.last().block != block {
            0int
        } else if log.last().up {
            1
        } else {
            -1
        }
    }
}

/// How often a block is one of some.
pub open spec fn times(bs: Seq<(u64, Holds)>, block: u64) -> int
    decreases bs.len(),
{
    if bs.len() == 0 {
        0
    } else {
        times(bs.drop_last(), block) + if bs.last().0 == block {
            1int
        } else {
            0
        }
    }
}

proof fn lemma_count(e: Env, log: Seq<Touch>, bs: Seq<(u64, Holds)>, retain: bool, block: u64)
    ensures
        count(log + touches(e, bs, retain), block) == count(log, block) + if retain {
            times(bs, block)
        } else {
            -times(bs, block)
        },
    decreases bs.len(),
{
    let ts = touches(e, bs, retain);
    if bs.len() == 0 {
        assert(log + ts =~= log);
    } else {
        lemma_count(e, log, bs.drop_last(), retain, block);
        assert((log + ts).drop_last() =~= log + touches(e, bs.drop_last(), retain));
        assert((log + ts).last() == ts.last());
    }
}

proof fn lemma_touches(e: Env, a: Seq<(u64, Holds)>, b: Seq<(u64, Holds)>, retain: bool)
    ensures
        touches(e, a + b, retain) == touches(e, a, retain) + touches(e, b, retain),
{
    assert(touches(e, a + b, retain) =~= touches(e, a, retain) + touches(e, b, retain));
}

/// The operation that takes a count.
pub open spec fn op_take(a: u64) -> Item {
    Item::Stencil { key: "incref"@, binds: seq![(H::A, V::I(a)), (H::Cont, V::Fall)] }
}

/// The operation that gives a count back, of a block whose contents own nothing.
pub open spec fn op_give(a: u64) -> Item {
    Item::Stencil { key: "decref/free"@, binds: seq![(H::A, V::I(a)), (H::Cont0, V::Fall)] }
}

/// The operation that gives a count back, of a block whose contents are left to a helper.
pub open spec fn op_give_with(a: u64, g: usize) -> Item {
    Item::Stencil {
        key: "decref/drop"@,
        binds: seq![(H::A, V::I(a)), (H::M, V::Sym(g)), (H::Cont0, V::Fall)],
    }
}

/// The call of a helper with one address.
pub open spec fn op_help(g: usize, w: u64) -> Item {
    Item::Call {
        to: To::Helper(g),
        ints: seq![Src::Word(w)],
        floats: Seq::empty(),
        dest: 0,
        ret: Ret::Void,
    }
}

/// Whether a byte is not one of the scratch words that a walk writes.
pub open spec fn not_spare(e: Env, x: int) -> bool {
    x < e.word(SPARE_WORD as int) || e.word(RAW_WORD + 4) <= x
}

/// Whether two memories are the same but for the scratch words that a walk writes.
pub open spec fn spared(e: Env, a: Frame, b: Frame) -> bool {
    forall|x: int| not_spare(e, x) ==> #[trigger] a(x) == b(x)
}

/// Whether a value at `at` that ends by `lim` has no byte in the scratch words that a walk writes.
pub open spec fn off_spare(e: Env, at: int, lim: int) -> bool {
    lim <= e.word(SPARE_WORD as int) || e.word(RAW_WORD + 4) <= at
}

/// Counts are taken and given back, and a helper that walks a value touches what that value owns. The
/// frame is at `base`.
pub open spec fn counts_blocks(m: Machine, e: Env, hs: Seq<Helper>, base: u64) -> bool {
    &&& forall|a: u64, st: St| #[trigger]
        (m.does)(op_take(a), st) == (St {
            log: st.log.push(Touch { block: st.at(a), up: true, glue: None }),
            ..st
        })
    &&& forall|a: u64, st: St| #[trigger]
        (m.does)(op_give(a), st) == (St {
            log: st.log.push(Touch { block: st.at(a), up: false, glue: None }),
            ..st
        })
    &&& forall|a: u64, g: usize, st: St|
        g < hs.len() ==> #[trigger] (m.does)(op_give_with(a, g), st) == (St {
            log: st.log.push(Touch { block: st.at(a), up: false, glue: Some(hs[g as int]) }),
            ..st
        })
    &&& forall|d: u64, a: u64, st: St| #[trigger]
        (m.does)(op_da("lea"@, d, a), st) == st.with(d, (base + a) as u64)
    &&& forall|g: usize, w: u64, st: St, f: Frame, ty: usize, retain: bool, at: u64, n: nat, lim: int|
        #![trigger (m.does)(op_help(g, w), st), touches(e, owned(e.prog.tables, f, ty, at as int, n), retain), sits(e.prog.tables, ty, at as int, n, lim)]
        g < hs.len() && hs[g as int] == (Helper::Walk { ty, retain }) && st.at(w) == (base + at) as u64
            && sits(e.prog.tables, ty, at as int, n, lim) && base + lim <= u64::MAX && off_spare(
            e,
            at as int,
            lim,
        ) && spared(e, f, st.frame) ==> (m.does)(op_help(g, w), st) == (St {
            log: st.log + touches(e, owned(e.prog.tables, f, ty, at as int, n), retain),
            ..st
        })
}

/// Whether a type that is not marked as owning a counted block owns none.
pub open spec fn marks_owners(e: Env) -> bool {
    forall|m: Frame, ty: usize, at: int, n: nat|
        !e.owns(ty) ==> (#[trigger] owned(e.prog.tables, m, ty, at, n)).len() == 0
}

/// What a walk is run on.
pub open spec fn walks(r: Run, e: Env, hs: Seq<Helper>, base: u64, lim: int) -> bool {
    &&& r.wf()
    &&& leads(r.m)
    &&& copies_words(r.m)
    &&& tests_words(r.m)
    &&& moves_fields(r.m)
    &&& counts_blocks(r.m, e, hs, base)
    &&& marks_owners(e)
    &&& base + lim <= u64::MAX
}

/// Whether a run has a selection, and its helpers are those that it registered.
pub open spec fn carries(r: Run, hs: Seq<Helper>, s: Sel) -> bool {
    r.has(s) && starts(s.helpers, hs)
}

pub broadcast proof fn lemma_carries(r: Run, hs: Seq<Helper>, s: Sel, t: Sel)
    requires
        #[trigger] adds(s, t),
        #[trigger] carries(r, hs, t),
    ensures
        carries(r, hs, s),
{
    reveal(adds);
    assert forall|i: int| 0 <= i < s.helpers.len() implies #[trigger] hs[i] == s.helpers[i] by {
        assert(t.helpers[i] == s.helpers[i]);
    }
}

/// Whether a state is another with touches more, the frame the same but for spare words.
pub open spec fn touched(e: Env, st: St, after: St, f: Frame, ts: Seq<Touch>) -> bool {
    &&& after == (St { frame: after.frame, log: after.log, ..st })
    &&& after.log == st.log + ts
    &&& spared(e, f, after.frame)
}

proof fn lemma_touched_on(e: Env, a: St, b: St, c: St, f: Frame, x: Seq<Touch>, y: Seq<Touch>)
    requires
        touched(e, a, b, f, x),
        touched(e, b, c, f, y),
    ensures
        touched(e, a, c, f, x + y),
{
    assert(a.log + x + y =~= a.log + (x + y));
}

proof fn lemma_read(e: Env, f: Frame, st: St, a: u64)
    requires
        spared(e, f, st.frame),
        off_spare(e, a as int, a + 8),
    ensures
        st.at(a) == word(f, a as int),
{
    reveal(word);
    assert(Seq::new(8, |i: int| (st.frame)(a + i)) =~= Seq::new(8, |i: int| f(a + i)));
}

proof fn lemma_helper_at(hs: Seq<Helper>, h: Helper, i: int)
    requires
        0 <= i,
    ensures
        helper_at(hs, h, i) matches Some(j) ==> i <= j < hs.len() && hs[j] == h,
    decreases hs.len() - i,
{
    if i < hs.len() && hs[i] != h {
        lemma_helper_at(hs, h, i + 1);
    }
}

/// The helper that a selection registers is at its index.
proof fn lemma_helper(hs: Seq<Helper>, s: Sel, h: Helper)
    requires
        starts(s.helper(h).helpers, hs),
        hs.len() <= usize::MAX,
    ensures
        s.helper_index(h) < hs.len(),
        hs[s.helper_index(h) as int] == h,
{
    lemma_helper_at(s.helpers, h, 0);
}

/// A block's count.
proof fn lemma_block(
    r: Run,
    e: Env,
    hs: Seq<Helper>,
    base: u64,
    s: Sel,
    at: u64,
    retain: bool,
    wanted: bool,
    h: Helper,
    f: Frame,
    kind: Holds,
    st: St,
) -> (after: St)
    requires
        counts_blocks(r.m, e, hs, base),
        hs.len() <= usize::MAX,
        carries(r, hs, s.rc_glued(at, retain, wanted, h)),
        spared(e, f, st.frame),
        off_spare(e, at as int, at + 8),
        retain ==> !wanted,
        !retain ==> glue_of(e, kind) == if wanted {
            Some(h)
        } else {
            None
        },
    ensures
        r.goes(
            s.ops.len() as int,
            st,
            s.rc_glued(at, retain, wanted, h).ops.len() as int,
            after,
        ),
        touched(e, st, after, f,
            touches(e, seq![(word(f, at as int), kind)], retain),
        ),
{
    lemma_read(e, f, st, at);
    reveal_with_fuel(hole, 5);
    let t = s.rc_glued(at, retain, wanted, h);
    let (from, o) = if retain {
        (s, op_take(at))
    } else if wanted {
        (s.helper(h), op_give_with(at, s.helper_index(h)))
    } else {
        (s, op_give(at))
    };
    assert(t == from.add(o));
    if !retain && wanted {
        lemma_helper(hs, s, h);
    }
    r.lemma_add(from, o, st);
    let after = (r.m.does)(o, st);
    assert(after.log =~= st.log + touches(e, seq![(word(f, at as int), kind)], retain));
    after
}

/// A walk of a value.
proof fn lemma_walk_rc(
    r: Run,
    e: Env,
    hs: Seq<Helper>,
    base: u64,
    s: Sel,
    ty: usize,
    at: u64,
    retain: bool,
    depth: nat,
    n: nat,
    lim: int,
    f: Frame,
    st: St,
) -> (after: St)
    requires
        walks(r, e, hs, base, lim),
        hs.len() <= usize::MAX,
        off_spare(e, at as int, lim),
        lim <= u64::MAX,
        spared(e, f, st.frame),
        s.walk_rc(e, ty, at, retain, depth).1 is None,
        carries(r, hs, s.walk_rc(e, ty, at, retain, depth).0),
        depth <= RC_DEPTH,
        sits(e.prog.tables, ty, at as int, n, lim),
    ensures
        r.goes(s.ops.len() as int, st, s.walk_rc(e, ty, at, retain, depth).0.ops.len() as int, after),
        touched(e, st, after, f, touches(e, owned(e.prog.tables, f, ty, at as int, n), retain)),
    decreases 9 - depth, 4nat, 0int,
{
    let t = e.prog.tables;
    let pc = s.ops.len() as int;
    let info = t.at(ty as int);
    let res = s.walk_rc(e, ty, at, retain, depth);
    let none = Seq::<(u64, Holds)>::empty();
    assert(touches(e, none, retain) =~= Seq::empty());
    assert(st.log + touches(e, none, retain) =~= st.log);
    match info.layout.repr {
        Repr::Zero => {
            r.lemma_stays(pc, st);
            st
        },
        Repr::Scalar => {
            r.lemma_stays(pc, st);
            st
        },
        Repr::Str => {
            assert(res.0 == s.rc_glued(at, retain, false, Helper::EnvGlue));
            lemma_block(r, e, hs, base, s, at, retain, false, Helper::EnvGlue, f, Holds::Text, st)
        },
        Repr::List => {
            let elem = info.shape->Array_0;
            let h = Helper::Elems { ty: elem };
            let wanted = !retain && e.owns(elem);
            lemma_block(r, e, hs, base, s, at, retain, wanted, h, f, Holds::List(elem), st)
        },
        Repr::Closure => {
            let to = (at + 8) as u64;
            let h = Helper::EnvGlue;
            lemma_block(r, e, hs, base, s, to, retain, !retain, h, f, Holds::Captures, st)
        },
        Repr::Aggregate => lemma_walk_fields(r, e, hs, base, s, ty, at, retain, depth, 0, n, lim, f, st),
        Repr::Enum { repr, variants } => match repr {
            EnumRepr::Bare { tag } => {
                r.lemma_stays(pc, st);
                st
            },
            EnumRepr::Tagged { tag } => {
                let done = s.next();
                let s0 = s.fresh();
                let mid = s0.walk_variants(e, ty, at, retain, depth, tag, done, 0);
                assert(res.0 == mid.0.place(done));
                assert(adds(mid.0, res.0)) by {
                    broadcast use adds_place;

                }
                lemma_carries(r, hs, mid.0, res.0);
                r.lemma_place(mid.0, done, st);
                let after = lemma_walk_variants(
                    r,
                    e,
                    hs,
                    base,
                    s0,
                    ty,
                    at,
                    retain,
                    depth,
                    tag,
                    done,
                    0,
                    n,
                    lim,
                    f,
                    st,
                );
                r.lemma_place(mid.0, done, after);
                r.lemma_on(pc, st, mid.0.ops.len() as int, after, res.0.ops.len() as int, after);
                after
            },
            EnumRepr::Niche { null_at } => match info.shape {
                Shape::Con { args } => if args.len() > 0 && e.owns(args[0]) {
                    let skip = s.next();
                    let s0 = s.fresh();
                    let to = (at + null_at) as u64;
                    let key = e.arm("brcmp/eq/u64/fi"@, H::T);
                    let s1 = s0.test_k(key, to, 0, V::Blk(skip), V::Fall);
                    let mid = s1.walk_rc(e, args[0], at, retain, depth + 1);
                    assert(res.0 == mid.0.place(skip));
                    assert(adds(mid.0, res.0) && adds(s1, mid.0)) by {
                        broadcast use {adds_place, adds_walk_rc};

                    }
                    lemma_carries(r, hs, mid.0, res.0);
                    lemma_carries(r, hs, s1, mid.0);
                    r.lemma_place(mid.0, skip, st);
                    broadcast use arm_is_a_twin;

                    r.lemma_test_k(s0, key, to, 0, V::Blk(skip), V::Fall, st);
                    lemma_read(e, f, st, to);
                    assert(depth + 1 <= RC_DEPTH) by {
                        if depth + 1 > RC_DEPTH {
                            assert(mid.1 is Some);
                        }
                    }
                    if st.at(to) == 0 {
                        r.lemma_on(
                            pc,
                            st,
                            mid.0.ops.len() as int,
                            st,
                            res.0.ops.len() as int,
                            st,
                        );
                        st
                    } else {
                        let after = lemma_walk_rc(
                            r,
                            e,
                            hs,
                            base,
                            s1,
                            args[0],
                            at,
                            retain,
                            depth + 1,
                            (n - 1) as nat,
                            lim,
                            f,
                            st,
                        );
                        r.lemma_on(pc, st, s1.ops.len() as int, st, mid.0.ops.len() as int, after);
                        r.lemma_place(mid.0, skip, after);
                        r.lemma_on(
                            pc,
                            st,
                            mid.0.ops.len() as int,
                            after,
                            res.0.ops.len() as int,
                            after,
                        );
                        after
                    }
                } else {
                    if args.len() > 0 {
                        assert(owned(t, f, args[0], at as int, (n - 1) as nat) =~= none);
                    }
                    r.lemma_stays(pc, st);
                    st
                },
                _ => {
                    r.lemma_stays(pc, st);
                    st
                },
            },
        },
    }
}

/// The fields of a struct.
proof fn lemma_walk_fields(
    r: Run,
    e: Env,
    hs: Seq<Helper>,
    base: u64,
    s: Sel,
    ty: usize,
    at: u64,
    retain: bool,
    depth: nat,
    i: int,
    n: nat,
    lim: int,
    f: Frame,
    st: St,
) -> (after: St)
    requires
        walks(r, e, hs, base, lim),
        hs.len() <= usize::MAX,
        off_spare(e, at as int, lim),
        lim <= u64::MAX,
        spared(e, f, st.frame),
        s.walk_fields(e, ty, at, retain, depth, i).1 is None,
        carries(r, hs, s.walk_fields(e, ty, at, retain, depth, i).0),
        depth <= RC_DEPTH,
        0 <= i,
        n > 0,
        ({
            let info = e.prog.tables.at(ty as int);
            fields_sit(
                e.prog.tables,
                info.fields@,
                info.layout.fields@,
                at as int,
                n,
                lim,
                i,
            )
        }),
    ensures
        r.goes(s.ops.len() as int, st, s.walk_fields(e, ty, at, retain, depth, i).0.ops.len() as int, after),
        touched(e, st, after, f, touches(e, owned_by_fields(
                e.prog.tables,
                f,
                e.prog.tables.at(ty as int).fields@,
                e.prog.tables.at(ty as int).layout.fields@,
                at as int,
                n,
                i,
            ), retain)),
    decreases 9 - depth, 2nat, e.prog.tables.at(ty as int).fields.len() - i,
{
    let t = e.prog.tables;
    let pc = s.ops.len() as int;
    let info = t.at(ty as int);
    let res = s.walk_fields(e, ty, at, retain, depth, i);
    let fs = info.fields@;
    let offs = info.layout.fields@;
    let none = Seq::<(u64, Holds)>::empty();
    assert(touches(e, none, retain) =~= Seq::empty());
    assert(st.log + touches(e, none, retain) =~= st.log);
    if i >= fs.len() {
        r.lemma_stays(pc, st);
        st
    } else {
        let x = fs[i];
        let to = (at + offs[i]) as u64;
        let here = if x.boxed {
            seq![(word(f, to as int), Holds::Boxed(x.ty))]
        } else {
            owned(t, f, x.ty, to as int, (n - 1) as nat)
        };
        let rest = owned_by_fields(t, f, fs, offs, at as int, n, i + 1);
        lemma_touches(e, here, rest, retain);
        if !x.boxed && !e.owns(x.ty) {
            assert(here =~= none);
            assert(here + rest =~= rest);
            assert(res == s.walk_fields(e, ty, at, retain, depth, i + 1));
            lemma_walk_fields(r, e, hs, base, s, ty, at, retain, depth, i + 1, n, lim, f, st)
        } else {
            let u = if x.boxed {
                s.rc_box(e, to, x.ty, retain)
            } else {
                s.walk_deep(e, x.ty, to, retain, depth).0
            };
            assert(res == u.walk_fields(e, ty, at, retain, depth, i + 1));
            assert(adds(u, res.0)) by {
                broadcast use adds_walk_fields;

            }
            lemma_carries(r, hs, u, res.0);
            let mid = if x.boxed {
                let h = Helper::Walk { ty: x.ty, retain: false };
                let wanted = !retain && e.owns(x.ty);
                lemma_block(r, e, hs, base, s, to, retain, wanted, h, f, Holds::Boxed(x.ty), st)
            } else {
                lemma_walk_deep(r, e, hs, base, s, x.ty, to, retain, depth, (n - 1) as nat, lim, f, st)
            };
            let after = lemma_walk_fields(
                r,
                e,
                hs,
                base,
                u,
                ty,
                at,
                retain,
                depth,
                i + 1,
                n,
                lim,
                f,
                mid,
            );
            r.lemma_on(pc, st, u.ops.len() as int, mid, res.0.ops.len() as int, after);
            lemma_touched_on(e, st, mid, after, f,
                touches(e, here, retain),
                touches(e, rest, retain),
            );
            after
        }
    }
}

/// The payload of a variant.
proof fn lemma_walk_payload(
    r: Run,
    e: Env,
    hs: Seq<Helper>,
    base: u64,
    s: Sel,
    ty: usize,
    at: u64,
    retain: bool,
    depth: nat,
    v: int,
    i: int,
    n: nat,
    lim: int,
    f: Frame,
    st: St,
) -> (after: St)
    requires
        walks(r, e, hs, base, lim),
        hs.len() <= usize::MAX,
        off_spare(e, at as int, lim),
        lim <= u64::MAX,
        spared(e, f, st.frame),
        s.walk_payload(e, ty, at, retain, depth, v, i).1 is None,
        carries(r, hs, s.walk_payload(e, ty, at, retain, depth, v, i).0),
        depth <= RC_DEPTH,
        0 <= i,
        n > 0,
        0 <= v < e.layout(ty).width(),
        ({
            let info = e.prog.tables.at(ty as int);
            fields_sit(
                e.prog.tables,
                info.variant(v),
                variant_offsets(e, ty, v),
                at as int,
                n,
                lim,
                i,
            )
        }),
    ensures
        r.goes(s.ops.len() as int, st, s.walk_payload(e, ty, at, retain, depth, v, i).0.ops.len() as int, after),
        touched(e, st, after, f, touches(e, owned_by_fields(
                e.prog.tables,
                f,
                e.prog.tables.at(ty as int).variant(v),
                variant_offsets(e, ty, v),
                at as int,
                n,
                i,
            ), retain)),
    decreases 9 - depth, 2nat, e.prog.tables.at(ty as int).variant(v).len() - i,
{
    let t = e.prog.tables;
    let pc = s.ops.len() as int;
    let info = t.at(ty as int);
    let res = s.walk_payload(e, ty, at, retain, depth, v, i);
    let fs = info.variant(v);
    let offs = variant_offsets(e, ty, v);
    let none = Seq::<(u64, Holds)>::empty();
    assert(touches(e, none, retain) =~= Seq::empty());
    assert(st.log + touches(e, none, retain) =~= st.log);
    if i >= fs.len() {
        r.lemma_stays(pc, st);
        st
    } else {
        let x = fs[i];
        let to = (at + offs[i]) as u64;
        let here = if x.boxed {
            seq![(word(f, to as int), Holds::Boxed(x.ty))]
        } else {
            owned(t, f, x.ty, to as int, (n - 1) as nat)
        };
        let rest = owned_by_fields(t, f, fs, offs, at as int, n, i + 1);
        lemma_touches(e, here, rest, retain);
        if !x.boxed && !e.owns(x.ty) {
            assert(here =~= none);
            assert(here + rest =~= rest);
            assert(res == s.walk_payload(e, ty, at, retain, depth, v, i + 1));
            lemma_walk_payload(r, e, hs, base, s, ty, at, retain, depth, v, i + 1, n, lim, f, st)
        } else {
            let u = if x.boxed {
                s.rc_box(e, to, x.ty, retain)
            } else {
                s.walk_deep(e, x.ty, to, retain, depth).0
            };
            assert(res == u.walk_payload(e, ty, at, retain, depth, v, i + 1));
            assert(adds(u, res.0)) by {
                broadcast use adds_walk_payload;

            }
            lemma_carries(r, hs, u, res.0);
            let mid = if x.boxed {
                let h = Helper::Walk { ty: x.ty, retain: false };
                let wanted = !retain && e.owns(x.ty);
                lemma_block(r, e, hs, base, s, to, retain, wanted, h, f, Holds::Boxed(x.ty), st)
            } else {
                lemma_walk_deep(r, e, hs, base, s, x.ty, to, retain, depth, (n - 1) as nat, lim, f, st)
            };
            let after = lemma_walk_payload(
                r,
                e,
                hs,
                base,
                u,
                ty,
                at,
                retain,
                depth,
                v, i + 1,
                n,
                lim,
                f,
                mid,
            );
            r.lemma_on(pc, st, u.ops.len() as int, mid, res.0.ops.len() as int, after);
            lemma_touched_on(e, st, mid, after, f,
                touches(e, here, retain),
                touches(e, rest, retain),
            );
            after
        }
    }
}

/// A step down.
proof fn lemma_walk_deep(
    r: Run,
    e: Env,
    hs: Seq<Helper>,
    base: u64,
    s: Sel,
    ty: usize,
    at: u64,
    retain: bool,
    depth: nat,
    n: nat,
    lim: int,
    f: Frame,
    st: St,
) -> (after: St)
    requires
        walks(r, e, hs, base, lim),
        hs.len() <= usize::MAX,
        off_spare(e, at as int, lim),
        lim <= u64::MAX,
        spared(e, f, st.frame),
        s.walk_deep(e, ty, at, retain, depth).1 is None,
        carries(r, hs, s.walk_deep(e, ty, at, retain, depth).0),
        depth <= RC_DEPTH,
        sits(e.prog.tables, ty, at as int, n, lim),
        at <= lim,
    ensures
        r.goes(s.ops.len() as int, st, s.walk_deep(e, ty, at, retain, depth).0.ops.len() as int, after),
        touched(e, st, after, f, touches(e, owned(e.prog.tables, f, ty, at as int, n), retain)),
    decreases 9 - depth, 1nat, 0int,
{
    let t = e.prog.tables;
    let pc = s.ops.len() as int;
    let info = t.at(ty as int);
    let res = s.walk_deep(e, ty, at, retain, depth);
    if e.compound(ty) && depth >= RC_INLINE {
        let h = Helper::Walk { ty, retain };
        let g = s.helper_index(h);
        let addr = e.word(RAW_WORD + 3);
        let s0 = s.helper(h);
        let s1 = s0.da("lea"@, addr, at);
        let o = op_help(g, addr);
        assert(res.0 =~= s1.add(o));
        lemma_helper(hs, s, h);
        let st1 = st.with(addr, (base + at) as u64);
        reveal_with_fuel(hole, 5);
        r.lemma_add(s1, o, st1);
        let lea = op_da("lea"@, addr, at);
        assert(s1 == s0.add(lea));
        r.lemma_add(s0, lea, st);
        assert(st1.at(addr) == (base + at) as u64) by {
            broadcast use word_of_put;

        }
        assert(spared(e, f, st1.frame)) by {
            broadcast use byte_beside_put;

            assert forall|x: int| not_spare(e, x) implies #[trigger] f(x) == (st1.frame)(x) by {
                assert(f(x) == (st.frame)(x));
            }
        }
        let after = (r.m.does)(o, st1);
        assert(after.log == st1.log + touches(
            e,
            owned(e.prog.tables, f, ty, at as int, n),
            retain,
        ));
        r.lemma_on(pc, st, s1.ops.len() as int, st1, res.0.ops.len() as int, after);
        after
    } else {
        assert(depth + 1 <= RC_DEPTH) by {
            if depth + 1 > RC_DEPTH {
                assert(res.1 is Some);
            }
        }
        lemma_walk_rc(r, e, hs, base, s, ty, at, retain, depth + 1, n, lim, f, st)
    }
}

/// The offsets of the payload of a variant.
pub open spec fn variant_offsets(e: Env, ty: usize, v: int) -> Seq<u32> {
    match e.layout(ty).repr {
        Repr::Enum { repr, variants } => variants[v]@,
        _ => Seq::empty(),
    }
}

/// The counted blocks of an enum with a tag, where its variant is `v` or a later one.
spec fn owned_from(e: Env, f: Frame, ty: usize, at: int, tag: u32, v: int, n: nat) -> Seq<
    (u64, Holds),
> {
    if v <= tag_number(f, at, tag as int) {
        owned(e.prog.tables, f, ty, at, n)
    } else {
        Seq::empty()
    }
}

proof fn lemma_none_owned(
    e: Env,
    f: Frame,
    fs: Seq<FieldTy>,
    offs: Seq<u32>,
    at: int,
    n: nat,
    i: int,
)
    requires
        marks_owners(e),
        0 <= i,
        !e.any_owned(fs, i),
    ensures
        owned_by_fields(e.prog.tables, f, fs, offs, at, n, i).len() == 0,
    decreases fs.len() - i,
{
    if i < fs.len() && n > 0 {
        lemma_none_owned(e, f, fs, offs, at, n, i + 1);
        assert(owned(e.prog.tables, f, fs[i].ty, at + offs[i], (n - 1) as nat).len() == 0);
    }
}

/// The test of a tag.
proof fn lemma_test_variant(
    r: Run,
    e: Env,
    s: Sel,
    at: u64,
    tag: u32,
    v: int,
    next: usize,
    f: Frame,
    st: St,
) -> (mid: St)
    requires
        copies_words(r.m),
        tests_words(r.m),
        moves_fields(r.m),
        tag == 1 || tag == 2 || tag == 4 || tag == 8,
        off_spare(e, at as int, at + tag),
        at + tag <= u64::MAX,
        0 <= v <= u64::MAX,
        spared(e, f, st.frame),
        r.has(
            s.load_w(e.word(SPARE_WORD as int), at, tag as u64).test_k(
                e.arm("brcmp/eq/u64/fi"@, H::T),
                e.word(SPARE_WORD as int),
                v as u64,
                V::Fall,
                V::Blk(next),
            ),
        ),
    ensures
        r.goes(
            s.ops.len() as int,
            st,
            if tag_number(f, at as int, tag as int) == v {
                s.load_w(e.word(SPARE_WORD as int), at, tag as u64).ops.len() as int + 1
            } else {
                (r.at)(next)
            },
            mid,
        ),
        mid == (St { frame: mid.frame, ..st }),
        spared(e, f, mid.frame),
{
    broadcast use arm_is_a_twin;

    let scr = e.word(SPARE_WORD as int);
    let w = tag as u64;
    let key = e.arm("brcmp/eq/u64/fi"@, H::T);
    let t = s.load_w(scr, at, w);
    let mid = if narrow(w) {
        St { frame: extended(st.frame, scr as int, st.frame, at as int, w as int), ..st }
    } else {
        st.moved(scr, at, 8)
    };
    r.lemma_test_k(t, key, scr, v as u64, V::Fall, V::Blk(next), mid);
    if narrow(w) {
        let o = op_da("loadu/"@ + decimal(w as nat), scr, at);
        assert(t == s.add(o));
        reveal_with_fuel(hole, 5);
        r.lemma_add(s, o, st);
    } else {
        r.lemma_mv(s, scr, at, 8, st);
    }
    assert forall|x: int| not_spare(e, x) implies #[trigger] f(x) == (mid.frame)(x) by {
        assert(f(x) == (st.frame)(x));
    }
    assert(mid.at(scr) == tag_number(f, at as int, tag as int)) by {
        reveal(word);
        let n = tag as int;
        assert forall|i: int| 0 <= i < 8 implies #[trigger] (mid.frame)(scr + i) == if i < n {
            f(at + i)
        } else {
            0u8
        } by {
            if i < n {
                assert(f(at + i) == (st.frame)(at + i));
            }
        }
        assert(Seq::new(8, |i: int| (mid.frame)(scr + i)) =~= Seq::new(
            8,
            |i: int|
                if i < n {
                    f(at + i)
                } else {
                    0u8
                },
        ));
    }
    r.lemma_on(
        s.ops.len() as int,
        st,
        t.ops.len() as int,
        mid,
        if tag_number(f, at as int, tag as int) == v {
            t.ops.len() as int + 1
        } else {
            (r.at)(next)
        },
        mid,
    );
    mid
}

/// The variants of an enum from one on.
proof fn lemma_walk_variants(
    r: Run,
    e: Env,
    hs: Seq<Helper>,
    base: u64,
    s: Sel,
    ty: usize,
    at: u64,
    retain: bool,
    depth: nat,
    tag: u32,
    done: usize,
    v: int,
    n: nat,
    lim: int,
    f: Frame,
    st: St,
) -> (after: St)
    requires
        walks(r, e, hs, base, lim),
        hs.len() <= usize::MAX,
        off_spare(e, at as int, lim),
        lim <= u64::MAX,
        spared(e, f, st.frame),
        s.walk_variants(e, ty, at, retain, depth, tag, done, v).1 is None,
        carries(r, hs, s.walk_variants(e, ty, at, retain, depth, tag, done, v).0),
        depth <= RC_DEPTH,
        0 <= v,
        e.layout(ty).tagging() == Some(EnumRepr::Tagged { tag }),
        sits(e.prog.tables, ty, at as int, n, lim),
        (r.at)(done) == s.walk_variants(e, ty, at, retain, depth, tag, done, v).0.ops.len(),
    ensures
        r.goes(s.ops.len() as int, st, s.walk_variants(e, ty, at, retain, depth, tag, done, v).0.ops.len() as int, after),
        touched(e, st, after, f,
            touches(e, owned_from(e, f, ty, at as int, tag, v, n), retain),
        ),
    decreases 9 - depth, 3nat, e.layout(ty).width() - v,
{
    let t = e.prog.tables;
    let pc = s.ops.len() as int;
    let info = t.at(ty as int);
    let res = s.walk_variants(e, ty, at, retain, depth, tag, done, v);
    let none = Seq::<(u64, Holds)>::empty();
    assert(touches(e, none, retain) =~= Seq::empty());
    assert(st.log + touches(e, none, retain) =~= st.log);
    let number = tag_number(f, at as int, tag as int);
    let all = owned_from(e, f, ty, at as int, tag, v, n);
    if v >= e.layout(ty).width() {
        assert(all =~= none);
        r.lemma_stays(pc, st);
        st
    } else {
        let fs = info.variant(v);
        let offs = variant_offsets(e, ty, v);
        assert(fields_sit(t, fs, offs, at as int, n, lim, 0));
        if !e.any_owned(fs, 0) {
            if number == v {
                lemma_none_owned(e, f, fs, offs, at as int, n, 0);
                assert(all =~= none);
            }
            lemma_walk_variants(r, e, hs, base, s, ty, at, retain, depth, tag, done, v + 1, n, lim, f, st)
        } else {
            let next = s.next();
            let s0 = s.fresh();
            let scr = e.word(SPARE_WORD as int);
            let key = e.arm("brcmp/eq/u64/fi"@, H::T);
            let s1 = s0.load_w(scr, at, tag as u64).test_k(key, scr, v as u64, V::Fall, V::Blk(next));
            let pay = s1.walk_payload(e, ty, at, retain, depth, v, 0);
            let s2 = pay.0.jump(V::Blk(done));
            let s3 = s2.place(next);
            assert(res == s3.walk_variants(e, ty, at, retain, depth, tag, done, v + 1));
            assert(adds(s3, res.0) && adds(pay.0, s2) && adds(s2, s3) && adds(s1, pay.0)) by {
                broadcast use {adds_walk_variants, adds_place, adds_jump, adds_walk_payload};

            }
            lemma_carries(r, hs, s3, res.0);
            lemma_carries(r, hs, s2, s3);
            lemma_carries(r, hs, pay.0, s2);
            lemma_carries(r, hs, s1, pay.0);
            let mid = lemma_test_variant(r, e, s0, at, tag, v, next, f, st);
            r.lemma_place(s2, next, mid);
            if number == v {
                let after = lemma_walk_payload(
                    r,
                    e,
                    hs,
                    base,
                    s1,
                    ty,
                    at,
                    retain,
                    depth,
                    v,
                    0,
                    n,
                    lim,
                    f,
                    mid,
                );
                r.lemma_jump(pay.0, V::Blk(done), after);
                r.lemma_on(pc, st, s1.ops.len() as int, mid, pay.0.ops.len() as int, after);
                r.lemma_on(pc, st, pay.0.ops.len() as int, after, res.0.ops.len() as int, after);
                after
            } else {
                r.lemma_on(pc, st, s2.ops.len() as int, mid, s3.ops.len() as int, mid);
                let after = lemma_walk_variants(
                    r,
                    e,
                    hs,
                    base,
                    s3,
                    ty,
                    at,
                    retain,
                    depth,
                    tag,
                    done,
                    v + 1,
                    n,
                    lim,
                    f,
                    mid,
                );
                r.lemma_on(pc, st, s3.ops.len() as int, mid, res.0.ops.len() as int, after);
                after
            }
        }
    }
}

/// A walk touches what a value owns and nothing else. A retaining walk adds exactly one to the count
/// of each counted block that the value owns by its type: of a string, a list, what a closure captured
/// and each boxed field, of every field of a struct and of the variant that an enum is. A releasing
/// walk takes exactly one, and leaves the contents of each block to the helper that releases contents
/// of that kind. No slot changes.
pub proof fn a_walk_counts_each_owned_block_once(
    r: Run,
    e: Env,
    hs: Seq<Helper>,
    base: u64,
    s: Sel,
    ty: usize,
    at: u64,
    retain: bool,
    n: nat,
    lim: int,
    st: St,
) -> (after: St)
    requires
        walks(r, e, hs, base, lim),
        off_spare(e, at as int, lim),
        lim <= u64::MAX,
        hs.len() <= usize::MAX,
        sits(e.prog.tables, ty, at as int, n, lim),
        s.walk_rc(e, ty, at, retain, 0).1 is None,
        carries(r, hs, s.walk(e, ty, at, retain)),
    ensures
        r.goes(s.ops.len() as int, st, s.walk(e, ty, at, retain).ops.len() as int, after),
        after == (St { frame: after.frame, log: after.log, ..st }),
        spared(e, st.frame, after.frame),
        after.log == st.log + touches(
            e,
            owned(e.prog.tables, st.frame, ty, at as int, n),
            retain,
        ),
        forall|block: u64| #[trigger]
            count(after.log, block) == count(st.log, block) + if retain {
                times(owned(e.prog.tables, st.frame, ty, at as int, n), block)
            } else {
                -times(owned(e.prog.tables, st.frame, ty, at as int, n), block)
            },
{
    let after = lemma_walk_rc(r, e, hs, base, s, ty, at, retain, 0, n, lim, st.frame, st);
    assert forall|block: u64| #[trigger]
        count(after.log, block) == count(st.log, block) + if retain {
            times(owned(e.prog.tables, st.frame, ty, at as int, n), block)
        } else {
            -times(owned(e.prog.tables, st.frame, ty, at as int, n), block)
        } by {
        lemma_count(
            e,
            st.log,
            owned(e.prog.tables, st.frame, ty, at as int, n),
            retain,
            block,
        );
    }
    after
}

} // verus!
