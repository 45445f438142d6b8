//! Calls of the runtime's C functions.
//!
//! The stencil `crts/i/f/r` calls a C function of `i` integers and `f` floats that answers `r`. Every
//! argument has a hole of its own, the frame offset that it is read from. A word of the frame is read
//! where it is. Anything else is put into the argument area of the frame first, a word for each
//! argument. Where the offsets fit, a folded twin of the stencil reads them in one load each.

use crate::abi::{rt_callee, rt_float_slot, rt_slot, MAX_FLOAT_ARGS, MAX_INT_ARGS};
use crate::assemble::{bound, chosen as picked, falls, fits, reaches, As};
use crate::body::Laid;
use crate::library::{fold_suffix, Hole, Library, Stencil};
use crate::select::{items, Callee, Item, Op, Ret, Sel, Src, To, H, V};
use crate::text::{decimal, decimal_of, join2, join5, own};
use crate::unit::{chosen, Chosen, Un, Unit};
use vstd::prelude::*;

verus! {

/// The first scratch word of the argument area.
pub const ARGUMENT_WORD: u64 = 16;

/// The argument area's word for argument `i`.
pub open spec fn area(scratch: u32, i: int) -> u64 {
    (scratch + (ARGUMENT_WORD + i) * 8) as u64
}

fn area_at(scratch: u32, i: usize) -> (r: u64)
    requires
        i < 0x1000,
    ensures
        r == area(scratch, i as int),
{
    scratch as u64 + (ARGUMENT_WORD + i as u64) * 8
}

/// Where an argument is read from, whose word of the argument area is at `at`.
pub open spec fn read_at(s: Src, at: u64) -> u64 {
    match s {
        Src::Word(w) => w,
        _ => at,
    }
}

/// What puts an argument into its word of the argument area.
pub open spec fn staged(s: Src, at: u64) -> Seq<Item> {
    match s {
        Src::Word(_) => Seq::empty(),
        Src::Imm(k) => seq![
            if k == 0 {
                Item::Stencil {
                    key: "imm/z"@,
                    binds: seq![(H::D, V::I(at)), (H::Cont, V::Fall)],
                }
            } else if k < 0x1_0000_0000 {
                Item::Stencil {
                    key: "imm/32"@,
                    binds: seq![(H::D, V::I(at)), (H::N, V::I(k)), (H::Cont, V::Fall)],
                }
            } else {
                Item::Stencil {
                    key: "imm/64"@,
                    binds: seq![(H::D, V::I(at)), (H::M, V::I(k)), (H::Cont, V::Fall)],
                }
            },
        ],
        Src::Sym(i) => seq![
            Item::Stencil {
                key: "imm/64"@,
                binds: seq![(H::D, V::I(at)), (H::M, V::Sym(i)), (H::Cont, V::Fall)],
            },
        ],
        Src::Addr(a) => seq![
            Item::Stencil {
                key: "lea"@,
                binds: seq![(H::D, V::I(at)), (H::A, V::I(a)), (H::Cont, V::Fall)],
            },
        ],
    }
}

/// What puts the first `n` arguments into the argument area, the first at its word `first`.
pub open spec fn staged_all(scratch: u32, ss: Seq<Src>, first: int, n: int) -> Seq<Item>
    decreases n,
{
    if n <= 0 {
        Seq::empty()
    } else {
        staged_all(scratch, ss, first, n - 1) + staged(ss[n - 1], area(scratch, first + n - 1))
    }
}

/// What a hole is bound to, as a value.
pub enum Bound {
    I(u64),
    Ptr(usize),
    Blk(usize),
    Fn(usize),
    Sym(usize),
    Ext(Seq<char>),
    Fall,
}

/// What a hole is bound to, as a value.
pub open spec fn value_of(v: V) -> Bound {
    match v {
        V::I(x) => Bound::I(x),
        V::Ptr(i) => Bound::Ptr(i),
        V::Blk(b) => Bound::Blk(b),
        V::Fn(f) => Bound::Fn(f),
        V::Sym(i) => Bound::Sym(i),
        V::Ext(name) => Bound::Ext(name@),
        V::Fall => Bound::Fall,
    }
}

/// The holes by their names in the library, with what each is bound to.
pub open spec fn named(binds: Seq<(H, V)>) -> Seq<(Seq<char>, Bound)> {
    Seq::new(binds.len(), |i: int| (binds[i].0.text(), value_of(binds[i].1)))
}

/// The letter of an answer.
pub open spec fn answer_text(ret: Ret) -> Seq<char> {
    match ret {
        Ret::Void => "v"@,
        Ret::Int => "i"@,
    }
}

/// The holes of the first `n` arguments.
pub open spec fn arg_binds(
    scratch: u32,
    hole: Seq<char>,
    ss: Seq<Src>,
    first: int,
    n: int,
) -> Seq<(Seq<char>, Bound)>
    decreases n,
{
    if n <= 0 {
        Seq::empty()
    } else {
        arg_binds(scratch, hole, ss, first, n - 1).push(
            (
                hole + decimal((n - 1) as nat),
                Bound::I(read_at(ss[n - 1], area(scratch, first + n - 1))),
            ),
        )
    }
}

/// The stencil of a call of this shape.
pub open spec fn call_key(ints: nat, floats: nat, ret: Ret) -> Seq<char> {
    "crts/"@ + decimal(ints) + "/"@ + decimal(floats) + "/"@ + answer_text(ret)
}

/// What is called.
pub open spec fn called(to: To) -> Bound {
    match to {
        To::Name(name) => Bound::Ext(name),
        To::Helper(i) => Bound::Sym(i),
    }
}

/// The holes of a call.
pub open spec fn call_binds(
    scratch: u32,
    to: To,
    ints: Seq<Src>,
    floats: Seq<Src>,
    dest: u64,
    ret: Ret,
) -> Seq<(Seq<char>, Bound)> {
    arg_binds(scratch, "JIT_S"@, ints, 0, ints.len() as int) + arg_binds(
        scratch,
        "JIT_G"@,
        floats,
        MAX_INT_ARGS as int,
        floats.len() as int,
    ) + (match ret {
        Ret::Void => Seq::empty(),
        Ret::Int => seq![("JIT_D"@, Bound::I(dest))],
    }) + seq![
        (
            "JIT_RT_"@ + decimal(ints.len()) + "_"@ + decimal(floats.len()) + "_"@ + answer_text(
                ret,
            ),
            called(to),
        ),
        ("JIT_CONT0"@, Bound::Fall),
    ]
}

/// Whether there is a stencil for a call of this many arguments.
pub open spec fn callable(ints: nat, floats: nat) -> bool {
    ints <= MAX_INT_ARGS && floats <= MAX_FLOAT_ARGS
}

/// Whether operations stand for one: a call puts its arguments where they are read and copies its
/// stencil, and anything else, and a call too wide for any stencil, stands for itself.
pub open spec fn expands(scratch: u32, o: Item, r: Seq<Op>) -> bool {
    match o {
        Item::Call { to, ints, floats, dest, ret } => if callable(ints.len(), floats.len()) {
            &&& r.len() > 0
            &&& items(r.drop_last()) == staged_all(scratch, ints, 0, ints.len() as int)
                + staged_all(scratch, floats, MAX_INT_ARGS as int, floats.len() as int)
            &&& r.last() matches Op::Stencil { key, binds } && key@ == call_key(
                ints.len(),
                floats.len(),
                ret,
            ) && named(binds@) == call_binds(scratch, to, ints, floats, dest, ret)
        } else {
            items(r) == seq![o]
        },
        _ => items(r) == seq![o],
    }
}

fn stage(out: &mut Vec<Op>, s: Src, at: u64)
    ensures
        items(final(out)@) == items(old(out)@) + staged(s, at),
{
    let ghost before = items(out@);
    match s {
        Src::Word(_) => {},
        Src::Imm(k) => {
            if k == 0 {
                out.push(
                    Op::Stencil {
                        key: own("imm/z"),
                        binds: vec![(H::D, V::I(at)), (H::Cont, V::Fall)],
                    },
                );
            } else if k < 0x1_0000_0000 {
                out.push(
                    Op::Stencil {
                        key: own("imm/32"),
                        binds: vec![(H::D, V::I(at)), (H::N, V::I(k)), (H::Cont, V::Fall)],
                    },
                );
            } else {
                out.push(
                    Op::Stencil {
                        key: own("imm/64"),
                        binds: vec![(H::D, V::I(at)), (H::M, V::I(k)), (H::Cont, V::Fall)],
                    },
                );
            }
        },
        Src::Sym(i) => {
            out.push(
                Op::Stencil {
                    key: own("imm/64"),
                    binds: vec![(H::D, V::I(at)), (H::M, V::Sym(i)), (H::Cont, V::Fall)],
                },
            );
        },
        Src::Addr(a) => {
            out.push(
                Op::Stencil {
                    key: own("lea"),
                    binds: vec![(H::D, V::I(at)), (H::A, V::I(a)), (H::Cont, V::Fall)],
                },
            );
        },
    }
    assert(items(out@) =~= before + staged(s, at));
}

fn stage_all(out: &mut Vec<Op>, scratch: u32, ss: &Vec<Src>, first: usize)
    requires
        ss.len() < 0x100,
        first < 0x100,
    ensures
        items(final(out)@) == items(old(out)@) + staged_all(
            scratch,
            ss@,
            first as int,
            ss.len() as int,
        ),
{
    let ghost before = items(out@);
    let mut i: usize = 0;
    assert(items(out@) =~= before + staged_all(scratch, ss@, first as int, 0));
    while i < ss.len()
        invariant
            i <= ss.len() < 0x100,
            first < 0x100,
            items(out@) == before + staged_all(scratch, ss@, first as int, i as int),
        decreases ss.len() - i,
    {
        let ghost now = items(out@);
        stage(out, ss[i], area_at(scratch, first + i));
        i = i + 1;
        assert(items(out@) =~= before + staged_all(scratch, ss@, first as int, i as int));
    }
}

fn bind_all(binds: &mut Vec<(H, V)>, scratch: u32, floats: bool, ss: &Vec<Src>, first: usize)
    requires
        ss.len() < 0x100,
        first < 0x100,
    ensures
        named(final(binds)@) == named(old(binds)@) + arg_binds(
            scratch,
            if floats {
                "JIT_G"@
            } else {
                "JIT_S"@
            },
            ss@,
            first as int,
            ss.len() as int,
        ),
{
    let ghost before = named(binds@);
    let ghost hole = if floats {
        "JIT_G"@
    } else {
        "JIT_S"@
    };
    let mut i: usize = 0;
    assert(named(binds@) =~= before + arg_binds(scratch, hole, ss@, first as int, 0));
    while i < ss.len()
        invariant
            i <= ss.len() < 0x100,
            first < 0x100,
            hole == (if floats {
                "JIT_G"@
            } else {
                "JIT_S"@
            }),
            named(binds@) == before + arg_binds(scratch, hole, ss@, first as int, i as int),
        decreases ss.len() - i,
    {
        let ghost now = named(binds@);
        let at: u64 = match ss[i] {
            Src::Word(w) => w,
            _ => area_at(scratch, first + i),
        };
        let name: String = if floats {
            rt_float_slot(i)
        } else {
            rt_slot(i)
        };
        binds.push((H::Named(name), V::I(at)));
        assert(named(binds@) =~= now.push((hole + decimal(i as nat), Bound::I(at))));
        i = i + 1;
        assert(named(binds@) =~= before + arg_binds(scratch, hole, ss@, first as int, i as int));
    }
}

/// The operations of a call of a C function, where there is a stencil for it, in a body whose scratch
/// words begin at `scratch`.
pub fn expand_call(
    scratch: u32,
    callee: &Callee,
    ints: &Vec<Src>,
    floats: &Vec<Src>,
    dest: u64,
    ret: Ret,
) -> (r: Option<Vec<Op>>)
    ensures
        match r {
            Some(ops) => callable(ints@.len(), floats@.len()) && expands(
                scratch,
                Item::Call { to: callee@, ints: ints@, floats: floats@, dest, ret },
                ops@,
            ),
            None => !callable(ints@.len(), floats@.len()),
        },
{
    if ints.len() > MAX_INT_ARGS || floats.len() > MAX_FLOAT_ARGS {
        return None;
    }
    let mut out: Vec<Op> = Vec::new();
    assert(items(out@) =~= Seq::empty());
    stage_all(&mut out, scratch, ints, 0);
    stage_all(&mut out, scratch, floats, MAX_INT_ARGS);
    let ghost before = out@;
    assert(items(out@) =~= staged_all(scratch, ints@, 0, ints.len() as int) + staged_all(
        scratch,
        floats@,
        MAX_INT_ARGS as int,
        floats.len() as int,
    ));
    let letter: &str = match ret {
        Ret::Void => "v",
        Ret::Int => "i",
    };
    let i: String = decimal_of(ints.len() as u64);
    let f: String = decimal_of(floats.len() as u64);
    let head: String = join5("crts/", i.as_str(), "/", f.as_str(), "/");
    let key: String = join2(head.as_str(), letter);
    let mut binds: Vec<(H, V)> = Vec::new();
    assert(named(binds@) =~= Seq::empty());
    bind_all(&mut binds, scratch, false, ints, 0);
    bind_all(&mut binds, scratch, true, floats, MAX_INT_ARGS);
    let ghost args = named(binds@);
    assert(args =~= arg_binds(scratch, "JIT_S"@, ints@, 0, ints.len() as int) + arg_binds(
        scratch,
        "JIT_G"@,
        floats@,
        MAX_INT_ARGS as int,
        floats.len() as int,
    ));
    match ret {
        Ret::Void => {},
        Ret::Int => {
            binds.push((H::D, V::I(dest)));
        },
    }
    assert(named(binds@) =~= args + (match ret {
        Ret::Void => Seq::empty(),
        Ret::Int => seq![("JIT_D"@, Bound::I(dest))],
    }));
    let ghost most = named(binds@);
    let to: V = match callee {
        Callee::Name(name) => V::Ext(name.clone()),
        Callee::Helper(i) => V::Sym(*i),
    };
    let hole: String = rt_callee(ints.len(), floats.len(), letter);
    let ghost last = (hole@, called(callee@));
    binds.push((H::Named(hole), to));
    binds.push((H::Cont0, V::Fall));
    assert(named(binds@) =~= most + seq![last, ("JIT_CONT0"@, Bound::Fall)]);
    out.push(Op::Stencil { key, binds });
    assert(out@.drop_last() =~= before);
    Some(out)
}

/// Whether an operation calls the runtime and is not one that the assembler takes.
pub open spec fn calls_runtime(o: Item) -> bool {
    match o {
        Item::Stencil { key, binds } => false,
        Item::Place(_) => false,
        Item::Pool(_) => false,
        Item::Raw(_) => false,
        _ => true,
    }
}

impl Op {
    /// Whether the operation calls the runtime, and so has to be expanded before it is assembled.
    pub fn calls_runtime(&self) -> (r: bool)
        ensures
            r == calls_runtime(self@),
    {
        match self {
            Op::Stencil { .. } => false,
            Op::Place(_) => false,
            Op::Pool(_) => false,
            Op::Raw(_) => false,
            _ => true,
        }
    }
}

/// Whether operations stand for others, one after another.
pub open spec fn spread(scratch: u32, os: Seq<Item>, r: Seq<Op>) -> bool
    decreases os.len(),
{
    if os.len() == 0 {
        r.len() == 0
    } else {
        exists|k: int|
            0 <= k <= r.len() && #[trigger] expands(scratch, os.last(), r.skip(k)) && spread(
                scratch,
                os.drop_last(),
                r.take(k),
            )
    }
}

fn expand_ops(scratch: u32, ops: Vec<Op>) -> (r: Vec<Op>)
    ensures
        spread(scratch, items(ops@), r@),
{
    let ghost os = items(ops@);
    let mut left: Vec<Op> = ops;
    let mut out: Vec<Op> = Vec::new();
    let mut i: usize = 0;
    while i < left.len()
        invariant
            i <= left.len() == os.len(),
            forall|k: int| i <= k < left.len() ==> (#[trigger] left[k])@ == os[k],
            spread(scratch, os.take(i as int), out@),
        decreases left.len() - i,
    {
        let ghost before = out@;
        let mut o: Op = Op::Place(0);
        core::mem::swap(&mut left[i], &mut o);
        assert(o@ == os[i as int]);
        let call: Option<Vec<Op>> = match &o {
            Op::Call { callee, ints, floats, dest, ret } => expand_call(
                scratch,
                callee,
                ints,
                floats,
                *dest,
                *ret,
            ),
            _ => None,
        };
        let ghost o_view = o@;
        let mut more: Vec<Op> = match call {
            Some(v) => v,
            None => {
                let v: Vec<Op> = vec![o];
                assert(items(v@) =~= seq![o_view]);
                v
            },
        };
        let ghost e = more@;
        assert(expands(scratch, o_view, e));
        out.append(&mut more);
        assert(out@ =~= before + e);
        proof {
            let now = os.take(i + 1);
            assert(now.drop_last() =~= os.take(i as int));
            assert(out@.skip(before.len() as int) =~= e);
            assert(out@.take(before.len() as int) =~= before);
            assert(expands(scratch, now.last(), out@.skip(before.len() as int)));
        }
        i = i + 1;
    }
    assert(os.take(i as int) =~= os);
    out
}

/// Whether a unit is another in which the calls of C functions have been expanded.
pub open spec fn expanded(s: Un, u: Unit) -> bool {
    &&& u@ == (Un { bodies: u@.bodies, ..s })
    &&& u.bodies@.len() == s.bodies.len()
    &&& forall|i: int|
        0 <= i < s.bodies.len() ==> {
            &&& (#[trigger] u.bodies@[i]).labels == s.bodies[i].labels
            &&& u.bodies@[i].scratch == s.bodies[i].scratch
            &&& u.bodies@[i].dirty == s.bodies[i].dirty
            &&& spread(s.bodies[i].scratch, s.bodies[i].ops, u.bodies@[i].ops@)
        }
}

impl Unit {
    /// Expands the calls of C functions.
    pub fn expand_calls(self) -> (r: Unit)
        ensures
            expanded(self@, r),
    {
        let Unit { bodies, helpers, reasons, lits, loops } = self;
        let ghost bs = chosen(bodies@);
        let mut left: Vec<Chosen> = bodies;
        let mut out: Vec<Chosen> = Vec::new();
        let mut i: usize = 0;
        while i < left.len()
            invariant
                i <= left.len() == bs.len(),
                out.len() == i,
                forall|k: int| i <= k < left.len() ==> (#[trigger] left[k])@ == bs[k],
                forall|k: int|
                    0 <= k < i ==> {
                        &&& (#[trigger] out@[k]).labels == bs[k].labels
                        &&& out@[k].scratch == bs[k].scratch
                        &&& out@[k].dirty == bs[k].dirty
                        &&& spread(bs[k].scratch, bs[k].ops, out@[k].ops@)
                    },
            decreases left.len() - i,
        {
            let mut c: Chosen = Chosen { ops: Vec::new(), labels: 0, scratch: 0, dirty: false };
            core::mem::swap(&mut left[i], &mut c);
            assert(c@ == bs[i as int]);
            let Chosen { ops, labels, scratch, dirty } = c;
            let ops: Vec<Op> = expand_ops(scratch, ops);
            out.push(Chosen { ops, labels, scratch, dirty });
            i = i + 1;
        }
        Unit { bodies: out, helpers, reasons, lits, loops }
    }
}

// ---------------------------------------------------------------------------
// Names alone
// ---------------------------------------------------------------------------

proof fn lemma_bound(a: Seq<(H, V)>, b: Seq<(H, V)>, name: Seq<char>, i: int)
    requires
        named(a) == named(b),
        0 <= i,
    ensures
        (bound(a, name, i) is Some) == (bound(b, name, i) is Some),
        bound(a, name, i) is Some ==> value_of(bound(a, name, i)->0) == value_of(
            bound(b, name, i)->0,
        ),
    decreases a.len() - i,
{
    assert(named(a).len() == a.len() && named(b).len() == b.len());
    if i < a.len() {
        assert(named(a)[i] == named(b)[i]);
        lemma_bound(a, b, name, i + 1);
    }
}

proof fn lemma_fits(s: Stencil, a: Seq<(H, V)>, b: Seq<(H, V)>)
    requires
        named(a) == named(b),
        fits(s, a),
    ensures
        fits(s, b),
{
    assert forall|i: int| 0 <= i < s.holes.len() implies (#[trigger] s.holes[i]).lo12@.len() == 0
        || match bound(b, s.holes[i].name@, 0) {
        Some(V::I(v)) => reaches(s.holes[i].lo12@, v),
        _ => false,
    } by {
        lemma_bound(a, b, s.holes[i].name@, 0);
    }
}

proof fn lemma_chosen(lib: Library, key: Seq<char>, a: Seq<(H, V)>, b: Seq<(H, V)>, k: int)
    requires
        named(a) == named(b),
    ensures
        picked(lib, key, a, k) == picked(lib, key, b, k),
    decreases 3 - k,
{
    if k < 3 {
        match lib.slot(key + fold_suffix(k)) {
            Some(i) => {
                if fits(lib.stencils[i], a) {
                    lemma_fits(lib.stencils[i], a, b);
                }
                if fits(lib.stencils[i], b) {
                    lemma_fits(lib.stencils[i], b, a);
                }
            },
            None => {},
        }
        lemma_chosen(lib, key, a, b, k + 1);
    }
}

proof fn lemma_falls(a: Seq<(H, V)>, b: Seq<(H, V)>, name: Seq<char>)
    requires
        named(a) == named(b),
        falls(a, name),
    ensures
        falls(b, name),
{
    let i = choose|i: int|
        0 <= i < a.len() && (#[trigger] a[i]).0.text() == name && a[i].1 == V::Fall;
    assert(named(a).len() == a.len() && named(b).len() == b.len());
    assert(named(a)[i] == named(b)[i]);
    assert(b[i].0.text() == name && b[i].1 == V::Fall);
}

proof fn lemma_fill_all(
    u: As,
    key: Seq<char>,
    a: Seq<(H, V)>,
    b: Seq<(H, V)>,
    at: u64,
    end: u64,
    holes: Seq<Hole>,
    but: Option<Seq<char>>,
    i: int,
)
    requires
        named(a) == named(b),
    ensures
        u.fill_all(key, a, at, end, holes, but, i) == u.fill_all(key, b, at, end, holes, but, i),
    decreases holes.len() - i,
{
    if i < holes.len() {
        lemma_bound(a, b, holes[i].name@, 0);
        assert(u.fill(key, a, at, end, holes[i]) == u.fill(key, b, at, end, holes[i]));
        if but == Some(holes[i].name@) {
            lemma_fill_all(u, key, a, b, at, end, holes, but, i + 1);
        } else {
            match u.fill(key, a, at, end, holes[i]) {
                Ok(n) => {
                    lemma_fill_all(n, key, a, b, at, end, holes, but, i + 1);
                },
                Err(_) => {},
            }
        }
    }
}

/// What a stencil is assembled to depends on the names of its holes and on what each is bound to, and
/// on nothing else: a hole has one meaning, however it is spelled.
pub proof fn a_hole_is_bound_by_its_name(
    u: As,
    lib: Library,
    key: Seq<char>,
    a: Seq<(H, V)>,
    b: Seq<(H, V)>,
)
    requires
        named(a) == named(b),
    ensures
        u.emit(lib, key, a) == u.emit(lib, key, b),
{
    lemma_chosen(lib, key, a, b, 0);
    if lib.holds(key) {
        let s = lib.stencils[picked(lib, key, a, 0)->0];
        match s.tail_hole() {
            Some(name) => {
                if falls(a, name) {
                    lemma_falls(a, b, name);
                }
                if falls(b, name) {
                    lemma_falls(b, a, name);
                }
            },
            None => {},
        }
        let drop = match s.tail_hole() {
            Some(n) => if falls(a, n) {
                Some(n)
            } else {
                None
            },
            None => None,
        };
        let len = if drop is Some {
            s.code@.len() - 4
        } else {
            s.code@.len() as int
        };
        let at = u.rg.code.len() as u64;
        lemma_fill_all(
            u.lay(s, len),
            key,
            a,
            b,
            at,
            (at + len) as u64,
            s.holes@,
            drop,
            0,
        );
    }
}

/// Whether two operations differ at most in how holes are spelled.
pub open spec fn alike(a: Op, b: Op) -> bool {
    a@ == b@ || match (a, b) {
        (Op::Stencil { key: ka, binds: ba }, Op::Stencil { key: kb, binds: bb }) => ka@ == kb@
            && named(ba@) == named(bb@),
        _ => false,
    }
}

/// Whether two lists of operations do.
pub open spec fn all_alike(a: Seq<Op>, b: Seq<Op>) -> bool {
    a.len() == b.len() && forall|i: int| 0 <= i < a.len() ==> alike(#[trigger] a[i], #[trigger] b[i])
}

proof fn lemma_expands(scratch: u32, o: Item, a: Seq<Op>, b: Seq<Op>)
    requires
        expands(scratch, o, a),
        expands(scratch, o, b),
    ensures
        all_alike(a, b),
{
    let (x, y) = match o {
        Item::Call { to, ints, floats, dest, ret } => if callable(ints.len(), floats.len()) {
            (a.drop_last(), b.drop_last())
        } else {
            (a, b)
        },
        _ => (a, b),
    };
    assert(items(x) == items(y));
    assert(items(x).len() == x.len() && items(y).len() == y.len());
    assert forall|i: int| 0 <= i < a.len() implies alike(#[trigger] a[i], #[trigger] b[i]) by {
        if i < x.len() {
            assert(items(x)[i] == x[i]@ && items(y)[i] == y[i]@);
            assert(x[i] == a[i] && y[i] == b[i]);
        } else {
            assert(a[i] == a.last() && b[i] == b.last());
        }
    }
}

proof fn lemma_spread(scratch: u32, os: Seq<Item>, a: Seq<Op>, b: Seq<Op>)
    requires
        spread(scratch, os, a),
        spread(scratch, os, b),
    ensures
        all_alike(a, b),
    decreases os.len(),
{
    if os.len() > 0 {
        let i = choose|k: int|
            0 <= k <= a.len() && #[trigger] expands(scratch, os.last(), a.skip(k)) && spread(
                scratch,
                os.drop_last(),
                a.take(k),
            );
        let j = choose|k: int|
            0 <= k <= b.len() && #[trigger] expands(scratch, os.last(), b.skip(k)) && spread(
                scratch,
                os.drop_last(),
                b.take(k),
            );
        lemma_spread(scratch, os.drop_last(), a.take(i), b.take(j));
        lemma_expands(scratch, os.last(), a.skip(i), b.skip(j));
        assert(i == j);
        assert forall|k: int| 0 <= k < a.len() implies alike(#[trigger] a[k], #[trigger] b[k]) by {
            if k < i {
                assert(a.take(i)[k] == a[k] && b.take(j)[k] == b[k]);
            } else {
                assert(a.skip(i)[k - i] == a[k] && b.skip(j)[k - i] == b[k]);
            }
        }
    }
}

proof fn lemma_laid(
    l: Laid,
    lib: Library,
    lits: Seq<Seq<u8>>,
    a: Seq<Op>,
    b: Seq<Op>,
    i: int,
)
    requires
        all_alike(a, b),
        0 <= i,
    ensures
        l.ops(lib, lits, items(a), i) == l.ops(lib, lits, items(b), i),
    decreases a.len() - i,
{
    if i < a.len() {
        assert(alike(a[i], b[i]));
        assert(items(a)[i] == a[i]@ && items(b)[i] == b[i]@);
        match (a[i], b[i]) {
            (Op::Stencil { key: ka, binds: ba }, Op::Stencil { key: kb, binds: bb }) => {
                if a[i]@ != b[i]@ {
                    a_hole_is_bound_by_its_name(l.unit, lib, ka@, ba@, bb@);
                }
            },
            _ => {},
        }
        assert(l.op(lib, lits, a[i]@) == l.op(lib, lits, b[i]@));
        match l.op(lib, lits, a[i]@) {
            Ok(n) => {
                lemma_laid(n, lib, lits, a, b, i + 1);
            },
            Err(_) => {},
        }
    }
}

proof fn lemma_bodies(
    u: As,
    lib: Library,
    lits: Seq<Seq<u8>>,
    s: Un,
    a: Unit,
    b: Unit,
    at: Seq<u64>,
    i: int,
)
    requires
        expanded(s, a),
        expanded(s, b),
        0 <= i,
    ensures
        u.bodies(lib, lits, a@.bodies, at, i) == u.bodies(lib, lits, b@.bodies, at, i),
    decreases s.bodies.len() - i,
{
    if i < s.bodies.len() {
        let x = a.bodies@[i];
        let y = b.bodies@[i];
        assert(a@.bodies[i] == x@ && b@.bodies[i] == y@);
        lemma_spread(s.bodies[i].scratch, s.bodies[i].ops, x.ops@, y.ops@);
        let start = As { rg: u.rg.align_code(4), ..u };
        lemma_laid(
            Laid { unit: start, blk: Seq::new(x.labels as nat, |i: int| 0u64) },
            lib,
            lits,
            x.ops@,
            y.ops@,
            0,
        );
        assert(u.body(lib, lits, x@.ops, x@.labels) == u.body(lib, lits, y@.ops, y@.labels));
        match u.body(lib, lits, x@.ops, x@.labels) {
            Ok(n) => {
                lemma_bodies(
                    n,
                    lib,
                    lits,
                    s,
                    a,
                    b,
                    at.push(u.rg.align_code(4).code.len() as u64),
                    i + 1,
                );
            },
            Err(_) => {},
        }
    }
}

/// There is one expansion of a unit as far as any code shows: two of them are assembled to the same.
pub proof fn an_expansion_is_assembled_one_way(u: As, lib: Library, s: Un, a: Unit, b: Unit)
    requires
        expanded(s, a),
        expanded(s, b),
    ensures
        u.bodies(lib, a@.lits, a@.bodies, Seq::empty(), 0) == u.bodies(
            lib,
            b@.lits,
            b@.bodies,
            Seq::empty(),
            0,
        ),
        a@.reasons == b@.reasons,
{
    lemma_bodies(u, lib, a@.lits, s, a, b, Seq::empty(), 0);
}

/// An argument is put into the argument area as the selector puts one into any word.
pub proof fn an_argument_is_staged_as_a_word_is(sel: Sel, s: Src, at: u64)
    ensures
        sel.ops + staged(s, at) == (match s {
            Src::Word(_) => sel,
            Src::Imm(k) => sel.imm_to(at, k),
            Src::Sym(i) => sel.imm_to_ptr(at, V::Sym(i)),
            Src::Addr(a) => sel.da("lea"@, at, a),
        }).ops,
{
    let after = match s {
        Src::Word(_) => sel,
        Src::Imm(k) => sel.imm_to(at, k),
        Src::Sym(i) => sel.imm_to_ptr(at, V::Sym(i)),
        Src::Addr(a) => sel.da("lea"@, at, a),
    };
    assert(sel.ops + staged(s, at) =~= after.ops);
}

} // verus!
