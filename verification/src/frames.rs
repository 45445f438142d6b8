//! Where a function's results, parameters and locals are in its frame.
//!
//! A frame is the return area, which the callee writes, then the parameters, which the caller
//! writes, then the locals, and then the scratch words. The callee's frame begins at its end. A
//! caller's bytes depend on its callee's frame, so the frames are computed for the whole program.

use crate::ir::{Body, Code, Func, Program, Type};
use crate::select::{slot_of, slot_of_width, type_width, width_in, FrameSig};
use crate::types::Tables;
use vstd::prelude::*;

verus! {

/// Words of scratch past the last local, inside every frame.
pub const SCRATCH_WORDS: usize = 96;

/// The bytes of the scratch words.
pub const SCRATCH_BYTES: u32 = 768;

/// The bytes of a value of a type in a frame.
pub open spec fn slot_bytes(tables: Tables, t: Type) -> nat {
    slot_of(width_in(tables, t)) as nat
}

/// The bytes of the first `n` of some values in a frame.
pub open spec fn slots_bytes(tables: Tables, types: Seq<Type>, n: int) -> nat
    decreases n,
{
    if n <= 0 {
        0
    } else {
        slots_bytes(tables, types, n - 1) + slot_bytes(tables, types[n - 1])
    }
}

/// The bytes of the locals among the first `n` values: a value that the entry takes as a parameter
/// is none.
pub open spec fn locals_bytes(tables: Tables, code: Code, n: int) -> nat
    decreases n,
{
    if n <= 0 {
        0
    } else {
        locals_bytes(tables, code, n - 1) + (if code.params(0).contains((n - 1) as usize) {
            0
        } else {
            slot_bytes(tables, code.types[n - 1])
        })
    }
}

/// A frame, as a value.
pub struct Fv {
    pub ret: Seq<nat>,
    pub ret_size: nat,
    pub params: Seq<nat>,
    pub param_end: nat,
    pub size: nat,
}

/// The frame of a function.
pub open spec fn frame_of(tables: Tables, f: Func) -> Fv {
    let ret_size = slots_bytes(tables, f.rets@, f.rets.len() as int);
    let param_end = ret_size + slots_bytes(tables, f.params@, f.params.len() as int);
    let locals = match f.body {
        Body::Code(code) => locals_bytes(tables, code, code.types.len() as int),
        Body::Runtime(_) => 0,
    };
    Fv {
        ret: Seq::new(f.rets@.len(), |i: int| slots_bytes(tables, f.rets@, i)),
        ret_size,
        params: Seq::new(
            f.params@.len(),
            |i: int| ret_size + slots_bytes(tables, f.params@, i),
        ),
        param_end,
        size: ((param_end + locals + SCRATCH_BYTES + 15) / 16 * 16) as nat,
    }
}

/// Whether a frame holds these offsets.
pub open spec fn is_frame(fs: FrameSig, v: Fv) -> bool {
    &&& fs.ret@.len() == v.ret.len()
    &&& forall|i: int| 0 <= i < v.ret.len() ==> #[trigger] fs.ret@[i] == v.ret[i]
    &&& fs.ret_size == v.ret_size
    &&& fs.params@.len() == v.params.len()
    &&& forall|i: int| 0 <= i < v.params.len() ==> #[trigger] fs.params@[i] == v.params[i]
    &&& fs.param_end == v.param_end
    &&& fs.size == v.size
}

proof fn lemma_slots_grow(tables: Tables, types: Seq<Type>, i: int, n: int)
    requires
        i <= n,
    ensures
        slots_bytes(tables, types, i) <= slots_bytes(tables, types, n),
    decreases n - i,
{
    if i < n {
        lemma_slots_grow(tables, types, i, n - 1);
    }
}

proof fn lemma_locals_grow(tables: Tables, code: Code, i: int, n: int)
    requires
        i <= n,
    ensures
        locals_bytes(tables, code, i) <= locals_bytes(tables, code, n),
    decreases n - i,
{
    if i < n {
        lemma_locals_grow(tables, code, i, n - 1);
    }
}

/// Results and parameters do not overlap: each starts where the one before it ends, and all of them
/// end before the locals.
pub proof fn places_of_a_frame_are_apart(tables: Tables, f: Func, i: int, j: int)
    requires
        0 <= i < j,
    ensures
        j < f.rets.len() ==> frame_of(tables, f).ret[i] + slot_bytes(tables, f.rets[i])
            <= frame_of(tables, f).ret[j],
        j < f.params.len() ==> frame_of(tables, f).params[i] + slot_bytes(tables, f.params[i])
            <= frame_of(tables, f).params[j],
        j < f.rets.len() ==> frame_of(tables, f).ret[j] + slot_bytes(tables, f.rets[j])
            <= frame_of(tables, f).ret_size,
        j < f.params.len() ==> frame_of(tables, f).params[j] + slot_bytes(tables, f.params[j])
            <= frame_of(tables, f).param_end,
        frame_of(tables, f).ret_size <= frame_of(tables, f).param_end,
        frame_of(tables, f).param_end + SCRATCH_BYTES <= frame_of(tables, f).size,
{
    if j < f.rets.len() {
        lemma_slots_grow(tables, f.rets@, i + 1, j);
        lemma_slots_grow(tables, f.rets@, j + 1, f.rets.len() as int);
    }
    if j < f.params.len() {
        lemma_slots_grow(tables, f.params@, i + 1, j);
        lemma_slots_grow(tables, f.params@, j + 1, f.params.len() as int);
    }
}

fn offsets(tables: &Tables, types: &Vec<Type>, start: u32) -> (r: (Vec<u32>, u32))
    requires
        start + slots_bytes(*tables, types@, types.len() as int) <= u32::MAX,
    ensures
        r.0.len() == types.len(),
        forall|i: int|
            0 <= i < types.len() ==> #[trigger] r.0[i] == start + slots_bytes(*tables, types@, i),
        r.1 == start + slots_bytes(*tables, types@, types.len() as int),
{
    let mut out: Vec<u32> = Vec::new();
    let mut at: u32 = start;
    let mut i: usize = 0;
    while i < types.len()
        invariant
            i <= types.len(),
            out.len() == i,
            at == start + slots_bytes(*tables, types@, i as int),
            start + slots_bytes(*tables, types@, types.len() as int) <= u32::MAX,
            forall|k: int|
                0 <= k < i ==> #[trigger] out[k] == start + slots_bytes(*tables, types@, k),
        decreases types.len() - i,
    {
        out.push(at);
        proof {
            lemma_slots_grow(*tables, types@, i as int + 1, types.len() as int);
        }
        at = at + slot_of_width(type_width(tables, types[i])) as u32;
        i = i + 1;
    }
    (out, at)
}

fn holds(v: &Vec<usize>, x: usize) -> (r: bool)
    ensures
        r == v@.contains(x),
{
    let mut i: usize = 0;
    while i < v.len()
        invariant
            i <= v.len(),
            forall|k: int| 0 <= k < i ==> v[k] != x,
        decreases v.len() - i,
    {
        if v[i] == x {
            return true;
        }
        i = i + 1;
    }
    false
}

fn locals(tables: &Tables, code: &Code, start: u32) -> (r: u32)
    requires
        start + locals_bytes(*tables, *code, code.types.len() as int) <= u32::MAX,
    ensures
        r == start + locals_bytes(*tables, *code, code.types.len() as int),
{
    let entry: Vec<usize> = code.params_of(0);
    let mut at: u32 = start;
    let mut v: usize = 0;
    while v < code.types.len()
        invariant
            v <= code.types.len(),
            entry@ == code.params(0),
            at == start + locals_bytes(*tables, *code, v as int),
            start + locals_bytes(*tables, *code, code.types.len() as int) <= u32::MAX,
        decreases code.types.len() - v,
    {
        proof {
            lemma_locals_grow(*tables, *code, v as int + 1, code.types.len() as int);
        }
        if !holds(&entry, v) {
            at = at + slot_of_width(type_width(tables, code.types[v])) as u32;
        }
        v = v + 1;
    }
    at
}

/// The frame of one function.
pub fn frame_sig(tables: &Tables, f: &Func) -> (r: FrameSig)
    requires
        frame_of(*tables, *f).size <= u32::MAX,
    ensures
        is_frame(r, frame_of(*tables, *f)),
{
    let ghost v = frame_of(*tables, *f);
    let (ret, ret_size): (Vec<u32>, u32) = offsets(tables, &f.rets, 0);
    let (params, param_end): (Vec<u32>, u32) = offsets(tables, &f.params, ret_size);
    let end: u32 = match &f.body {
        Body::Code(code) => locals(tables, code, param_end),
        Body::Runtime(_) => param_end,
    };
    let size: u64 = (end as u64 + SCRATCH_BYTES as u64 + 15) / 16 * 16;
    FrameSig { ret, ret_size, params, param_end, size: size as u32 }
}

/// Every function's frame. A program whose frames do not fit the offsets of this convention has
/// none.
pub fn frame_sigs(prog: &Program) -> (r: Vec<FrameSig>)
    requires
        forall|i: int|
            0 <= i < prog.funcs.len() ==> (#[trigger] frame_of(prog.tables, prog.funcs[i])).size
                <= u32::MAX,
    ensures
        r.len() == prog.funcs.len(),
        forall|i: int|
            0 <= i < r.len() ==> is_frame(#[trigger] r[i], frame_of(prog.tables, prog.funcs[i])),
{
    let mut out: Vec<FrameSig> = Vec::new();
    let mut i: usize = 0;
    while i < prog.funcs.len()
        invariant
            i <= prog.funcs.len(),
            out.len() == i,
            forall|k: int|
                0 <= k < prog.funcs.len() ==> (#[trigger] frame_of(
                    prog.tables,
                    prog.funcs[k],
                )).size <= u32::MAX,
            forall|k: int|
                0 <= k < i ==> is_frame(#[trigger] out[k], frame_of(prog.tables, prog.funcs[k])),
        decreases prog.funcs.len() - i,
    {
        assert(frame_of(prog.tables, prog.funcs[i as int]).size <= u32::MAX);
        out.push(frame_sig(&prog.tables, &prog.funcs[i]));
        i = i + 1;
    }
    out
}

/// Whether a function's frame, and all the values of its body behind its parameters, are within what
/// an offset can reach.
pub open spec fn fits(tables: Tables, f: Func) -> bool {
    &&& frame_of(tables, f).size <= u32::MAX
    &&& f.body matches Body::Code(code) ==> frame_of(tables, f).param_end + slots_bytes(
        tables,
        code.types@,
        code.types.len() as int,
    ) <= u32::MAX
}

/// Whether every function's frame and values are.
pub open spec fn all_fit(prog: Program) -> bool {
    forall|i: int| 0 <= i < prog.funcs.len() ==> fits(prog.tables, #[trigger] prog.funcs[i])
}

fn total(tables: &Tables, types: &Vec<Type>) -> (r: u128)
    ensures
        r == slots_bytes(*tables, types@, types.len() as int),
        r <= 0x1_0000_0000_0000_0000_0000_0000,
{
    let mut at: u128 = 0;
    let mut i: usize = 0;
    while i < types.len()
        invariant
            i <= types.len(),
            at == slots_bytes(*tables, types@, i as int),
            at <= i * 0x1_0000_0000,
        decreases types.len() - i,
    {
        at = at + slot_of_width(type_width(tables, types[i])) as u128;
        i = i + 1;
    }
    at
}

fn total_locals(tables: &Tables, code: &Code) -> (r: u128)
    ensures
        r == locals_bytes(*tables, *code, code.types.len() as int),
        r <= 0x1_0000_0000_0000_0000_0000_0000,
{
    let entry: Vec<usize> = code.params_of(0);
    let mut at: u128 = 0;
    let mut i: usize = 0;
    while i < code.types.len()
        invariant
            i <= code.types.len(),
            entry@ == code.params(0),
            at == locals_bytes(*tables, *code, i as int),
            at <= i * 0x1_0000_0000,
        decreases code.types.len() - i,
    {
        if !holds(&entry, i) {
            at = at + slot_of_width(type_width(tables, code.types[i])) as u128;
        }
        i = i + 1;
    }
    at
}

fn frame_fits(tables: &Tables, f: &Func) -> (r: bool)
    ensures
        r == fits(*tables, *f),
{
    let most: u128 = 0xffff_ffff;
    let end: u128 = total(tables, &f.rets) + total(tables, &f.params);
    match &f.body {
        Body::Code(code) => {
            let own: u128 = end + total_locals(tables, code) + SCRATCH_BYTES as u128 + 15;
            own / 16 * 16 <= most && end + total(tables, &code.types) <= most
        },
        Body::Runtime(_) => (end + SCRATCH_BYTES as u128 + 15) / 16 * 16 <= most,
    }
}

/// Whether the frames of a program, and the values of its functions, are within what an offset can
/// reach.
pub fn frames_fit(prog: &Program) -> (r: bool)
    ensures
        r == all_fit(*prog),
{
    let mut i: usize = 0;
    while i < prog.funcs.len()
        invariant
            i <= prog.funcs.len(),
            forall|k: int| 0 <= k < i ==> fits(prog.tables, #[trigger] prog.funcs[k]),
        decreases prog.funcs.len() - i,
    {
        if !frame_fits(&prog.tables, &prog.funcs[i]) {
            return false;
        }
        i = i + 1;
    }
    true
}

} // verus!
