//! Which intrinsic keys the selector has a body for.
use vstd::prelude::*;

use crate::prim::named;
use crate::prim::prim_of_name;
use crate::prim::Prim;
use crate::text::after;
use crate::text::begins;
use crate::text::dotted;
use crate::text::ends;
use crate::text::head;
use crate::text::position;
use crate::text::position_of;
use crate::text::same;
use crate::text::split_dot;
use crate::text::strip_prefix;
use crate::text::strip_suffix;
use crate::text::tail;
use crate::text::texts;
use crate::types::Tables;

verus! {

/// Whether a string is one of a list of strings.
pub open spec fn among(s: Seq<char>, v: Seq<&'static str>) -> bool {
    exists|i: int| 0 <= i < v.len() && (#[trigger] v[i])@ == s
}

/// Whether a string is one of a list of strings.
fn is_among(s: &str, v: &Vec<&'static str>) -> (r: bool)
    ensures
        r == among(s@, v@),
{
    let mut i: usize = 0;
    while i < v.len()
        invariant
            i <= v.len(),
            forall|j: int| 0 <= j < i ==> (#[trigger] v[j])@ != s@,
        decreases v.len() - i,
    {
        if same(s, v[i]) {
            assert(v@[i as int]@ == s@);
            return true;
        }
        i = i + 1;
    }
    false
}

/// The keys that are instructions rather than calls.
pub open spec fn open_coded(key: Seq<char>) -> bool {
    among(
        key,
        seq![
            "list.len",
            "list.empty",
            "str.concat",
            "testing_context.alloc",
            "testing_context.TestAlloc.allocate",
            "host_testing.alloc",
            "host_testing.TestAlloc.allocate",
            "str.len",
            "str.format",
            "str.eq",
            "str.compare",
            "str.show",
            "testing_assert.report",
            "testing_assert.reportShown",
            "testing_assert.failWith",
            "testing_assert.failExpected",
            "testing_assert.failExpectedShown",
        ],
    )
}

/// The keys that are instructions rather than calls.
pub fn open_coded_key(key: &str) -> (r: bool)
    ensures
        r == open_coded(key@),
{
    let v: Vec<&'static str> = vec![
        "list.len",
        "list.empty",
        "str.concat",
        "testing_context.alloc",
        "testing_context.TestAlloc.allocate",
        "host_testing.alloc",
        "host_testing.TestAlloc.allocate",
        "str.len",
        "str.format",
        "str.eq",
        "str.compare",
        "str.show",
        "testing_assert.report",
        "testing_assert.reportShown",
        "testing_assert.failWith",
        "testing_assert.failExpected",
        "testing_assert.failExpectedShown",
    ];
    is_among(key, &v)
}

/// The list operations that are loops.
pub open spec fn list_closure(key: Seq<char>) -> bool {
    among(
        key,
        seq![
            "list.map",
            "list.mapCtx",
            "list.filter",
            "list.filterCtx",
            "list.fold",
            "list.foldCtx",
            "list.any",
            "list.all",
            "list.count",
            "list.find",
            "list.findIndex",
            "list.sortBy",
            "list.foldResult",
            "list.foldResultCtx",
            "list.zip",
            "list.flatten",
        ],
    )
}

/// The list operations that are loops.
pub fn list_closure_key(key: &str) -> (r: bool)
    ensures
        r == list_closure(key@),
{
    let v: Vec<&'static str> = vec![
        "list.map",
        "list.mapCtx",
        "list.filter",
        "list.filterCtx",
        "list.fold",
        "list.foldCtx",
        "list.any",
        "list.all",
        "list.count",
        "list.find",
        "list.findIndex",
        "list.sortBy",
        "list.foldResult",
        "list.foldResultCtx",
        "list.zip",
        "list.flatten",
    ];
    is_among(key, &v)
}

/// Whether a call of a runtime function is emitted into its caller: the runtime
/// has an entry for the key, and the key is not one of the loops, whose step has
/// to be seen.
pub open spec fn inlined(t: Tables, key: Seq<char>) -> bool {
    t.entry(key) && !list_closure(key) && key != "deriveArrayEq"@ && key != "deriveArrayShow"@
}

/// Whether a call of a runtime function is emitted into its caller.
pub fn inline_runtime_key(t: &Tables, key: &str) -> (r: bool)
    ensures
        r == inlined(*t, key@),
{
    t.has_entry(key) && !list_closure_key(key) && !same(key, "deriveArrayEq") && !same(
        key,
        "deriveArrayShow",
    )
}

/// The primitive a conversion is to.
pub open spec fn target_of(op: Seq<char>) -> Option<Prim> {
    if op == "toChar"@ {
        Some(Prim::Char)
    } else if begins(op, "wrapTo"@) && named(after(op, "wrapTo"@)) is Some {
        named(after(op, "wrapTo"@))
    } else if begins(op, "to"@) {
        named(after(op, "to"@))
    } else {
        None
    }
}

/// The primitive a conversion is to.
pub fn conversion_target(op: &str) -> (r: Option<Prim>)
    ensures
        r == target_of(op@),
{
    if same(op, "toChar") {
        return Some(Prim::Char);
    }
    match strip_prefix(op, "wrapTo") {
        Some(name) => match prim_of_name(name.as_str()) {
            Some(p) => {
                return Some(p);
            },
            None => {},
        },
        None => {},
    }
    match strip_prefix(op, "to") {
        Some(name) => prim_of_name(name.as_str()),
        None => None,
    }
}

/// The operations of a number that need no operand of their own name.
pub open spec fn plain_numeric(op: Seq<char>) -> bool {
    among(
        op,
        seq![
            "add",
            "sub",
            "mul",
            "div",
            "rem",
            "neg",
            "min",
            "max",
            "eq",
            "compare",
            "show",
            "minValue",
            "maxValue",
            "toF64",
            "toChar",
            "hash",
            "abs",
            "signum",
        ],
    )
}

/// Whether an operation is `prefix` before one of the four arithmetic names.
pub open spec fn arithmetic(op: Seq<char>, prefix: Seq<char>) -> bool {
    begins(op, prefix) && among(after(op, prefix), seq!["Add", "Sub", "Mul", "Div"])
}

fn is_arithmetic(op: &str, prefix: &str) -> (r: bool)
    ensures
        r == arithmetic(op@, prefix@),
{
    match strip_prefix(op, prefix) {
        Some(k) => {
            let v: Vec<&'static str> = vec!["Add", "Sub", "Mul", "Div"];
            is_among(k.as_str(), &v)
        },
        None => false,
    }
}

/// Whether a key is `num.<T>.<op>` for an operation a number has, or one of the
/// two bounds still without its type.
pub open spec fn numeric(key: Seq<char>) -> bool {
    if key == "num.minValue"@ || key == "num.maxValue"@ {
        true
    } else if !dotted(key) || head(key) != "num"@ {
        false
    } else {
        let rest = tail(key);
        if !dotted(rest) || dotted(tail(rest)) || named(head(rest)) is None {
            false
        } else {
            let op = tail(rest);
            plain_numeric(op) || target_of(op) is Some || arithmetic(op, "checked"@) || arithmetic(
                op,
                "saturating"@,
            ) || arithmetic(op, "wrapping"@)
        }
    }
}

/// Whether a key is `num.<T>.<op>` for an operation a number has.
pub fn numeric_key(key: &str) -> (r: bool)
    ensures
        r == numeric(key@),
{
    if same(key, "num.minValue") || same(key, "num.maxValue") {
        return true;
    }
    match split_dot(key) {
        Some((module, rest)) => {
            if !same(module.as_str(), "num") {
                return false;
            }
            match split_dot(rest.as_str()) {
                Some((t, op)) => {
                    if split_dot(op.as_str()).is_some() || prim_of_name(t.as_str()).is_none() {
                        return false;
                    }
                    let v: Vec<&'static str> = vec![
                        "add",
                        "sub",
                        "mul",
                        "div",
                        "rem",
                        "neg",
                        "min",
                        "max",
                        "eq",
                        "compare",
                        "show",
                        "minValue",
                        "maxValue",
                        "toF64",
                        "toChar",
                        "hash",
                        "abs",
                        "signum",
                    ];
                    is_among(op.as_str(), &v) || conversion_target(op.as_str()).is_some()
                        || is_arithmetic(op.as_str(), "checked") || is_arithmetic(
                        op.as_str(),
                        "saturating",
                    ) || is_arithmetic(op.as_str(), "wrapping")
                },
                None => false,
            }
        },
        None => false,
    }
}

/// Whether a key is `prefix` before the name of a primitive.
pub open spec fn derived(key: Seq<char>, prefix: Seq<char>) -> bool {
    begins(key, prefix) && named(after(key, prefix)) is Some
}

fn is_derived(key: &str, prefix: &str) -> (r: bool)
    ensures
        r == derived(key@, prefix@),
{
    match strip_prefix(key, prefix) {
        Some(t) => prim_of_name(t.as_str()).is_some(),
        None => false,
    }
}

/// Whether the selector has a body for an intrinsic key.
pub open spec fn has_body(t: Tables, key: Seq<char>) -> bool {
    t.entry(key) || open_coded(key) || list_closure(key) || position(texts(t.bits@), key) is Some
        || position(texts(t.traits@), key) is Some || derived(key, "derivePrimShow."@) || derived(
        key,
        "derivePrimHash."@,
    ) || derived(key, "derivePrimJson."@) || numeric(key)
}

/// Whether the selector has a body for an intrinsic key, asked ahead of
/// emission.
pub fn implemented(t: &Tables, key: &str) -> (r: bool)
    ensures
        r == has_body(*t, key@),
{
    t.has_entry(key) || open_coded_key(key) || list_closure_key(key) || position_of(
        &t.bits,
        key,
    ).is_some() || position_of(&t.traits, key).is_some() || is_derived(key, "derivePrimShow.")
        || is_derived(key, "derivePrimHash.") || is_derived(key, "derivePrimJson.") || numeric_key(
        key,
    )
}

/// A call that is emitted into its caller is of a key with a body.
pub proof fn what_is_inlined_has_a_body(t: Tables, key: Seq<char>)
    ensures
        inlined(t, key) ==> has_body(t, key),
{
}

/// `s` without the digits at its end.
pub open spec fn without_digits(s: Seq<char>) -> Seq<char>
    decreases s.len(),
{
    if s.len() > 0 && '0' <= s.last() && s.last() <= '9' {
        without_digits(s.drop_last())
    } else {
        s
    }
}

/// `s` without the letters `U` at its end.
pub open spec fn without_us(s: Seq<char>) -> Seq<char>
    decreases s.len(),
{
    if s.len() > 0 && s.last() == 'U' {
        without_us(s.drop_last())
    } else {
        s
    }
}

/// A bit operation without the type at its end.
pub open spec fn stem(op: Seq<char>) -> Seq<char> {
    without_us(without_digits(op))
}

/// A bit operation without the type at its end.
pub fn stem_of(op: &str) -> (r: String)
    ensures
        r@ == stem(op@),
{
    let mut n: usize = vstd::string::StrSliceExecFns::unicode_len(op);
    proof {
        assert(op@.subrange(0, n as int) =~= op@);
    }
    while n > 0 && is_digit(op, n)
        invariant
            n <= op@.len(),
            without_digits(op@) == without_digits(op@.subrange(0, n as int)),
        decreases n,
    {
        proof {
            let s = op@.subrange(0, n as int);
            assert(s.drop_last() =~= op@.subrange(0, n - 1));
        }
        n = n - 1;
    }
    let ghost cut = op@.subrange(0, n as int);
    assert(without_digits(op@) == cut);
    while n > 0 && is_u(op, n)
        invariant
            n <= op@.len(),
            without_us(cut) == without_us(op@.subrange(0, n as int)),
        decreases n,
    {
        proof {
            let s = op@.subrange(0, n as int);
            assert(s.drop_last() =~= op@.subrange(0, n - 1));
        }
        n = n - 1;
    }
    crate::text::own(vstd::string::StrSliceExecFns::substring_char(op, 0, n))
}

fn is_digit(op: &str, n: usize) -> (r: bool)
    requires
        0 < n <= op@.len(),
    ensures
        r == ('0' <= op@.subrange(0, n as int).last() && op@.subrange(0, n as int).last() <= '9'),
{
    let c: char = vstd::string::StrSliceExecFns::get_char(op, n - 1);
    '0' <= c && c <= '9'
}

fn is_u(op: &str, n: usize) -> (r: bool)
    requires
        0 < n <= op@.len(),
    ensures
        r == (op@.subrange(0, n as int).last() == 'U'),
{
    vstd::string::StrSliceExecFns::get_char(op, n - 1) == 'U'
}

/// The width of a bit operation's operand, from the type at its end. A bare
/// name is a 64-bit one.
pub open spec fn bits_width(op: Seq<char>) -> u32 {
    if ends(op, "U8"@) {
        8
    } else if ends(op, "U32"@) {
        32
    } else {
        64
    }
}

/// The width of a bit operation's operand, from the type at its end.
pub fn bits_width_of(op: &str) -> (r: u32)
    ensures
        r == bits_width(op@),
{
    if strip_suffix(op, "U8").is_some() {
        8
    } else if strip_suffix(op, "U32").is_some() {
        32
    } else {
        64
    }
}

} // verus!
