//! What the selector knows of a source type: its shape, its layout, and what
//! it holds.
//!
//! A type is an index into a table. The table is filled once for a program, by
//! whoever laid the types out; nothing here computes a layout.
use vstd::prelude::*;

use crate::prim::Prim;
use crate::text::position;
use crate::text::position_of;
use crate::text::texts;

verus! {

/// How an enum says which variant it holds. A tag is given by its width in
/// bytes.
#[derive(Clone, Copy, PartialEq, Eq, Structural, Debug)]
pub enum EnumRepr {
    /// A tag and nothing else.
    Bare { tag: u32 },
    /// A tag, and each variant's payload after it.
    Tagged { tag: u32 },
    /// No tag: the pointer at `null_at` is null for the empty variant.
    Niche { null_at: u32 },
}

/// How a value of a type is represented.
#[derive(Clone, PartialEq, Eq, Debug)]
pub enum Repr {
    Zero,
    Scalar,
    Str,
    List,
    Closure,
    Aggregate,
    /// An enum, with the offset of every payload field of every variant.
    Enum { repr: EnumRepr, variants: Vec<Vec<u32>> },
}

/// Where a value of a type keeps its parts.
#[derive(Clone, PartialEq, Eq, Debug)]
pub struct Layout {
    pub size: u32,
    /// The distance between two elements of a list.
    pub stride: u32,
    /// The offset of every field of a struct.
    pub fields: Vec<u32>,
    pub repr: Repr,
}

/// One field of a struct or of a variant.
#[derive(Clone, Copy, PartialEq, Eq, Structural, Debug)]
pub struct FieldTy {
    pub ty: usize,
    /// Whether the layout put the field behind a pointer.
    pub boxed: bool,
}

/// The form of a type.
#[derive(Clone, PartialEq, Eq, Debug)]
pub enum Shape {
    /// A list of one element type.
    Array(usize),
    /// A function type.
    Fn { params: Vec<usize>, ret: usize },
    /// A named type applied to arguments.
    Con { args: Vec<usize> },
    Other,
}

/// The arm of a JSON value a primitive encodes to.
#[derive(Clone, Copy, PartialEq, Eq, Structural, Debug)]
pub enum JsonArm {
    Bool,
    Num,
    Str,
}

/// Which variant of an enum is which JSON arm, where the enum has that arm.
#[derive(Clone, Copy, PartialEq, Eq, Structural, Debug)]
pub struct JsonArms {
    pub truth: Option<usize>,
    pub number: Option<usize>,
    pub text: Option<usize>,
}

/// One type.
#[derive(Clone, PartialEq, Eq, Debug)]
pub struct TypeInfo {
    pub name: String,
    pub shape: Shape,
    /// The primitive the type is, where it is one.
    pub prim: Option<Prim>,
    pub layout: Layout,
    pub fields: Vec<FieldTy>,
    pub variants: Vec<Vec<FieldTy>>,
    pub json: JsonArms,
}

/// Every type of a program, and the facts about keys and primitives that other
/// parts of a compiler decide.
#[derive(Clone, PartialEq, Eq, Debug)]
pub struct Tables {
    pub types: Vec<TypeInfo>,
    /// What an index past the table stands for.
    pub blank: TypeInfo,
    /// The conversions that lose nothing.
    pub exact: Vec<(Prim, Prim)>,
    /// The intrinsic keys the runtime has an entry for.
    pub runtime: Vec<String>,
    /// The intrinsic keys that are bit operations.
    pub bits: Vec<String>,
    /// The intrinsic keys that are trait leaves at a primitive.
    pub traits: Vec<String>,
}

/// The arm of a JSON value a primitive encodes to.
pub open spec fn arm_of(p: Prim) -> JsonArm {
    match p {
        Prim::Bool => JsonArm::Bool,
        Prim::Char => JsonArm::Str,
        Prim::Str => JsonArm::Str,
        Prim::Template => JsonArm::Str,
        _ => JsonArm::Num,
    }
}

/// The arm of a JSON value a primitive encodes to.
pub fn json_arm(p: Prim) -> (r: JsonArm)
    ensures
        r == arm_of(p),
{
    match p {
        Prim::Bool => JsonArm::Bool,
        Prim::Char => JsonArm::Str,
        Prim::Str => JsonArm::Str,
        Prim::Template => JsonArm::Str,
        _ => JsonArm::Num,
    }
}

impl JsonArms {
    /// The variant that is `arm`.
    pub open spec fn at(self, arm: JsonArm) -> Option<usize> {
        match arm {
            JsonArm::Bool => self.truth,
            JsonArm::Num => self.number,
            JsonArm::Str => self.text,
        }
    }

    /// The variant that is `arm`.
    pub fn variant(&self, arm: JsonArm) -> (r: Option<usize>)
        ensures
            r == self.at(arm),
    {
        match arm {
            JsonArm::Bool => self.truth,
            JsonArm::Num => self.number,
            JsonArm::Str => self.text,
        }
    }
}

/// Entry `i` of a table, or `d` where the table has none.
pub open spec fn at_or<T>(t: Seq<T>, i: int, d: T) -> T {
    if 0 <= i < t.len() {
        t[i]
    } else {
        d
    }
}

/// Entry `i` of a table, or `d` where the table has none.
pub fn ent<T: Copy>(t: &Vec<T>, i: usize, d: T) -> (r: T)
    ensures
        r == at_or(t@, i as int, d),
{
    if i < t.len() {
        t[i]
    } else {
        d
    }
}

/// Sets entry `i` of a table, where the table has one.
pub fn put<T>(t: &mut Vec<T>, i: usize, x: T)
    ensures
        final(t)@ == if i < old(t).len() {
            old(t)@.update(i as int, x)
        } else {
            old(t)@
        },
{
    if i < t.len() {
        t.set(i, x);
    }
}

/// The larger of two widths.
pub open spec fn at_least(n: u32, m: u32) -> u32 {
    if n < m {
        m
    } else {
        n
    }
}

/// The larger of two widths.
pub fn max_of(n: u32, m: u32) -> (r: u32)
    ensures
        r == at_least(n, m),
{
    if n < m {
        m
    } else {
        n
    }
}

impl Layout {
    /// The first variant without a payload, or 1 where every variant has one.
    pub open spec fn empty_variant(self) -> int {
        match self.repr {
            Repr::Enum { repr, variants } => first_empty(variants@, 0),
            _ => 1,
        }
    }

    /// The first variant without a payload, or 1 where every variant has one.
    pub fn null_variant(&self) -> (r: usize)
        ensures
            r == self.empty_variant(),
    {
        match &self.repr {
            Repr::Enum { repr, variants } => {
                let mut i: usize = 0;
                while i < variants.len()
                    invariant
                        i <= variants.len(),
                        self.empty_variant() == first_empty(variants@, i as int),
                    decreases variants.len() - i,
                {
                    if variants[i].len() == 0 {
                        return i;
                    }
                    i = i + 1;
                }
                1
            },
            _ => 1,
        }
    }

    /// The offset of payload field `k` of variant `v`.
    pub open spec fn payload(self, v: int, k: int) -> Option<u32> {
        match self.repr {
            Repr::Enum { repr, variants } => if 0 <= v < variants.len() && 0 <= k
                < variants[v].len() {
                Some(variants[v][k])
            } else {
                None
            },
            _ => None,
        }
    }

    /// The offset of payload field `k` of variant `v`.
    pub fn payload_field(&self, v: usize, k: usize) -> (r: Option<u32>)
        ensures
            r == self.payload(v as int, k as int),
    {
        match &self.repr {
            Repr::Enum { repr, variants } => {
                if v < variants.len() && k < variants[v].len() {
                    Some(variants[v][k])
                } else {
                    None
                }
            },
            _ => None,
        }
    }

    /// How many payload fields variant `v` has.
    pub open spec fn arity(self, v: int) -> nat {
        match self.repr {
            Repr::Enum { repr, variants } => if 0 <= v < variants.len() {
                variants[v].len() as nat
            } else {
                0
            },
            _ => 0,
        }
    }

    /// How many payload fields variant `v` has.
    pub fn arity_of(&self, v: usize) -> (r: usize)
        ensures
            r == self.arity(v as int),
    {
        match &self.repr {
            Repr::Enum { repr, variants } => {
                if v < variants.len() {
                    variants[v].len()
                } else {
                    0
                }
            },
            _ => 0,
        }
    }

    /// How the enum tells its variants apart, where the type is an enum.
    pub open spec fn tagging(self) -> Option<EnumRepr> {
        match self.repr {
            Repr::Enum { repr, variants } => Some(repr),
            _ => None,
        }
    }

    /// How the enum tells its variants apart, where the type is an enum.
    pub fn enum_repr(&self) -> (r: Option<EnumRepr>)
        ensures
            r == self.tagging(),
    {
        match &self.repr {
            Repr::Enum { repr, variants } => Some(*repr),
            _ => None,
        }
    }

    /// How many variants the layout has.
    pub open spec fn width(self) -> nat {
        match self.repr {
            Repr::Enum { repr, variants } => variants.len() as nat,
            _ => 0,
        }
    }

    /// How many variants the layout has.
    pub fn variant_count(&self) -> (r: usize)
        ensures
            r == self.width(),
    {
        match &self.repr {
            Repr::Enum { repr, variants } => variants.len(),
            _ => 0,
        }
    }

    /// The width of the tag, where the enum has one.
    pub open spec fn tag(self) -> Option<u32> {
        match self.tagging() {
            Some(EnumRepr::Bare { tag }) => Some(tag),
            Some(EnumRepr::Tagged { tag }) => Some(tag),
            _ => None,
        }
    }

    /// The width of the tag, where the enum has one.
    pub fn tag_width(&self) -> (r: Option<u32>)
        ensures
            r == self.tag(),
    {
        match self.enum_repr() {
            Some(EnumRepr::Bare { tag }) => Some(tag),
            Some(EnumRepr::Tagged { tag }) => Some(tag),
            _ => None,
        }
    }

    /// The offset of variant `v`'s first payload field. A niche has no payload
    /// area, so there the payload is the whole value.
    pub open spec fn first_payload(self, v: int) -> u32 {
        match self.tagging() {
            Some(EnumRepr::Niche { null_at }) => 0,
            _ => match self.payload(v, 0) {
                Some(o) => o,
                None => 0,
            },
        }
    }
}

/// The first empty entry of `v` from `i` on, or 1 where there is none.
pub open spec fn first_empty(v: Seq<Vec<u32>>, i: int) -> int
    decreases v.len() - i,
{
    if i >= v.len() {
        1
    } else if v[i].len() == 0 {
        i
    } else {
        first_empty(v, i + 1)
    }
}

/// The offset of variant `v`'s first payload field. A niche has no payload
/// area, so there the payload is the whole value.
pub fn payload_at(l: &Layout, v: usize) -> (r: u32)
    ensures
        r == l.first_payload(v as int),
{
    match l.enum_repr() {
        Some(EnumRepr::Niche { null_at }) => 0,
        _ => match l.payload_field(v, 0) {
            Some(o) => o,
            None => 0,
        },
    }
}

/// The field of an index past a type's own.
pub open spec fn no_field() -> FieldTy {
    FieldTy { ty: 0, boxed: false }
}

impl TypeInfo {
    /// Whether field `i` is behind a pointer.
    pub open spec fn field_boxed(self, i: int) -> bool {
        at_or(self.fields@, i, no_field()).boxed
    }

    /// Whether field `i` is behind a pointer.
    pub fn boxes_field(&self, i: usize) -> (r: bool)
        ensures
            r == self.field_boxed(i as int),
    {
        ent(&self.fields, i, FieldTy { ty: 0, boxed: false }).boxed
    }

    /// The fields of variant `v`.
    pub open spec fn variant(self, v: int) -> Seq<FieldTy> {
        if 0 <= v < self.variants.len() {
            self.variants[v]@
        } else {
            Seq::empty()
        }
    }

    /// Whether payload field `i` of variant `v` is behind a pointer.
    pub open spec fn payload_boxed(self, v: int, i: int) -> bool {
        at_or(self.variant(v), i, no_field()).boxed
    }

    /// Whether payload field `i` of variant `v` is behind a pointer.
    pub fn boxes_payload(&self, v: usize, i: usize) -> (r: bool)
        ensures
            r == self.payload_boxed(v as int, i as int),
    {
        if v < self.variants.len() {
            ent(&self.variants[v], i, FieldTy { ty: 0, boxed: false }).boxed
        } else {
            false
        }
    }

    /// The element type, where the type is a list.
    pub open spec fn element(self) -> Option<usize> {
        match self.shape {
            Shape::Array(e) => Some(e),
            _ => None,
        }
    }

    /// The element type, where the type is a list.
    pub fn element_of(&self) -> (r: Option<usize>)
        ensures
            r == self.element(),
    {
        match &self.shape {
            Shape::Array(e) => Some(*e),
            _ => None,
        }
    }
}

impl Tables {
    /// The type of an index.
    pub open spec fn at(self, id: int) -> TypeInfo {
        if 0 <= id < self.types.len() {
            self.types[id]
        } else {
            self.blank
        }
    }

    /// The type of an index.
    pub fn info(&self, id: usize) -> (r: &TypeInfo)
        ensures
            *r == self.at(id as int),
    {
        if id < self.types.len() {
            &self.types[id]
        } else {
            &self.blank
        }
    }

    /// Whether a conversion loses nothing.
    pub fn is_exact(&self, from: Prim, to: Prim) -> (r: bool)
        ensures
            r == self.exact@.contains((from, to)),
    {
        let mut i: usize = 0;
        while i < self.exact.len()
            invariant
                i <= self.exact.len(),
                forall|j: int| 0 <= j < i ==> self.exact[j] != (from, to),
            decreases self.exact.len() - i,
        {
            let p: (Prim, Prim) = self.exact[i];
            if p.0 == from && p.1 == to {
                assert(self.exact@[i as int] == (from, to));
                return true;
            }
            i = i + 1;
        }
        false
    }

    /// Whether the runtime has an entry for an intrinsic key.
    pub open spec fn entry(self, key: Seq<char>) -> bool {
        position(texts(self.runtime@), key) is Some
    }

    /// Whether the runtime has an entry for an intrinsic key.
    pub fn has_entry(&self, key: &str) -> (r: bool)
        ensures
            r == self.entry(key@),
    {
        position_of(&self.runtime, key).is_some()
    }

    /// Whether a field of `fs` owns a counted block: it is behind a pointer, or
    /// its type owns one within `n` levels.
    pub open spec fn fields_own(self, fs: Seq<FieldTy>, n: nat) -> bool
        decreases n, 0nat,
    {
        exists|i: int|
            #![trigger fs[i]]
            0 <= i < fs.len() && (fs[i].boxed || (n > 0 && self.owns_within(
                fs[i].ty as int,
                (n - 1) as nat,
            )))
    }

    /// Whether a value of the type owns a counted block no more than `n` levels
    /// of fields down.
    pub open spec fn owns_within(self, ty: int, n: nat) -> bool
        decreases n, 1nat,
    {
        match self.at(ty).layout.repr {
            Repr::Str => true,
            Repr::List => true,
            Repr::Closure => true,
            Repr::Aggregate => self.fields_own(self.at(ty).fields@, n),
            Repr::Enum { repr, variants } => exists|v: int|
                #![trigger self.at(ty).variants[v]]
                0 <= v < self.at(ty).variants.len() && self.fields_own(
                    self.at(ty).variants[v]@,
                    n,
                ),
            _ => false,
        }
    }

    /// Whether a value of the type owns a counted block anywhere inside it.
    pub open spec fn owns(self, ty: int) -> bool {
        exists|n: nat| self.owns_within(ty, n)
    }

    /// What an entry says of the types the table already marks.
    pub open spec fn step(self, known: Seq<bool>, ty: int) -> bool {
        match self.at(ty).layout.repr {
            Repr::Str => true,
            Repr::List => true,
            Repr::Closure => true,
            Repr::Aggregate => self.marks(known, self.at(ty).fields@),
            Repr::Enum { repr, variants } => exists|v: int|
                #![trigger self.at(ty).variants[v]]
                0 <= v < self.at(ty).variants.len() && self.marks(
                    known,
                    self.at(ty).variants[v]@,
                ),
            _ => false,
        }
    }

    /// Whether one of `fs` is behind a pointer or of a marked type.
    pub open spec fn marks(self, known: Seq<bool>, fs: Seq<FieldTy>) -> bool {
        exists|i: int|
            #![trigger fs[i]]
            0 <= i < fs.len() && (fs[i].boxed || at_or(known, fs[i].ty as int, known.last()))
    }
}

impl Tables {
    /// Whether one of `fs` is behind a pointer or of a marked type.
    fn any_marked(&self, known: &Vec<bool>, fs: &Vec<FieldTy>) -> (r: bool)
        requires
            known.len() > 0,
        ensures
            r == self.marks(known@, fs@),
    {
        let mut i: usize = 0;
        while i < fs.len()
            invariant
                i <= fs.len(),
                known.len() > 0,
                forall|j: int|
                    0 <= j < i ==> !(#[trigger] fs[j]).boxed && !at_or(
                        known@,
                        fs[j].ty as int,
                        known@.last(),
                    ),
            decreases fs.len() - i,
        {
            let f: FieldTy = fs[i];
            if f.boxed || ent(known, f.ty, known[known.len() - 1]) {
                assert(fs@[i as int] == f);
                return true;
            }
            i = i + 1;
        }
        false
    }

    /// What an entry says of the types the table already marks.
    fn marked(&self, known: &Vec<bool>, ty: usize) -> (r: bool)
        requires
            known.len() > 0,
        ensures
            r == self.step(known@, ty as int),
    {
        let info: &TypeInfo = self.info(ty);
        match &info.layout.repr {
            Repr::Str => true,
            Repr::List => true,
            Repr::Closure => true,
            Repr::Aggregate => self.any_marked(known, &info.fields),
            Repr::Enum { repr, variants } => {
                let mut v: usize = 0;
                while v < info.variants.len()
                    invariant
                        v <= info.variants.len(),
                        known.len() > 0,
                        *info == self.at(ty as int),
                        self.at(ty as int).layout.repr is Enum,
                        forall|w: int|
                            0 <= w < v ==> !self.marks(
                                known@,
                                (#[trigger] self.at(ty as int).variants[w])@,
                            ),
                    decreases info.variants.len() - v,
                {
                    if self.any_marked(known, &info.variants[v]) {
                        assert(self.marks(known@, self.at(ty as int).variants[v as int]@));
                        return true;
                    }
                    v = v + 1;
                }
                false
            },
            _ => false,
        }
    }

    /// A mark of fields, where every mark is of an owner, is of fields that own.
    proof fn lemma_marks_own(self, known: Seq<bool>, fs: Seq<FieldTy>) -> (n: nat)
        requires
            known.len() == self.types.len() + 1,
            forall|i: int| 0 <= i < known.len() && #[trigger] known[i] ==> self.owns(i),
            self.marks(known, fs),
        ensures
            self.fields_own(fs, n),
    {
        let i = choose|i: int|
            #![trigger fs[i]]
            0 <= i < fs.len() && (fs[i].boxed || at_or(known, fs[i].ty as int, known.last()));
        if fs[i].boxed {
            0
        } else {
            let t = fs[i].ty as int;
            let k = if t < known.len() {
                t
            } else {
                known.len() - 1
            };
            assert(known[k]);
            let m = choose|m: nat| self.owns_within(k, m);
            assert(self.at(t) == self.at(k));
            assert(self.owns_within(t, m));
            m + 1
        }
    }

    /// What a table of owners implies in one step is an owner.
    proof fn lemma_step_owns(self, known: Seq<bool>, ty: int)
        requires
            known.len() == self.types.len() + 1,
            forall|i: int| 0 <= i < known.len() && #[trigger] known[i] ==> self.owns(i),
            self.step(known, ty),
        ensures
            self.owns(ty),
    {
        match self.at(ty).layout.repr {
            Repr::Aggregate => {
                let n = self.lemma_marks_own(known, self.at(ty).fields@);
                assert(self.owns_within(ty, n));
            },
            Repr::Enum { repr, variants } => {
                let v = choose|v: int|
                    #![trigger self.at(ty).variants[v]]
                    0 <= v < self.at(ty).variants.len() && self.marks(
                        known,
                        self.at(ty).variants[v]@,
                    );
                let n = self.lemma_marks_own(known, self.at(ty).variants[v]@);
                assert(self.owns_within(ty, n));
            },
            _ => {
                assert(self.owns_within(ty, 0));
            },
        }
    }

    /// A table that a step adds nothing to marks every owner.
    proof fn lemma_closed_marks(self, known: Seq<bool>, ty: int, n: nat)
        requires
            known.len() == self.types.len() + 1,
            forall|i: int| 0 <= i < known.len() && #[trigger] self.step(known, i) ==> known[i],
            self.owns_within(ty, n),
            0 <= ty,
        ensures
            at_or(known, ty, known.last()),
        decreases n, 1nat,
    {
        let k = if ty < known.len() {
            ty
        } else {
            known.len() - 1
        };
        assert(self.at(ty) == self.at(k));
        match self.at(ty).layout.repr {
            Repr::Aggregate => {
                self.lemma_closed_fields(known, self.at(ty).fields@, n);
            },
            Repr::Enum { repr, variants } => {
                let v = choose|v: int|
                    #![trigger self.at(ty).variants[v]]
                    0 <= v < self.at(ty).variants.len() && self.fields_own(
                        self.at(ty).variants[v]@,
                        n,
                    );
                self.lemma_closed_fields(known, self.at(ty).variants[v]@, n);
                assert(self.marks(known, self.at(k).variants[v]@));
            },
            _ => {},
        }
        assert(self.step(known, k));
    }

    proof fn lemma_closed_fields(self, known: Seq<bool>, fs: Seq<FieldTy>, n: nat)
        requires
            known.len() == self.types.len() + 1,
            forall|i: int| 0 <= i < known.len() && #[trigger] self.step(known, i) ==> known[i],
            self.fields_own(fs, n),
        ensures
            self.marks(known, fs),
        decreases n, 0nat,
    {
        let i = choose|i: int|
            #![trigger fs[i]]
            0 <= i < fs.len() && (fs[i].boxed || (n > 0 && self.owns_within(
                fs[i].ty as int,
                (n - 1) as nat,
            )));
        if !fs[i].boxed {
            self.lemma_closed_marks(known, fs[i].ty as int, (n - 1) as nat);
        }
        assert(fs[i] == fs[i]);
    }

    /// Which types own a counted block anywhere inside a value of theirs, one
    /// entry per type and one more for every index past the table.
    pub fn counted(&self) -> (r: Vec<bool>)
        ensures
            r.len() == self.types.len() + 1,
            forall|i: int| 0 <= i < r.len() ==> (#[trigger] r[i] <==> self.owns(i)),
    {
        let n: usize = self.types.len();
        let mut known: Vec<bool> = Vec::new();
        let mut i: usize = 0;
        while i < n
            invariant
                i <= n,
                known.len() == i,
                forall|j: int| 0 <= j < i ==> !known[j],
            decreases n - i,
        {
            known.push(false);
            i = i + 1;
        }
        known.push(false);
        proof {
            lemma_unmarked_bound(known@);
        }
        let mut changed: bool = true;
        while changed
            invariant
                n == self.types.len(),
                known.len() == n + 1,
                forall|j: int| 0 <= j < known.len() && #[trigger] known[j] ==> self.owns(j),
                !changed ==> forall|j: int|
                    0 <= j < known.len() && #[trigger] self.step(known@, j) ==> known[j],
                unmarked(known@) <= n + 1,
            decreases unmarked(known@) + if changed {
                1int
            } else {
                0
            },
        {
            let ghost before = unmarked(known@);
            let ghost first = known@;
            changed = false;
            let mut k: usize = 0;
            while k <= n
                invariant
                    n == self.types.len(),
                    k <= n + 1,
                    known.len() == n + 1,
                    forall|j: int| 0 <= j < known.len() && #[trigger] known[j] ==> self.owns(j),
                    !changed ==> known@ == first,
                    !changed ==> forall|j: int|
                        0 <= j < k && #[trigger] self.step(known@, j) ==> known[j],
                    changed ==> unmarked(known@) < before,
                    !changed ==> unmarked(known@) == before,
                    unmarked(known@) <= n + 1,
                    before <= n + 1,
                decreases n + 1 - k,
            {
                if !known[k] && self.marked(&known, k) {
                    proof {
                        self.lemma_step_owns(known@, k as int);
                        lemma_unmarked_set(known@, k as int);
                    }
                    known.set(k, true);
                    changed = true;
                }
                k = k + 1;
            }
        }
        assert forall|j: int| 0 <= j < known.len() && self.owns(j) implies #[trigger] known[j] by {
            let m = choose|m: nat| self.owns_within(j, m);
            self.lemma_closed_marks(known@, j, m);
        }
        known
    }
}

/// How many entries are not marked.
pub open spec fn unmarked(known: Seq<bool>) -> nat
    decreases known.len(),
{
    if known.len() == 0 {
        0
    } else {
        unmarked(known.drop_last()) + if known.last() {
            0nat
        } else {
            1
        }
    }
}

pub proof fn lemma_unmarked_set(known: Seq<bool>, i: int)
    requires
        0 <= i < known.len(),
        !known[i],
    ensures
        unmarked(known.update(i, true)) + 1 == unmarked(known),
    decreases known.len(),
{
    let after = known.update(i, true);
    if i == known.len() - 1 {
        assert(after.drop_last() =~= known.drop_last());
    } else {
        lemma_unmarked_set(known.drop_last(), i);
        assert(after.drop_last() =~= known.drop_last().update(i, true));
        assert(after.last() == known.last());
    }
}

proof fn lemma_unmarked_bound(known: Seq<bool>)
    ensures
        unmarked(known) <= known.len(),
    decreases known.len(),
{
    if known.len() > 0 {
        lemma_unmarked_bound(known.drop_last());
    }
}

} // verus!
