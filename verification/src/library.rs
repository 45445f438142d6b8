//! Stencils, holes, and the library that maps a configuration to a stencil.
//!
//! A stencil is the bytes of one function whose literals, branch targets and
//! frame offsets are missing. Each of those is a hole, and a hole knows every
//! place in the bytes it is filled in at.
use vstd::prelude::*;
use vstd::string::*;

use crate::text::begins;
use crate::text::dotted;
use crate::text::head;
use crate::text::join2;
use crate::text::join3;
use crate::text::join4;
use crate::text::position;
use crate::text::position_of;
use crate::text::same;
use crate::text::split_dot;
use crate::text::strip_prefix;
use crate::text::tail;
use crate::text::texts;

verus! {

/// What a hole is filled with.
#[derive(Clone, Copy, PartialEq, Eq, Structural, Debug)]
pub enum HoleKind {
    /// A literal of at most 32 bits.
    Imm32,
    /// A 64-bit datum, in the constant pool where it does not fit 32 bits.
    Imm64,
    /// The target of a branch.
    Branch,
}

/// What a relocation of the stencil builder's object was.
#[derive(Clone, Copy, PartialEq, Eq, Structural, Debug)]
pub enum SiteKind {
    Adrp,
    AddLo12,
    GotAdrp,
    GotLdr,
    Branch26,
    Cond19,
    LeaPc32,
    GotPc32,
    Rel32,
    CondRel32,
}

/// One relocation of the stencil builder's object.
#[derive(Clone, Copy, PartialEq, Eq, Structural, Debug)]
pub struct Site {
    pub off: u32,
    pub kind: SiteKind,
}

/// One hole and every place it is filled in at, as offsets into the code.
#[derive(Clone, PartialEq, Eq, Debug)]
pub struct Hole {
    pub name: String,
    pub kind: HoleKind,
    /// The stencil builder's own notes. They do not travel.
    pub sites: Vec<Site>,
    /// The two instructions that form a literal or the address of a datum.
    pub pairs: Vec<(u32, u32)>,
    /// Unconditional branches.
    pub branches: Vec<u32>,
    /// Conditional branches.
    pub conds: Vec<u32>,
    /// Twelve-bit immediate fields, each with the scale of its unit.
    pub lo12: Vec<(u32, u32)>,
}

/// A reference of a stencil to its own spilled constants.
#[derive(Clone, Copy, PartialEq, Eq, Structural, Debug)]
pub struct ConstRef {
    /// Where in the stencil the four-byte displacement is.
    pub field: u32,
    /// Where the instruction of the displacement ends: it is measured from there.
    pub insn_end: u32,
    /// Where in the constants the datum is.
    pub at: u32,
}

/// One stencil.
#[derive(Clone, PartialEq, Eq, Debug)]
pub struct Stencil {
    pub name: String,
    pub code: Vec<u8>,
    pub holes: Vec<Hole>,
    /// Constants that the stencil reads and no hole can hold.
    pub consts: Vec<u8>,
    /// The alignment that they have to be copied at.
    pub consts_align: u32,
    pub const_refs: Vec<ConstRef>,
    /// The hole whose branch is the last instruction.
    pub tail: Option<usize>,
}

/// The names of a stencil's holes.
pub open spec fn hole_names(holes: Seq<Hole>) -> Seq<Seq<char>> {
    Seq::new(holes.len(), |i: int| holes[i].name@)
}

impl Stencil {
    /// A stencil of nothing.
    pub fn unspilled() -> (r: Stencil)
        ensures
            r.name@.len() == 0,
            r.code@.len() == 0,
            r.holes@.len() == 0,
            r.consts@.len() == 0,
            r.consts_align == 0,
            r.const_refs@.len() == 0,
            r.tail is None,
    {
        Stencil {
            name: String::new(),
            code: Vec::new(),
            holes: Vec::new(),
            consts: Vec::new(),
            consts_align: 0,
            const_refs: Vec::new(),
            tail: None,
        }
    }

    /// The first hole of a name.
    pub fn find(&self, name: &str) -> (r: Option<usize>)
        ensures
            match r {
                Some(i) => i < self.holes.len() && position(hole_names(self.holes@), name@) == Some(
                    i as int,
                ),
                None => position(hole_names(self.holes@), name@) is None,
            },
    {
        let mut i: usize = 0;
        while i < self.holes.len()
            invariant
                i <= self.holes.len(),
                forall|j: int| 0 <= j < i ==> hole_names(self.holes@)[j] != name@,
            decreases self.holes.len() - i,
        {
            if same(self.holes[i].name.as_str(), name) {
                proof {
                    crate::text::lemma_position(hole_names(self.holes@), name@, i as int);
                }
                return Some(i);
            }
            i = i + 1;
        }
        proof {
            crate::text::lemma_position(hole_names(self.holes@), name@, i as int);
        }
        None
    }

    /// The name of the hole on the last instruction.
    pub open spec fn tail_hole(self) -> Option<Seq<char>> {
        match self.tail {
            Some(t) => if t < self.holes.len() {
                Some(self.holes[t as int].name@)
            } else {
                None
            },
            None => None,
        }
    }

    /// The name of the hole on the last instruction.
    pub fn tail_name(&self) -> (r: Option<&str>)
        ensures
            match r {
                Some(n) => self.tail_hole() == Some(n@),
                None => self.tail_hole() is None,
            },
    {
        match self.tail {
            Some(t) => if t < self.holes.len() {
                Some(self.holes[t].name.as_str())
            } else {
                None
            },
            None => None,
        }
    }
}

/// The map from a key to the stencil it names. A key is in it once.
#[derive(Clone, PartialEq, Eq, Debug)]
pub struct Index {
    pub keys: Vec<String>,
    pub slots: Vec<u32>,
}

impl Index {
    /// Every key once, each with its slot.
    pub open spec fn wf(self) -> bool {
        &&& self.keys.len() == self.slots.len()
        &&& forall|i: int, j: int|
            0 <= i < j < self.keys.len() ==> (#[trigger] self.keys[i])@ != (#[trigger] self.keys[j])@
    }

    /// The slot of a key.
    pub open spec fn lookup(self, key: Seq<char>) -> Option<u32> {
        match position(texts(self.keys@), key) {
            Some(i) => if 0 <= i < self.slots.len() {
                Some(self.slots[i])
            } else {
                None
            },
            None => None,
        }
    }

    /// An index of nothing.
    pub fn new() -> (r: Index)
        ensures
            r.wf(),
            r.keys@.len() == 0,
            forall|k: Seq<char>| (#[trigger] r.lookup(k)) is None,
    {
        Index { keys: Vec::new(), slots: Vec::new() }
    }

    /// The slot of a key.
    pub fn get(&self, key: &str) -> (r: Option<u32>)
        ensures
            r == self.lookup(key@),
    {
        match position_of(&self.keys, key) {
            Some(i) => if i < self.slots.len() {
                Some(self.slots[i])
            } else {
                None
            },
            None => None,
        }
    }

    /// Whether a key is in the index.
    pub fn contains_key(&self, key: &str) -> (r: bool)
        ensures
            r == (self.lookup(key@) is Some),
    {
        self.get(key).is_some()
    }

    /// Gives a key a slot, in place of the one it had.
    pub fn insert(&mut self, key: String, slot: u32)
        requires
            old(self).wf(),
        ensures
            final(self).wf(),
            final(self).lookup(key@) == Some(slot),
            forall|k: Seq<char>| k != key@ ==> (#[trigger] final(self).lookup(k)) == old(
                self,
            ).lookup(k),
            old(self).lookup(key@) is None ==> final(self).keys@ == old(self).keys@.push(key)
                && final(self).slots@ == old(self).slots@.push(slot),
            old(self).lookup(key@) is Some ==> final(self).keys@ == old(self).keys@,
    {
        let ghost before = *self;
        match position_of(&self.keys, key.as_str()) {
            Some(i) => {
                self.slots.set(i, slot);
                proof {
                    assert forall|k: Seq<char>| k != key@ implies (#[trigger] self.lookup(k))
                        == before.lookup(k) by {
                        lemma_position_at(texts(self.keys@), key@);
                        lemma_position_at(texts(self.keys@), k);
                    }
                }
            },
            None => {
                let ghost old_texts = texts(self.keys@);
                let ghost name = key@;
                self.keys.push(key);
                self.slots.push(slot);
                proof {
                    let now = texts(self.keys@);
                    assert(now.drop_last() =~= old_texts);
                    lemma_position_at(old_texts, name);
                    assert(now.last() == name);
                    assert forall|k: Seq<char>| k != name implies (#[trigger] self.lookup(k))
                        == before.lookup(k) by {
                        lemma_position_at(old_texts, k);
                    }
                    assert forall|i: int, j: int| 0 <= i < j < self.keys.len() implies (
                    #[trigger] self.keys[i])@ != (#[trigger] self.keys[j])@ by {
                        assert(now[i] == self.keys[i]@);
                        assert(now[j] == self.keys[j]@);
                        if j < before.keys.len() {
                            assert(self.keys[i] == before.keys[i]);
                            assert(self.keys[j] == before.keys[j]);
                        } else {
                            assert(old_texts[i] == before.keys[i]@);
                        }
                    }
                }
            },
        }
    }
}

/// A position is an index of what was looked for, and `None` means there is
/// none.
pub proof fn lemma_position_at(v: Seq<Seq<char>>, s: Seq<char>)
    ensures
        match position(v, s) {
            Some(i) => 0 <= i < v.len() && v[i] == s && forall|j: int| 0 <= j < i ==> v[j] != s,
            None => forall|j: int| 0 <= j < v.len() ==> v[j] != s,
        },
    decreases v.len(),
{
    if v.len() > 0 {
        let w = v.drop_last();
        lemma_position_at(w, s);
        match position(w, s) {
            Some(i) => {
                assert forall|j: int| 0 <= j < i implies v[j] != s by {
                    assert(v[j] == w[j]);
                }
            },
            None => {
                assert forall|j: int| 0 <= j < v.len() - 1 implies v[j] != s by {
                    assert(v[j] == w[j]);
                }
            },
        }
    }
}

/// The stencils of one target.
#[derive(Clone, PartialEq, Eq, Debug)]
pub struct Library {
    pub stencils: Vec<Stencil>,
    pub index: Index,
    /// What the library was built from.
    pub config: String,
}

/// The suffixes of a key's folded twins, most specific first.
pub const FOLD_SUFFIXES: [&'static str; 3] = ["+ifold+fold", "+fold", "+ifold"];

/// How many folded twins a key can have.
pub const FOLD_SUFFIXES_LEN: usize = 3;

/// Which of the suffixes is the plain fold.
pub const FOLD_PLAIN: usize = 1;

/// The suffix of folded twin `k`.
pub open spec fn fold_suffix(k: int) -> Seq<char> {
    if k == 0 {
        "+ifold+fold"@
    } else if k == 1 {
        "+fold"@
    } else {
        "+ifold"@
    }
}

impl Library {
    /// The stencil of a key and where it stands.
    pub open spec fn slot(self, key: Seq<char>) -> Option<int> {
        match self.index.lookup(key) {
            Some(i) => if i < self.stencils.len() {
                Some(i as int)
            } else {
                None
            },
            None => None,
        }
    }

    /// Whether the library has a stencil for a key.
    pub open spec fn holds(self, key: Seq<char>) -> bool {
        self.slot(key) is Some
    }

    /// The stencil of a key.
    pub fn get(&self, key: &str) -> (r: Option<&Stencil>)
        ensures
            match r {
                Some(s) => self.holds(key@) && *s == self.stencils[self.slot(key@)->0],
                None => !self.holds(key@),
            },
    {
        match self.index.get(key) {
            Some(i) => if (i as usize) < self.stencils.len() {
                Some(&self.stencils[i as usize])
            } else {
                None
            },
            None => None,
        }
    }

    /// The stencil of a key, and where it stands in the library.
    pub fn at(&self, key: &str) -> (r: Option<(usize, &Stencil)>)
        ensures
            match r {
                Some(p) => self.slot(key@) == Some(p.0 as int) && *p.1 == self.stencils[p.0 as int],
                None => !self.holds(key@),
            },
    {
        match self.index.get(key) {
            Some(i) => if (i as usize) < self.stencils.len() {
                Some((i as usize, &self.stencils[i as usize]))
            } else {
                None
            },
            None => None,
        }
    }

    /// The slot of folded twin `k` of stencil `i`: the stencil whose key is the
    /// name of the first with that twin's suffix.
    pub open spec fn twin(self, i: int, k: int) -> Option<int> {
        if 0 <= i < self.stencils.len() && 0 <= k < 3 {
            self.slot(self.stencils[i].name@ + fold_suffix(k))
        } else {
            None
        }
    }

    /// Folded twin `k` of stencil `i`, where the library has it.
    pub fn fold_twin(&self, i: usize, k: usize) -> (r: Option<&Stencil>)
        ensures
            match r {
                Some(s) => self.twin(i as int, k as int) is Some && *s == self.stencils[self.twin(
                    i as int,
                    k as int,
                )->0],
                None => self.twin(i as int, k as int) is None,
            },
    {
        if i >= self.stencils.len() || k >= 3 {
            return None;
        }
        let suffix: &str = if k == 0 {
            "+ifold+fold"
        } else if k == 1 {
            "+fold"
        } else {
            "+ifold"
        };
        let key: String = join2(self.stencils[i].name.as_str(), suffix);
        self.get(key.as_str())
    }

    /// The hole whose branch is the last instruction of a key's stencil, and
    /// `None` where the plain folded twin of the key disagrees about it. It is
    /// the one arm of a two-way branch that can be dropped.
    pub open spec fn elidable(self, key: Seq<char>) -> Option<Seq<char>> {
        match self.slot(key) {
            Some(i) => match self.slot(key + "+fold"@) {
                Some(j) => if self.stencils[j].tail_hole() == self.stencils[i].tail_hole() {
                    self.stencils[i].tail_hole()
                } else {
                    None
                },
                None => self.stencils[i].tail_hole(),
            },
            None => None,
        }
    }

    /// Whether the droppable arm of a key's stencil is the hole `arm`.
    pub fn elides(&self, key: &str, arm: &str) -> (r: bool)
        ensures
            r == (self.elidable(key@) == Some(arm@)),
    {
        match self.get(key) {
            Some(s) => {
                let folded: String = join2(key, "+fold");
                let mine: bool = match s.tail_name() {
                    Some(n) => same(n, arm),
                    None => false,
                };
                match self.get(folded.as_str()) {
                    Some(f) => {
                        let theirs: bool = match f.tail_name() {
                            Some(n) => same(n, arm),
                            None => false,
                        };
                        mine && theirs
                    },
                    None => mine,
                }
            },
            None => false,
        }
    }
}

/// How many bytes of code the first `n` stencils come to.
pub open spec fn code_bytes(v: Seq<Stencil>, n: int) -> nat
    decreases n,
{
    if n <= 0 {
        0
    } else {
        code_bytes(v, n - 1) + v[n - 1].code@.len()
    }
}

proof fn lemma_code_bytes(v: Seq<Stencil>, i: int, n: int)
    requires
        0 <= i <= n,
    ensures
        code_bytes(v, i) <= code_bytes(v, n),
    decreases n - i,
{
    if i < n {
        lemma_code_bytes(v, i, n - 1);
    }
}

impl Library {
    /// How many bytes of code the stencils come to.
    pub fn bytes(&self) -> (r: usize)
        requires
            code_bytes(self.stencils@, self.stencils.len() as int) <= usize::MAX,
        ensures
            r == code_bytes(self.stencils@, self.stencils.len() as int),
    {
        let mut n: usize = 0;
        let mut i: usize = 0;
        while i < self.stencils.len()
            invariant
                i <= self.stencils.len(),
                n == code_bytes(self.stencils@, i as int),
                code_bytes(self.stencils@, self.stencils.len() as int) <= usize::MAX,
            decreases self.stencils.len() - i,
        {
            proof {
                lemma_code_bytes(self.stencils@, i as int + 1, self.stencils.len() as int);
            }
            n = n + self.stencils[i].code.len();
            i = i + 1;
        }
        n
    }
}

impl Default for Library {
    fn default() -> (r: Library)
        ensures
            r.stencils@.len() == 0,
            r.index.wf(),
            r.index.keys@.len() == 0,
            r.config@.len() == 0,
    {
        Library { stencils: Vec::new(), index: Index::new(), config: String::new() }
    }
}

/// Whether a character is a decimal digit.
pub open spec fn digit_char(c: char) -> bool {
    0x30 <= c as u32 <= 0x39
}

/// Whether a character can stand in an identifier.
pub open spec fn identifier_char(c: char) -> bool {
    digit_char(c) || 0x41 <= c as u32 <= 0x5a || 0x61 <= c as u32 <= 0x7a || c as u32 == 0x5f
}

/// Whether a name is one that the source could have declared.
pub open spec fn identifier(name: Seq<char>) -> bool {
    name.len() > 0 && !digit_char(name[0]) && forall|i: int|
        0 <= i < name.len() ==> identifier_char(#[trigger] name[i])
}

/// Whether a name is one that the source could have declared: letters, digits and underscores, not
/// starting with a digit.
pub fn is_c_identifier(name: &str) -> (r: bool)
    ensures
        r == identifier(name@),
{
    let n: usize = name.unicode_len();
    if n == 0 || digit_at(name, 0) {
        return false;
    }
    let mut i: usize = 0;
    while i < n
        invariant
            n == name@.len(),
            i <= n,
            forall|j: int| 0 <= j < i ==> identifier_char(#[trigger] name@[j]),
        decreases n - i,
    {
        let c: u32 = name.get_char(i) as u32;
        if !(0x30 <= c && c <= 0x39 || 0x41 <= c && c <= 0x5a || 0x61 <= c && c <= 0x7a || c
            == 0x5f) {
            assert(!identifier_char(name@[i as int]));
            return false;
        }
        i = i + 1;
    }
    true
}

fn digit_at(name: &str, i: usize) -> (r: bool)
    requires
        i < name@.len(),
    ensures
        r == digit_char(name@[i as int]),
{
    let c: u32 = name.get_char(i) as u32;
    0x30 <= c && c <= 0x39
}

/// What a piece of a function is called, by the part of its name behind the function's.
pub open spec fn family(seg: Seq<char>) -> Option<Seq<char>> {
    if seg == "cold"@ {
        Some("a hot/cold split of it"@)
    } else if seg == "unlikely"@ {
        Some("a cold-section split of it"@)
    } else if seg == "part"@ {
        Some("a partial inline of it"@)
    } else if seg == "isra"@ {
        Some("an argument-shape clone of it"@)
    } else if seg == "constprop"@ {
        Some("a constant-propagation clone of it"@)
    } else if seg == "specialized"@ {
        Some("a specialisation of it"@)
    } else if seg == "resume"@ || seg == "destroy"@ || seg == "cleanup"@ {
        Some("a coroutine funclet of it"@)
    } else if seg == "llvm"@ {
        Some("an internalising rename of it"@)
    } else if seg == "lto_priv"@ {
        Some("an LTO privatisation of it"@)
    } else {
        None
    }
}

fn family_of(seg: &str) -> (r: Option<&'static str>)
    ensures
        match r {
            Some(w) => family(seg@) == Some(w@),
            None => family(seg@) is None,
        },
{
    if same(seg, "cold") {
        Some("a hot/cold split of it")
    } else if same(seg, "unlikely") {
        Some("a cold-section split of it")
    } else if same(seg, "part") {
        Some("a partial inline of it")
    } else if same(seg, "isra") {
        Some("an argument-shape clone of it")
    } else if same(seg, "constprop") {
        Some("a constant-propagation clone of it")
    } else if same(seg, "specialized") {
        Some("a specialisation of it")
    } else if same(seg, "resume") || same(seg, "destroy") || same(seg, "cleanup") {
        Some("a coroutine funclet of it")
    } else if same(seg, "llvm") {
        Some("an internalising rename of it")
    } else if same(seg, "lto_priv") {
        Some("an LTO privatisation of it")
    } else {
        None
    }
}

/// The family of the first segment of a dotted text that has one.
pub open spec fn first_family(s: Seq<char>) -> Option<Seq<char>>
    decreases s.len(),
    when s.len() >= 0
    via first_family_shrinks
{
    if dotted(s) {
        match family(head(s)) {
            Some(w) => Some(w),
            None => first_family(tail(s)),
        }
    } else {
        family(s)
    }
}

#[via_fn]
proof fn first_family_shrinks(s: Seq<char>) {
    if dotted(s) {
        crate::text::lemma_dot(s);
    }
}

/// What a name is, where a compiler invented it. The source's own names are identifiers; the empty
/// name is a section's and a name behind `.L` is a local label's.
pub open spec fn artifact(name: Seq<char>) -> Option<Seq<char>> {
    if name.len() == 0 || begins(name, ".L"@) {
        None
    } else if begins(name, "OUTLINED_FUNCTION_"@) {
        Some("a machine-outliner fragment"@)
    } else if identifier(name) {
        None
    } else {
        let found = if dotted(name) {
            first_family(tail(name))
        } else {
            None
        };
        match found {
            Some(w) => Some(w),
            None => Some("a name the compiler invented"@),
        }
    }
}

fn first_family_of(s: &str) -> (r: Option<&'static str>)
    ensures
        match r {
            Some(w) => first_family(s@) == Some(w@),
            None => first_family(s@) is None,
        },
    decreases s@.len(),
{
    match split_dot(s) {
        Some((first, rest)) => {
            proof {
                crate::text::lemma_dot(s@);
            }
            match family_of(first.as_str()) {
                Some(w) => Some(w),
                None => first_family_of(rest.as_str()),
            }
        },
        None => family_of(s),
    }
}

/// What a name is, where a compiler invented it.
pub fn outlining_artifact(name: &str) -> (r: Option<&'static str>)
    ensures
        match r {
            Some(w) => artifact(name@) == Some(w@),
            None => artifact(name@) is None,
        },
{
    if name.is_empty() || strip_prefix(name, ".L").is_some() {
        return None;
    }
    if strip_prefix(name, "OUTLINED_FUNCTION_").is_some() {
        return Some("a machine-outliner fragment");
    }
    if is_c_identifier(name) {
        return None;
    }
    match split_dot(name) {
        Some((_, rest)) => match first_family_of(rest.as_str()) {
            Some(w) => Some(w),
            None => Some("a name the compiler invented"),
        },
        None => Some("a name the compiler invented"),
    }
}

/// The refusal of a hole whose target a compiler invented.
pub fn refuse_hole_name(stencil: &str, hole: &str) -> (r: Option<String>)
    ensures
        match r {
            Some(e) => artifact(hole@) is Some && e@ == stencil@ + ": a stencil reaches "@ + hole@
                + ", which is "@ + artifact(hole@)->0
                + "; every hole must be a symbol the source declared"@,
            None => artifact(hole@) is None,
        },
{
    match outlining_artifact(hole) {
        Some(what) => {
            let head: String = join3(stencil, ": a stencil reaches ", hole);
            Some(
                join4(
                    head.as_str(),
                    ", which is ",
                    what,
                    "; every hole must be a symbol the source declared",
                ),
            )
        },
        None => None,
    }
}

/// The refusal of a stencil that is a piece of one.
pub fn refuse_stencil_name(stencil: &str) -> (r: Option<String>)
    ensures
        match r {
            Some(e) => artifact(stencil@) is Some && e@ == stencil@ + " is not a stencil, it is "@
                + artifact(stencil@)->0 + "; every stencil must be a function the source declared"@,
            None => artifact(stencil@) is None,
        },
{
    match outlining_artifact(stencil) {
        Some(what) => Some(
            join4(
                stencil,
                " is not a stencil, it is ",
                what,
                "; every stencil must be a function the source declared",
            ),
        ),
        None => None,
    }
}

/// A name with a dot in it is refused, unless it is a local label: no source could have declared
/// it.
pub proof fn a_dotted_name_is_refused(name: Seq<char>)
    requires
        dotted(name),
        !begins(name, ".L"@),
    ensures
        artifact(name) is Some,
{
    crate::text::lemma_dot(name);
    assert(!identifier(name)) by {
        let k = crate::text::dot(name) as int;
        assert(!identifier_char(name[k]));
    }
}

} // verus!
