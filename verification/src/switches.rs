//! The switches that a developer sets to measure a part of the selector by leaving it out.

use crate::select::Switches;
use crate::text::same;
use vstd::prelude::*;
use vstd::string::*;

verus! {

/// Whether a part of a comma-separated list that starts at `i` is `name`.
pub open spec fn part_at(list: Seq<char>, name: Seq<char>, i: int) -> bool {
    &&& 0 <= i
    &&& i + name.len() <= list.len()
    &&& list.subrange(i, i + name.len()) == name
    &&& i == 0 || list[i - 1] == ','
    &&& i + name.len() == list.len() || list[i + name.len()] == ','
}

/// Whether a name is in a comma-separated list.
pub open spec fn listed(list: Seq<char>, name: Seq<char>) -> bool {
    exists|i: int| part_at(list, name, i)
}

fn lists(list: &str, name: &str) -> (r: bool)
    ensures
        r == listed(list@, name@),
{
    let n: usize = list.unicode_len();
    let m: usize = name.unicode_len();
    if m > n {
        return false;
    }
    let mut i: usize = 0;
    loop
        invariant
            n == list@.len(),
            m == name@.len(),
            m <= n,
            i <= n - m,
            forall|k: int| 0 <= k < i ==> !part_at(list@, name@, k),
        decreases n - m - i,
    {
        let here: bool = same(list.substring_char(i, i + m), name);
        if here && (i == 0 || list.get_char(i - 1) == ',') && (i + m == n || list.get_char(i + m)
            == ',') {
            assert(part_at(list@, name@, i as int));
            return true;
        }
        if i == n - m {
            assert(!listed(list@, name@)) by {
                if listed(list@, name@) {
                    let k = choose|k: int| part_at(list@, name@, k);
                    assert(part_at(list@, name@, k));
                }
            }
            return false;
        }
        i = i + 1;
    }
}

impl Switches {
    /// The switches that a list of names and the wish for no counts set: `listloop` opens no list
    /// loop, `estride` bakes no stride in, `incbr` fuses no back edge, and `envskip` copies an
    /// environment of no width too.
    pub fn of(off: &str, no_free: &str) -> (r: Switches)
        ensures
            r == (Switches {
                no_loops: listed(off@, "listloop"@),
                no_stride: listed(off@, "estride"@),
                no_fused: listed(off@, "incbr"@),
                copy_env: listed(off@, "envskip"@),
                no_counts: no_free@ == "1"@,
            }),
    {
        Switches {
            no_loops: lists(off, "listloop"),
            no_stride: lists(off, "estride"),
            no_fused: lists(off, "incbr"),
            copy_env: lists(off, "envskip"),
            no_counts: same(no_free, "1"),
        }
    }
}

} // verus!
