//! Strings as the rest of the crate reads and builds them.
//!
//! A stencil key, a symbol and a diagnostic are all concatenations of literals
//! and of a few rendered numbers, so what is here is equality, joining,
//! splitting at a dot, and the two number renderings.
use vstd::prelude::*;
use vstd::string::*;
use vstd::utf8::encode_utf8_decode_utf8;

verus! {

/// Whether two strings hold the same characters.
pub fn same(a: &str, b: &str) -> (r: bool)
    ensures
        r == (a@ == b@),
{
    let x: &[u8] = a.as_bytes();
    let y: &[u8] = b.as_bytes();
    proof {
        encode_utf8_decode_utf8(a@);
        encode_utf8_decode_utf8(b@);
    }
    if x.len() != y.len() {
        return false;
    }
    let mut i: usize = 0;
    while i < x.len()
        invariant
            x.len() == y.len(),
            i <= x.len(),
            forall|j: int| 0 <= j < i ==> x@[j] == y@[j],
            x@ == a.spec_bytes(),
            y@ == b.spec_bytes(),
        decreases x.len() - i,
    {
        if x[i] != y[i] {
            assert(x@ != y@);
            return false;
        }
        i = i + 1;
    }
    assert(x@ =~= y@);
    true
}

/// A copy of a borrowed string.
pub fn own(a: &str) -> (r: String)
    ensures
        r@ == a@,
{
    a.to_owned()
}

/// Two strings, end to end.
pub fn join2(a: &str, b: &str) -> (r: String)
    ensures
        r@ == a@ + b@,
{
    let mut s: String = String::from_str(a);
    s.append(b);
    s
}

/// Three strings, end to end.
pub fn join3(a: &str, b: &str, c: &str) -> (r: String)
    ensures
        r@ == a@ + b@ + c@,
{
    let mut s: String = String::from_str(a);
    s.append(b);
    s.append(c);
    s
}

/// Four strings, end to end.
pub fn join4(a: &str, b: &str, c: &str, d: &str) -> (r: String)
    ensures
        r@ == a@ + b@ + c@ + d@,
{
    let mut s: String = join3(a, b, c);
    s.append(d);
    s
}

/// Five strings, end to end.
pub fn join5(a: &str, b: &str, c: &str, d: &str, e: &str) -> (r: String)
    ensures
        r@ == a@ + b@ + c@ + d@ + e@,
{
    let mut s: String = join4(a, b, c, d);
    s.append(e);
    s
}

/// The decimal digit `n`.
pub open spec fn digit(n: int) -> Seq<char> {
    if n == 0 {
        "0"@
    } else if n == 1 {
        "1"@
    } else if n == 2 {
        "2"@
    } else if n == 3 {
        "3"@
    } else if n == 4 {
        "4"@
    } else if n == 5 {
        "5"@
    } else if n == 6 {
        "6"@
    } else if n == 7 {
        "7"@
    } else if n == 8 {
        "8"@
    } else if n == 9 {
        "9"@
    } else if n == 10 {
        "a"@
    } else if n == 11 {
        "b"@
    } else if n == 12 {
        "c"@
    } else if n == 13 {
        "d"@
    } else if n == 14 {
        "e"@
    } else {
        "f"@
    }
}

/// `n` in base `base`, most significant digit first and without a leading zero.
pub open spec fn numeral(n: nat, base: nat) -> Seq<char>
    decreases n,
{
    if base < 2 || n < base {
        digit(n as int)
    } else {
        proof {
            assert(n / base < n) by (nonlinear_arith)
                requires
                    n >= base,
                    base >= 2,
            ;
        }
        numeral(n / base, base) + digit((n % base) as int)
    }
}

/// `n` in decimal.
pub open spec fn decimal(n: nat) -> Seq<char> {
    numeral(n, 10)
}

/// `n` in lower-case hexadecimal behind `0x`.
pub open spec fn hex(n: nat) -> Seq<char> {
    "0x"@ + numeral(n, 16)
}

fn digit_of(n: u128) -> (r: &'static str)
    requires
        n < 16,
    ensures
        r@ == digit(n as int),
{
    if n == 0 {
        "0"
    } else if n == 1 {
        "1"
    } else if n == 2 {
        "2"
    } else if n == 3 {
        "3"
    } else if n == 4 {
        "4"
    } else if n == 5 {
        "5"
    } else if n == 6 {
        "6"
    } else if n == 7 {
        "7"
    } else if n == 8 {
        "8"
    } else if n == 9 {
        "9"
    } else if n == 10 {
        "a"
    } else if n == 11 {
        "b"
    } else if n == 12 {
        "c"
    } else if n == 13 {
        "d"
    } else if n == 14 {
        "e"
    } else {
        "f"
    }
}

fn numeral_of(n: u128, base: u128) -> (r: String)
    requires
        2 <= base <= 16,
    ensures
        r@ == numeral(n as nat, base as nat),
    decreases n,
{
    if n < base {
        own(digit_of(n))
    } else {
        assert(n / base < n) by (nonlinear_arith)
            requires
                n >= base,
                base >= 2,
        ;
        let mut s: String = numeral_of(n / base, base);
        s.append(digit_of(n % base));
        s
    }
}

/// `n` in decimal.
pub fn decimal_of(n: u64) -> (r: String)
    ensures
        r@ == decimal(n as nat),
{
    numeral_of(n as u128, 10)
}

/// `n` in decimal.
pub fn wide_decimal_of(n: u128) -> (r: String)
    ensures
        r@ == decimal(n as nat),
{
    numeral_of(n, 10)
}

/// `n` in lower-case hexadecimal behind `0x`.
pub fn hex_of(n: u64) -> (r: String)
    ensures
        r@ == hex(n as nat),
{
    wide_hex_of(n as u128)
}

/// `n` in lower-case hexadecimal behind `0x`.
pub fn wide_hex_of(n: u128) -> (r: String)
    ensures
        r@ == hex(n as nat),
{
    let digits: String = numeral_of(n, 16);
    join2("0x", digits.as_str())
}

/// All eight hexadecimal digits of `w`, behind `0x`.
pub open spec fn hex_word(w: u32) -> Seq<char> {
    "0x"@ + digit((w / 0x1000_0000 % 16) as int) + digit((w / 0x100_0000 % 16) as int) + digit(
        (w / 0x10_0000 % 16) as int,
    ) + digit((w / 0x1_0000 % 16) as int) + digit((w / 0x1000 % 16) as int) + digit(
        (w / 0x100 % 16) as int,
    ) + digit((w / 0x10 % 16) as int) + digit((w % 16) as int)
}

/// All eight hexadecimal digits of `w`, behind `0x`.
pub fn hex_word_of(w: u32) -> (r: String)
    ensures
        r@ == hex_word(w),
{
    let mut s: String = own("0x");
    s.append(digit_of((w / 0x1000_0000 % 16) as u128));
    s.append(digit_of((w / 0x100_0000 % 16) as u128));
    s.append(digit_of((w / 0x10_0000 % 16) as u128));
    s.append(digit_of((w / 0x1_0000 % 16) as u128));
    s.append(digit_of((w / 0x1000 % 16) as u128));
    s.append(digit_of((w / 0x100 % 16) as u128));
    s.append(digit_of((w / 0x10 % 16) as u128));
    s.append(digit_of((w % 16) as u128));
    s
}

/// Whether `s` begins with `p`.
pub open spec fn begins(s: Seq<char>, p: Seq<char>) -> bool {
    p.len() <= s.len() && s.subrange(0, p.len() as int) == p
}

/// What follows the prefix `p` of `s`.
pub open spec fn after(s: Seq<char>, p: Seq<char>) -> Seq<char> {
    s.subrange(p.len() as int, s.len() as int)
}

/// Whether `s` ends with `p`.
pub open spec fn ends(s: Seq<char>, p: Seq<char>) -> bool {
    p.len() <= s.len() && s.subrange(s.len() - p.len(), s.len() as int) == p
}

/// What precedes the suffix `p` of `s`.
pub open spec fn before(s: Seq<char>, p: Seq<char>) -> Seq<char> {
    s.subrange(0, s.len() - p.len())
}

/// `s` without its prefix `p`, where it has that prefix.
pub fn strip_prefix(s: &str, p: &str) -> (r: Option<String>)
    ensures
        match r {
            Some(t) => begins(s@, p@) && t@ == after(s@, p@),
            None => !begins(s@, p@),
        },
{
    let n: usize = p.unicode_len();
    let m: usize = s.unicode_len();
    if n > m {
        return None;
    }
    let head: &str = s.substring_char(0, n);
    if same(head, p) {
        Some(own(s.substring_char(n, m)))
    } else {
        None
    }
}

/// `s` without its suffix `p`, where it has that suffix.
pub fn strip_suffix(s: &str, p: &str) -> (r: Option<String>)
    ensures
        match r {
            Some(t) => ends(s@, p@) && t@ == before(s@, p@),
            None => !ends(s@, p@),
        },
{
    let n: usize = p.unicode_len();
    let m: usize = s.unicode_len();
    if n > m {
        return None;
    }
    let tail: &str = s.substring_char(m - n, m);
    if same(tail, p) {
        Some(own(s.substring_char(0, m - n)))
    } else {
        None
    }
}

/// Where the first dot of `s` is, or its length where it has none.
pub open spec fn dot(s: Seq<char>) -> nat
    decreases s.len(),
{
    if s.len() == 0 || s[0] == '.' {
        0
    } else {
        1 + dot(s.drop_first())
    }
}

/// The dot is the first one: nothing before it is, and it is one itself.
pub proof fn lemma_dot(s: Seq<char>)
    ensures
        dot(s) <= s.len(),
        forall|i: int| 0 <= i < dot(s) ==> s[i] != '.',
        dot(s) < s.len() ==> s[dot(s) as int] == '.',
    decreases s.len(),
{
    if s.len() > 0 && s[0] != '.' {
        let t = s.drop_first();
        lemma_dot(t);
        assert forall|i: int| 0 <= i < dot(s) implies s[i] != '.' by {
            if i > 0 {
                assert(s[i] == t[i - 1]);
            }
        }
        if dot(s) < s.len() {
            assert(s[dot(s) as int] == t[dot(t) as int]);
        }
    }
}

/// A position with no dot before it and one on it is where the first dot is.
pub proof fn lemma_dot_is(s: Seq<char>, n: int)
    requires
        0 <= n <= s.len(),
        forall|i: int| 0 <= i < n ==> s[i] != '.',
        n < s.len() ==> s[n] == '.',
    ensures
        dot(s) == n,
{
    lemma_dot(s);
    if dot(s) < n {
        assert(s[dot(s) as int] == '.');
    }
}

/// Whether `s` holds a dot.
pub open spec fn dotted(s: Seq<char>) -> bool {
    dot(s) < s.len()
}

/// What precedes the first dot.
pub open spec fn head(s: Seq<char>) -> Seq<char> {
    s.subrange(0, dot(s) as int)
}

/// What follows the first dot.
pub open spec fn tail(s: Seq<char>) -> Seq<char> {
    s.subrange((dot(s) + 1) as int, s.len() as int)
}

/// `s` cut at its first dot, where it has one.
pub fn split_dot(s: &str) -> (r: Option<(String, String)>)
    ensures
        match r {
            Some(p) => dotted(s@) && p.0@ == head(s@) && p.1@ == tail(s@),
            None => !dotted(s@),
        },
{
    let m: usize = s.unicode_len();
    let mut i: usize = 0;
    while i < m
        invariant
            m == s@.len(),
            i <= m,
            forall|j: int| 0 <= j < i ==> s@[j] != '.',
        decreases m - i,
    {
        if s.get_char(i) == '.' {
            proof {
                lemma_dot_is(s@, i as int);
            }
            let a: String = own(s.substring_char(0, i));
            let b: String = own(s.substring_char(i + 1, m));
            return Some((a, b));
        }
        i = i + 1;
    }
    proof {
        lemma_dot_is(s@, m as int);
    }
    None
}

/// The characters of every string of `v`.
pub open spec fn texts(v: Seq<String>) -> Seq<Seq<char>> {
    Seq::new(v.len(), |i: int| v[i]@)
}

/// The first index of `v` that holds `s`.
pub open spec fn position(v: Seq<Seq<char>>, s: Seq<char>) -> Option<int>
    decreases v.len(),
{
    if v.len() == 0 {
        None
    } else {
        match position(v.drop_last(), s) {
            Some(i) => Some(i),
            None => if v.last() == s {
                Some(v.len() - 1)
            } else {
                None
            },
        }
    }
}

/// An index below which `s` is not, and at which it is, is its position.
pub proof fn lemma_position(v: Seq<Seq<char>>, s: Seq<char>, n: int)
    requires
        0 <= n <= v.len(),
        forall|i: int| 0 <= i < n ==> v[i] != s,
        n < v.len() ==> v[n] == s,
    ensures
        n < v.len() ==> position(v, s) == Some(n),
        n == v.len() ==> position(v, s) is None,
    decreases v.len(),
{
    if v.len() > 0 {
        let w = v.drop_last();
        if n < v.len() - 1 {
            lemma_position(w, s, n);
        } else {
            lemma_position(w, s, w.len() as int);
        }
    }
}

/// The first index of `v` that holds `s`.
pub fn position_of(v: &Vec<String>, s: &str) -> (r: Option<usize>)
    ensures
        match r {
            Some(i) => i < v.len() && position(texts(v@), s@) == Some(i as int),
            None => position(texts(v@), s@) is None,
        },
{
    let mut i: usize = 0;
    while i < v.len()
        invariant
            i <= v.len(),
            forall|j: int| 0 <= j < i ==> texts(v@)[j] != s@,
        decreases v.len() - i,
    {
        if same(v[i].as_str(), s) {
            proof {
                lemma_position(texts(v@), s@, i as int);
            }
            return Some(i);
        }
        i = i + 1;
    }
    proof {
        lemma_position(texts(v@), s@, i as int);
    }
    None
}

/// A digit is one character, and two digits are two.
proof fn lemma_digits(m: int, n: int)
    requires
        0 <= m < 16,
        0 <= n < 16,
    ensures
        digit(m).len() == 1,
        digit(n).len() == 1,
        digit(m) == digit(n) ==> m == n,
{
    reveal_strlit("0");
    reveal_strlit("1");
    reveal_strlit("2");
    reveal_strlit("3");
    reveal_strlit("4");
    reveal_strlit("5");
    reveal_strlit("6");
    reveal_strlit("7");
    reveal_strlit("8");
    reveal_strlit("9");
    reveal_strlit("a");
    reveal_strlit("b");
    reveal_strlit("c");
    reveal_strlit("d");
    reveal_strlit("e");
    reveal_strlit("f");
    assert(digit(m) == digit(n) ==> digit(m)[0] == digit(n)[0]);
}

/// Two numbers are not written alike.
pub proof fn two_numbers_have_two_numerals(m: nat, n: nat, base: nat)
    requires
        2 <= base <= 16,
        numeral(m, base) == numeral(n, base),
    ensures
        m == n,
    decreases m,
{
    let x = numeral(m, base);
    let y = numeral(n, base);
    lemma_numeral_len(m, base);
    lemma_numeral_len(n, base);
    if m < base && n < base {
        lemma_digits(m as int, n as int);
    } else if m < base {
        lemma_digits(m as int, (n % base) as int);
        lemma_numeral_len(n / base, base);
    } else if n < base {
        lemma_digits((m % base) as int, n as int);
        lemma_numeral_len(m / base, base);
    } else {
        lemma_digits((m % base) as int, (n % base) as int);
        let a = numeral(m / base, base);
        let b = numeral(n / base, base);
        assert(a =~= x.drop_last());
        assert(b =~= y.drop_last());
        assert(digit((m % base) as int) =~= seq![x.last()]);
        assert(digit((n % base) as int) =~= seq![y.last()]);
        assert(m / base < m) by (nonlinear_arith)
            requires
                m >= base,
                base >= 2,
        ;
        two_numbers_have_two_numerals(m / base, n / base, base);
        vstd::arithmetic::div_mod::lemma_fundamental_div_mod(m as int, base as int);
        vstd::arithmetic::div_mod::lemma_fundamental_div_mod(n as int, base as int);
    }
}

proof fn lemma_numeral_len(n: nat, base: nat)
    requires
        2 <= base <= 16,
    ensures
        numeral(n, base).len() >= 1,
        n < base ==> numeral(n, base).len() == 1,
    decreases n,
{
    if n < base {
        lemma_digits(n as int, n as int);
    } else {
        lemma_digits((n % base) as int, (n % base) as int);
    }
}

} // verus!
