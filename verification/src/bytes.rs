//! Little-endian numbers in byte sequences, and text in bytes.

use vstd::prelude::*;
use vstd::utf8::{decode_utf8, valid_utf8};

verus! {

/// The two bytes of a number, low byte first.
pub open spec fn le16(w: u16) -> Seq<u8> {
    seq![(w & 0xff) as u8, ((w >> 8) & 0xff) as u8]
}

/// The four bytes of a number, low byte first.
pub open spec fn le32(w: u32) -> Seq<u8> {
    seq![
        (w & 0xff) as u8,
        ((w >> 8) & 0xff) as u8,
        ((w >> 16) & 0xff) as u8,
        ((w >> 24) & 0xff) as u8,
    ]
}

/// The eight bytes of a number, low byte first.
pub open spec fn le64(w: u64) -> Seq<u8> {
    le32((w & 0xffff_ffff) as u32) + le32((w >> 32) as u32)
}

/// The number in two bytes of `b` at `at`.
pub open spec fn of16(b: Seq<u8>, at: int) -> u16 {
    (b[at] as u16) | ((b[at + 1] as u16) << 8)
}

/// The number in four bytes of `b` at `at`.
pub open spec fn of32(b: Seq<u8>, at: int) -> u32 {
    (b[at] as u32) | ((b[at + 1] as u32) << 8) | ((b[at + 2] as u32) << 16) | ((b[at + 3] as u32)
        << 24)
}

/// The number in eight bytes of `b` at `at`.
pub open spec fn of64(b: Seq<u8>, at: int) -> u64 {
    (of32(b, at) as u64) | ((of32(b, at + 4) as u64) << 32)
}

/// `b` with the number `w` in four bytes at `at`, or `b` where they are not all inside it.
pub open spec fn with32(b: Seq<u8>, at: int, w: u32) -> Seq<u8> {
    if 0 <= at && at + 4 <= b.len() {
        b.subrange(0, at) + le32(w) + b.subrange(at + 4, b.len() as int)
    } else {
        b
    }
}

/// The number in four bytes of `b` at `at`, or zero where they are not all inside it.
pub open spec fn word_of(b: Seq<u8>, at: int) -> u32 {
    if 0 <= at && at + 4 <= b.len() {
        of32(b, at)
    } else {
        0
    }
}

/// A number read where it was written is that number.
pub proof fn what_was_written_is_read16(a: Seq<u8>, w: u16, c: Seq<u8>)
    ensures
        of16(a + le16(w) + c, a.len() as int) == w,
{
    let s = a + le16(w) + c;
    let at = a.len() as int;
    assert(s[at] == le16(w)[0] && s[at + 1] == le16(w)[1]);
    assert((((w & 0xff) as u8) as u16) | ((((w >> 8) & 0xff) as u8) as u16) << 8 == w)
        by (bit_vector);
}

/// A number read where it was written is that number.
pub proof fn what_was_written_is_read32(a: Seq<u8>, w: u32, c: Seq<u8>)
    ensures
        of32(a + le32(w) + c, a.len() as int) == w,
{
    let s = a + le32(w) + c;
    let at = a.len() as int;
    assert(s[at] == le32(w)[0] && s[at + 1] == le32(w)[1] && s[at + 2] == le32(w)[2] && s[at + 3]
        == le32(w)[3]);
    assert((((w & 0xff) as u8) as u32) | ((((w >> 8) & 0xff) as u8) as u32) << 8 | ((((w >> 16)
        & 0xff) as u8) as u32) << 16 | ((((w >> 24) & 0xff) as u8) as u32) << 24 == w)
        by (bit_vector);
}

/// A number read where it was written is that number.
pub proof fn what_was_written_is_read64(a: Seq<u8>, w: u64, c: Seq<u8>)
    ensures
        of64(a + le64(w) + c, a.len() as int) == w,
{
    let lo = (w & 0xffff_ffff) as u32;
    let hi = (w >> 32) as u32;
    assert(a + le64(w) + c =~= a + le32(lo) + (le32(hi) + c));
    what_was_written_is_read32(a, lo, le32(hi) + c);
    assert(a + le64(w) + c =~= (a + le32(lo)) + le32(hi) + c);
    what_was_written_is_read32(a + le32(lo), hi, c);
    assert((((w & 0xffff_ffff) as u32) as u64) | (((w >> 32) as u32) as u64) << 32 == w)
        by (bit_vector);
}

/// A number put into bytes is found there, and nothing else moves.
pub proof fn a_word_put_is_a_word_found(b: Seq<u8>, at: int, w: u32)
    requires
        0 <= at,
        at + 4 <= b.len(),
    ensures
        word_of(with32(b, at, w), at) == w,
        with32(b, at, w).len() == b.len(),
        forall|i: int|
            0 <= i < b.len() && !(at <= i < at + 4) ==> #[trigger] with32(b, at, w)[i] == b[i],
{
    what_was_written_is_read32(b.subrange(0, at), w, b.subrange(at + 4, b.len() as int));
}

/// Two bytes, low byte first.
pub fn put16(out: &mut Vec<u8>, w: u16)
    ensures
        final(out)@ == old(out)@ + le16(w),
{
    out.push((w & 0xff) as u8);
    out.push(((w >> 8) & 0xff) as u8);
    assert(out@ =~= old(out)@ + le16(w));
}

/// Four bytes, low byte first.
pub fn put32(out: &mut Vec<u8>, w: u32)
    ensures
        final(out)@ == old(out)@ + le32(w),
{
    out.push((w & 0xff) as u8);
    out.push(((w >> 8) & 0xff) as u8);
    out.push(((w >> 16) & 0xff) as u8);
    out.push(((w >> 24) & 0xff) as u8);
    assert(out@ =~= old(out)@ + le32(w));
}

/// Eight bytes, low byte first.
pub fn put64(out: &mut Vec<u8>, w: u64)
    ensures
        final(out)@ == old(out)@ + le64(w),
{
    assert(w >> 32 <= 0xffff_ffff && w & 0xffff_ffff <= 0xffff_ffff) by (bit_vector);
    put32(out, (w & 0xffff_ffff) as u32);
    put32(out, (w >> 32) as u32);
    assert(out@ =~= old(out)@ + le64(w));
}

/// The number in two bytes at `at`.
pub fn get16(b: &[u8], at: usize) -> (r: u16)
    requires
        at + 2 <= b@.len(),
    ensures
        r == of16(b@, at as int),
{
    (b[at] as u16) | ((b[at + 1] as u16) << 8)
}

/// The number in four bytes at `at`.
pub fn get32(b: &[u8], at: usize) -> (r: u32)
    requires
        at + 4 <= b@.len(),
    ensures
        r == of32(b@, at as int),
{
    (b[at] as u32) | ((b[at + 1] as u32) << 8) | ((b[at + 2] as u32) << 16) | ((b[at + 3] as u32)
        << 24)
}

/// The number in eight bytes at `at`.
pub fn get64(b: &[u8], at: usize) -> (r: u64)
    requires
        at + 8 <= b@.len(),
    ensures
        r == of64(b@, at as int),
{
    let n: usize = b.len();
    assert(at + 8 <= n);
    (get32(b, at) as u64) | ((get32(b, at + 4) as u64) << 32)
}

/// The number in four bytes at `at`, or zero where they are not all there.
pub fn word_at(b: &Vec<u8>, at: u64) -> (r: u32)
    ensures
        r == word_of(b@, at as int),
{
    let n: u64 = b.len() as u64;
    if at <= n && n - at >= 4 {
        get32(b.as_slice(), at as usize)
    } else {
        0
    }
}

/// Puts a number into four bytes at `at`, where they are all there.
pub fn set_word(b: &mut Vec<u8>, at: u64, w: u32)
    ensures
        final(b)@ == with32(old(b)@, at as int, w),
{
    let n: u64 = b.len() as u64;
    if at <= n && n - at >= 4 {
        let o: usize = at as usize;
        b.set(o, (w & 0xff) as u8);
        b.set(o + 1, ((w >> 8) & 0xff) as u8);
        b.set(o + 2, ((w >> 16) & 0xff) as u8);
        b.set(o + 3, ((w >> 24) & 0xff) as u8);
        assert(b@ =~= with32(old(b)@, at as int, w));
    }
}

/// Appends bytes.
pub fn append(out: &mut Vec<u8>, b: &[u8])
    ensures
        final(out)@ == old(out)@ + b@,
{
    let mut i: usize = 0;
    while i < b.len()
        invariant
            i <= b@.len(),
            out@ == old(out)@ + b@.subrange(0, i as int),
        decreases b@.len() - i,
    {
        out.push(b[i]);
        i = i + 1;
        assert(out@ =~= old(out)@ + b@.subrange(0, i as int));
    }
    assert(out@ =~= old(out)@ + b@);
}

/// Appends zeros.
pub fn pad(out: &mut Vec<u8>, n: usize)
    ensures
        final(out)@ == old(out)@ + zeros(n as nat),
{
    let mut i: usize = 0;
    while i < n
        invariant
            i <= n,
            out@ == old(out)@ + zeros(i as nat),
        decreases n - i,
    {
        out.push(0);
        i = i + 1;
        assert(out@ =~= old(out)@ + zeros(i as nat));
    }
}

/// That many zero bytes.
pub open spec fn zeros(n: nat) -> Seq<u8> {
    Seq::new(n, |i: int| 0u8)
}

/// How many bytes there are from `n` to the next multiple of `to`.
pub open spec fn gap(n: nat, to: nat) -> nat
    recommends
        to > 0,
{
    if n % to == 0 {
        0
    } else {
        (to - n % to) as nat
    }
}

/// A gap ends on a multiple.
pub proof fn a_gap_ends_on_a_multiple(n: nat, to: nat)
    requires
        to > 0,
    ensures
        (n + gap(n, to)) % to == 0,
        gap(n, to) < to,
{
    if n % to != 0 {
        let q = (n / to) as int;
        vstd::arithmetic::div_mod::lemma_fundamental_div_mod(n as int, to as int);
        assert(n + gap(n, to) == to * (q + 1)) by (nonlinear_arith)
            requires
                n == to * q + n % to,
                gap(n, to) == to - n % to,
        ;
        vstd::arithmetic::div_mod::lemma_mod_multiples_basic(q + 1, to as int);
        assert(to * (q + 1) == (q + 1) * to) by (nonlinear_arith);
    }
}

/// The bytes from `from` up to `to`.
pub fn part(b: &[u8], from: usize, to: usize) -> (r: Vec<u8>)
    requires
        from <= to <= b@.len(),
    ensures
        r@ == b@.subrange(from as int, to as int),
{
    let mut out: Vec<u8> = Vec::new();
    let mut i: usize = from;
    while i < to
        invariant
            from <= i <= to <= b@.len(),
            out@ == b@.subrange(from as int, i as int),
        decreases to - i,
    {
        out.push(b[i]);
        i = i + 1;
        assert(out@ =~= b@.subrange(from as int, i as int));
    }
    out
}

/// The text that bytes are read as where they are not UTF-8: what is none is replaced.
pub uninterp spec fn lossy_text(b: Seq<u8>) -> Seq<char>;

/// The text that bytes are read as: what they encode, and where they are not UTF-8, a text in which
/// what is none is replaced.
pub open spec fn read_text(b: Seq<u8>) -> Seq<char> {
    if valid_utf8(b) {
        decode_utf8(b)
    } else {
        lossy_text(b)
    }
}

/// `String::from_utf8_lossy`: where the bytes are valid UTF-8, the text that they encode, and where
/// they are not, a text that is a function of the bytes alone.
#[verifier::external_body]
pub(crate) fn lossy(b: &[u8]) -> (r: String)
    ensures
        valid_utf8(b@) ==> r@ == decode_utf8(b@),
        !valid_utf8(b@) ==> r@ == lossy_text(b@),
{
    String::from_utf8_lossy(b).into_owned()
}

/// The bytes of a text.
pub open spec fn utf8(s: Seq<char>) -> Seq<u8> {
    vstd::utf8::encode_utf8(s)
}

/// Appends the bytes of a text.
pub fn put_text(out: &mut Vec<u8>, s: &str)
    ensures
        final(out)@ == old(out)@ + utf8(s@),
{
    append(out, s.as_bytes());
}

} // verus!
