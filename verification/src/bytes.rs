//! Bytes, and fixed-width numbers as bytes.
use vstd::prelude::*;
use crate::ondisk::lemma_bytes_of_value;

verus! {

/// The bytes that may have been read.
pub open spec fn opt_bytes(s: Option<Vec<u8>>) -> Option<Seq<u8>> {
    match s {
        Some(t) => Some(t@),
        None => None,
    }
}

/// The `n` low bytes of `v`, least significant first.
pub open spec fn le_bytes(v: nat, n: nat) -> Seq<u8>
    decreases n,
{
    if n == 0 {
        seq![]
    } else {
        seq![(v % 256) as u8] + le_bytes(v / 256, (n - 1) as nat)
    }
}

/// The number whose bytes, least significant first, are `s`.
pub open spec fn le_value(s: Seq<u8>) -> nat
    decreases s.len(),
{
    if s.len() == 0 {
        0
    } else {
        s[0] as nat + 256 * le_value(s.skip(1))
    }
}

/// The digits of `v` in base `base`, `n` of them, most significant first.
pub open spec fn digits_of(v: nat, base: nat, n: nat) -> Seq<nat>
    decreases n,
{
    if n == 0 {
        seq![]
    } else {
        digits_of(v / base, base, (n - 1) as nat).push(v % base)
    }
}

/// The 64 bits of `v` in two's complement.
pub open spec fn unsigned_of(v: i64) -> u64 {
    if v >= 0 {
        v as u64
    } else {
        (v + 0x1_0000_0000_0000_0000) as u64
    }
}

pub proof fn lemma_digits_len(v: nat, base: nat, n: nat)
    requires
        base > 0,
    ensures
        digits_of(v, base, n).len() == n,
        forall|i: int| 0 <= i < n ==> #[trigger] digits_of(v, base, n)[i] < base,
    decreases n,
{
    if n > 0 {
        lemma_digits_len(v / base, base, (n - 1) as nat);
        let before = digits_of(v / base, base, (n - 1) as nat);
        assert forall|i: int| 0 <= i < n implies #[trigger] digits_of(v, base, n)[i] < base by {
            if i < n - 1 {
                assert(digits_of(v, base, n)[i] == before[i]);
            } else {
                vstd::arithmetic::div_mod::lemma_mod_bound(v as int, base as int);
            }
        }
    }
}

/// Numbers of no more than `n` digits are told apart by their digits.
pub proof fn lemma_digits_injective(v: nat, w: nat, base: nat, n: nat)
    requires
        base > 1,
        v < vstd::arithmetic::power::pow(base as int, n),
        w < vstd::arithmetic::power::pow(base as int, n),
        digits_of(v, base, n) == digits_of(w, base, n),
    ensures
        v == w,
    decreases n,
{
    reveal(vstd::arithmetic::power::pow);
    if n > 0 {
        let b = base as int;
        let p = vstd::arithmetic::power::pow(b, (n - 1) as nat);
        let s = digits_of(v, base, n);
        let t = digits_of(w, base, n);
        assert(s.last() == v % base && t.last() == w % base);
        assert(s.drop_last() =~= digits_of(v / base, base, (n - 1) as nat));
        assert(t.drop_last() =~= digits_of(w / base, base, (n - 1) as nat));
        assert(vstd::arithmetic::power::pow(b, n) == b * p);
        assert(v / base < p) by (nonlinear_arith)
            requires
                v < b * p,
                b == base,
                base > 1,
        ;
        assert(w / base < p) by (nonlinear_arith)
            requires
                w < b * p,
                b == base,
                base > 1,
        ;
        lemma_digits_injective(v / base, w / base, base, (n - 1) as nat);
        vstd::arithmetic::div_mod::lemma_fundamental_div_mod(v as int, b);
        vstd::arithmetic::div_mod::lemma_fundamental_div_mod(w as int, b);
    }
}

pub proof fn lemma_le_bytes_len(v: nat, n: nat)
    ensures
        le_bytes(v, n).len() == n,
    decreases n,
{
    if n > 0 {
        lemma_le_bytes_len(v / 256, (n - 1) as nat);
    }
}

/// `v` has no more than `n` bytes.
pub open spec fn fits(v: nat, n: nat) -> bool
    decreases n,
{
    if n == 0 {
        v == 0
    } else {
        fits(v / 256, (n - 1) as nat)
    }
}

/// A number that has no more than `n` bytes is read back from them.
pub proof fn lemma_le_round_trip(v: nat, n: nat)
    requires
        fits(v, n),
    ensures
        le_value(le_bytes(v, n)) == v,
    decreases n,
{
    if n > 0 {
        lemma_le_round_trip(v / 256, (n - 1) as nat);
        assert(le_bytes(v, n).skip(1) =~= le_bytes(v / 256, (n - 1) as nat));
    }
}

pub proof fn lemma_u64_fits(v: u64)
    ensures
        fits(v as nat, 8),
{
    let a = v as nat / 256;
    let b = a / 256;
    let c = b / 256;
    let d = c / 256;
    let e = d / 256;
    let f = e / 256;
    let g = f / 256;
    let h = g / 256;
    assert(a < 0x1_0000_0000_0000_00);
    assert(h == 0);
    reveal_with_fuel(fits, 9);
}

proof fn lemma_le_value_bound(s: Seq<u8>)
    requires
        s.len() == 8,
    ensures
        le_value(s) <= u64::MAX,
{
    let s1 = s.skip(1);
    let s2 = s1.skip(1);
    let s3 = s2.skip(1);
    let s4 = s3.skip(1);
    let s5 = s4.skip(1);
    let s6 = s5.skip(1);
    let s7 = s6.skip(1);
    assert(s7.skip(1).len() == 0);
    assert(le_value(s7.skip(1)) == 0);
    assert(le_value(s7) <= 0xff);
    assert(le_value(s6) <= 0xffff);
    assert(le_value(s5) <= 0xff_ffff);
    assert(le_value(s4) <= 0xffff_ffff);
    assert(le_value(s3) <= 0xff_ffff_ffff);
    assert(le_value(s2) <= 0xffff_ffff_ffff);
    assert(le_value(s1) <= 0xff_ffff_ffff_ffff);
}

/// Appends the eight bytes of `v`, least significant first.
pub fn push_le(out: &mut Vec<u8>, v: u64)
    ensures
        final(out)@ == old(out)@ + le_bytes(v as nat, 8),
{
    let ghost before = out@;
    let mut rest: u64 = v;
    for i in 0..8usize
        invariant
            out@ + le_bytes(rest as nat, (8 - i) as nat) == before + le_bytes(v as nat, 8),
    {
        let ghost now = out@;
        let ghost r = rest;
        out.push((rest % 256) as u8);
        rest = rest / 256;
        assert(out@ + le_bytes(rest as nat, (7 - i) as nat) =~= now + le_bytes(r as nat, (8 - i) as nat));
    }
    assert(out@ + le_bytes(rest as nat, 0) =~= out@);
}

/// Reads the eight bytes from `at` on, least significant first.
pub fn read_le(s: &[u8], at: usize) -> (r: u64)
    requires
        at + 8 <= s.len(),
    ensures
        r == le_value(s@.subrange(at as int, at + 8)),
{
    let ghost w = s@.subrange(at as int, at + 8);
    let mut acc: u64 = 0;
    let mut i: usize = 8;
    proof {
        lemma_le_value_bound(w);
        assert(w.skip(8) =~= seq![]);
    }
    while i > 0
        invariant
            i <= 8,
            at + 8 <= s.len(),
            w == s@.subrange(at as int, at + 8),
            acc == le_value(w.skip(i as int)),
            le_value(w) <= u64::MAX,
        decreases i,
    {
        i -= 1;
        assert(w.skip(i as int).skip(1) =~= w.skip(i + 1));
        assert(w.skip(i as int)[0] == s@[at + i]);
        proof {
            lemma_le_value_tail(w, i as int);
        }
        acc = s[at + i] as u64 + 256 * acc;
    }
    assert(w.skip(0) =~= w);
    acc
}

proof fn lemma_le_value_tail(s: Seq<u8>, i: int)
    requires
        0 <= i <= s.len(),
    ensures
        le_value(s.skip(i)) <= le_value(s),
    decreases i,
{
    if i > 0 {
        lemma_le_value_tail(s, i - 1);
        assert(s.skip(i - 1).skip(1) =~= s.skip(i));
    } else {
        assert(s.skip(0) =~= s);
    }
}

/// The 64 bits of `v`.
pub fn bits_of(v: i64) -> (r: u64)
    ensures
        r == unsigned_of(v),
{
    if v >= 0 {
        v as u64
    } else {
        (v as i128 + 0x1_0000_0000_0000_0000) as u64
    }
}

// ---------------------------------------------------------------------------
// Laws
// ---------------------------------------------------------------------------

/// Bytes that were read are those bytes.
pub proof fn law_bytes_that_were_read(b: Vec<u8>)
    ensures
        opt_bytes(Some(b)) == Some(b@),
        opt_bytes(None) is None,
{
}

/// The least significant byte stands first: a byte put before the bytes of a
/// number makes the byte and 256 times the number, and the bytes of that are
/// the byte and the bytes of the number.
pub proof fn law_least_significant_byte_first(s: Seq<u8>, v: nat, n: nat, b: u8)
    ensures
        le_value(Seq::<u8>::empty()) == 0,
        le_value(seq![b] + s) == b + 256 * le_value(s),
        le_bytes(v, 0) == Seq::<u8>::empty(),
        le_bytes((b + 256 * v) as nat, n + 1) == seq![b] + le_bytes(v, n),
        le_bytes(v, n).len() == n,
{
    assert((seq![b] + s).skip(1) =~= s);
    let w = (b + 256 * v) as nat;
    assert(w % 256 == b && w / 256 == v);
    lemma_le_bytes_len(v, n);
}

/// Numbers of eight bytes are read back from them, and eight bytes are those of
/// the number that they denote.
pub proof fn law_eight_bytes_round_trip(v: u64, s: Seq<u8>)
    requires
        s.len() == 8,
    ensures
        le_value(le_bytes(v as nat, 8)) == v,
        le_bytes(le_value(s), 8) == s,
        le_value(s) <= u64::MAX,
{
    lemma_u64_fits(v);
    lemma_le_round_trip(v as nat, 8);
    lemma_bytes_of_value(s);
    lemma_le_value_bound(s);
}

/// The most significant digit stands first: a digit put behind a number makes
/// the base times the number and the digit, and its digits are those of the
/// number and the digit.
pub proof fn law_most_significant_digit_first(v: nat, base: nat, n: nat, d: nat)
    requires
        d < base,
    ensures
        digits_of(v, base, 0) == Seq::<nat>::empty(),
        digits_of(v * base + d, base, n + 1) == digits_of(v, base, n).push(d),
{
    let w = v * base + d;
    vstd::arithmetic::div_mod::lemma_fundamental_div_mod_converse(w as int, base as int, v as int, d as int);
}

/// The 64 bits of a signed number are the number, or for a negative one the
/// number and the number of values.
pub proof fn law_bits_of_signed_numbers(v: i64)
    ensures
        v >= 0 ==> unsigned_of(v) == v,
        v < 0 ==> unsigned_of(v) == v + 0x1_0000_0000_0000_0000,
{
}

} // verus!
