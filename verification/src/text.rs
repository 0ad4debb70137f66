//! Text primitives shared by the on-store formats: characters, lines, fields
//! and decimal numbers.
use vstd::prelude::*;
use vstd::slice::{slice_subrange, slice_to_vec};

verus! {

/// `String::push` of std: appends one character at the end of the string.
pub assume_specification[ String::push ](s: &mut String, c: char)
    ensures
        final(s)@ == old(s)@.push(c),
;

// ---------------------------------------------------------------------------
// Characters and strings
// ---------------------------------------------------------------------------

/// The characters of a string, in order.
pub fn chars_of(s: &str) -> (r: Vec<char>)
    ensures
        r@ == s@,
{
    let mut out: Vec<char> = Vec::new();
    for c in it: s.chars()
        invariant
            it.seq() == s@,
            out@ == s@.take(it.index() as int),
    {
        assert(s@.take(it.index() as int).push(c) =~= s@.take(it.index() as int + 1));
        out.push(c);
    }
    assert(s@.take(s@.len() as int) =~= s@);
    out
}

/// The string made of the given characters.
pub fn string_of(cs: &[char]) -> (r: String)
    ensures
        r@ == cs@,
{
    let mut out: String = String::new();
    assert(out@ =~= cs@.take(0));
    for i in 0..cs.len()
        invariant
            out@ == cs@.take(i as int),
    {
        assert(cs@.take(i as int).push(cs@[i as int]) =~= cs@.take(i + 1));
        out.push(cs[i]);
    }
    assert(cs@.take(cs@.len() as int) =~= cs@);
    out
}

/// The texts held by a vector of strings.
pub open spec fn string_views(v: Seq<String>) -> Seq<Seq<char>> {
    v.map_values(|s: String| s@)
}

/// Appends `t` to `s`.
pub fn push_text(s: &mut String, t: &str)
    ensures
        final(s)@ == old(s)@ + t@,
{
    s.append(t);
}

pub open spec fn no_char(s: Seq<char>, c: char) -> bool {
    forall|i: int| 0 <= i < s.len() ==> s[i] != c
}

pub open spec fn starts_with(s: Seq<char>, p: Seq<char>) -> bool {
    p.len() <= s.len() && s.take(p.len() as int) == p
}

pub open spec fn ends_with(s: Seq<char>, p: Seq<char>) -> bool {
    p.len() <= s.len() && s.skip(s.len() - p.len()) == p
}


/// True iff the text `s` begins with `p`.
pub fn has_prefix(s: &[char], p: &str) -> (r: bool)
    ensures
        r == starts_with(s@, p@),
{
    let pc: Vec<char> = chars_of(p);
    if s.len() < pc.len() {
        return false;
    }
    for i in 0..pc.len()
        invariant
            pc@ == p@,
            pc.len() <= s.len(),
            forall|j: int| 0 <= j < i ==> s@[j] == p@[j],
    {
        if s[i] != pc[i] {
            assert(s@.take(p@.len() as int)[i as int] != p@[i as int]);
            return false;
        }
    }
    assert(s@.take(p@.len() as int) =~= p@);
    true
}

/// True iff the text `s` ends with `p`.
pub fn has_suffix(s: &[char], p: &str) -> (r: bool)
    ensures
        r == ends_with(s@, p@),
{
    let pc: Vec<char> = chars_of(p);
    if s.len() < pc.len() {
        return false;
    }
    let base: usize = s.len() - pc.len();
    for i in 0..pc.len()
        invariant
            pc@ == p@,
            pc.len() <= s.len(),
            base == s.len() - pc.len(),
            forall|j: int| 0 <= j < i ==> s@[base + j] == p@[j],
    {
        if s[base + i] != pc[i] {
            assert(s@.skip(base as int)[i as int] != p@[i as int]);
            return false;
        }
    }
    assert(s@.skip(base as int) =~= p@);
    true
}

/// `s` without its first `n` characters.
pub fn chars_from(s: &[char], n: usize) -> (r: Vec<char>)
    requires
        n <= s.len(),
    ensures
        r@ == s@.skip(n as int),
{
    let r: Vec<char> = slice_to_vec(slice_subrange(s, n, s.len()));
    assert(r@ =~= s@.skip(n as int));
    r
}

/// The first `n` characters of `s`.
pub fn chars_upto(s: &[char], n: usize) -> (r: Vec<char>)
    requires
        n <= s.len(),
    ensures
        r@ == s@.take(n as int),
{
    let r: Vec<char> = slice_to_vec(slice_subrange(s, 0, n));
    assert(r@ =~= s@.take(n as int));
    r
}

/// True iff the two texts are the same characters.
pub fn same_text(a: &str, b: &str) -> (r: bool)
    ensures
        r == (a@ == b@),
{
    let x: Vec<char> = chars_of(a);
    let y: Vec<char> = chars_of(b);
    if x.len() != y.len() {
        return false;
    }
    for i in 0..x.len()
        invariant
            x@ == a@,
            y@ == b@,
            x.len() == y.len(),
            forall|j: int| 0 <= j < i ==> a@[j] == b@[j],
    {
        if x[i] != y[i] {
            return false;
        }
    }
    assert(a@ =~= b@);
    true
}

// ---------------------------------------------------------------------------
// Fields and lines
// ---------------------------------------------------------------------------

/// Position of the first `c` in `s`, or the length of `s` when there is none.
pub open spec fn index_of(s: Seq<char>, c: char) -> nat
    decreases s.len(),
{
    if s.len() == 0 || s[0] == c {
        0
    } else {
        1 + index_of(s.skip(1), c)
    }
}

/// The pieces of `s` between the separators `c`; `n` separators make `n + 1`
/// pieces.
pub open spec fn split(s: Seq<char>, c: char) -> Seq<Seq<char>>
    decreases s.len(),
{
    let i = index_of(s, c);
    if i >= s.len() {
        seq![s]
    } else {
        seq![s.take(i as int)] + split(s.skip(i as int + 1), c)
    }
}

/// `s` without one carriage return at its end.
pub open spec fn strip_cr(s: Seq<char>) -> Seq<char> {
    if s.len() > 0 && s.last() == '\r' {
        s.drop_last()
    } else {
        s
    }
}

/// The lines of `s`. A line ends at a newline or a carriage return and
/// newline; a last line without a newline counts, an empty one does not.
pub open spec fn lines(s: Seq<char>) -> Seq<Seq<char>>
    decreases s.len(),
{
    let i = index_of(s, '\n');
    if s.len() == 0 {
        seq![]
    } else if i >= s.len() {
        seq![s]
    } else {
        seq![strip_cr(s.take(i as int))] + lines(s.skip(i as int + 1))
    }
}

/// The texts held by a vector of character vectors.
pub open spec fn texts(v: Seq<Vec<char>>) -> Seq<Seq<char>> {
    v.map_values(|x: Vec<char>| x@)
}

pub proof fn lemma_index_of(s: Seq<char>, c: char)
    ensures
        index_of(s, c) <= s.len(),
        no_char(s.take(index_of(s, c) as int), c),
        index_of(s, c) < s.len() ==> s[index_of(s, c) as int] == c,
    decreases s.len(),
{
    if s.len() > 0 && s[0] != c {
        lemma_index_of(s.skip(1), c);
        let i = index_of(s.skip(1), c);
        assert forall|j: int| 0 <= j < i + 1 implies s[j] != c by {
            if j > 0 {
                assert(s.skip(1).take(i as int)[j - 1] == s[j]);
            }
        }
    }
}

/// A position with `c` at it and none before is the first position of `c`.
pub proof fn lemma_index_of_is(s: Seq<char>, c: char, i: nat)
    requires
        i <= s.len(),
        no_char(s.take(i as int), c),
        i < s.len() ==> s[i as int] == c,
    ensures
        index_of(s, c) == i,
{
    lemma_index_of(s, c);
    let k = index_of(s, c);
    if k < i {
        assert(s.take(i as int)[k as int] == c);
    }
    if i < k {
        assert(s.take(k as int)[i as int] == c);
    }
}

pub proof fn lemma_split_none(s: Seq<char>, c: char)
    requires
        no_char(s, c),
    ensures
        split(s, c) == seq![s],
{
    assert(s.take(s.len() as int) =~= s);
    lemma_index_of_is(s, c, s.len());
}

pub proof fn lemma_split_first(a: Seq<char>, c: char, rest: Seq<char>)
    requires
        no_char(a, c),
    ensures
        split(a.push(c) + rest, c) == seq![a] + split(rest, c),
{
    let s = a.push(c) + rest;
    assert(s.take(a.len() as int) =~= a);
    lemma_index_of_is(s, c, a.len());
    assert(s.skip(a.len() as int + 1) =~= rest);
}

pub proof fn lemma_lines_first(a: Seq<char>, rest: Seq<char>)
    requires
        no_char(a, '\n'),
    ensures
        lines(a.push('\n') + rest) == seq![strip_cr(a)] + lines(rest),
{
    let s = a.push('\n') + rest;
    assert(s.take(a.len() as int) =~= a);
    lemma_index_of_is(s, '\n', a.len());
    assert(s.skip(a.len() as int + 1) =~= rest);
}

/// Position of the first `c` at or after `start`, or the length of `s`.
fn find_from(s: &[char], start: usize, c: char) -> (r: usize)
    requires
        start <= s.len(),
    ensures
        start <= r <= s.len(),
        r - start == index_of(s@.skip(start as int), c),
{
    let mut i: usize = start;
    while i < s.len() && s[i] != c
        invariant
            start <= i <= s.len(),
            forall|j: int| start <= j < i ==> s@[j] != c,
        decreases s.len() - i,
    {
        i += 1;
    }
    proof {
        lemma_index_of_is(s@.skip(start as int), c, (i - start) as nat);
    }
    i
}

/// The pieces of `s` between the separators `c`.
pub fn split_on(s: &[char], c: char) -> (r: Vec<Vec<char>>)
    ensures
        texts(r@) == split(s@, c),
{
    let mut out: Vec<Vec<char>> = Vec::new();
    let mut start: usize = 0;
    assert(s@.skip(0) =~= s@);
    assert(texts(out@) =~= seq![]);
    assert(texts(out@) + split(s@, c) =~= split(s@, c));
    loop
        invariant
            start <= s.len(),
            texts(out@) + split(s@.skip(start as int), c) == split(s@, c),
        decreases s.len() - start,
    {
        let end: usize = find_from(s, start, c);
        let piece: Vec<char> = slice_to_vec(slice_subrange(s, start, end));
        let ghost rest = s@.skip(start as int);
        let ghost before = texts(out@);
        assert(piece@ =~= rest.take(end - start));
        out.push(piece);
        assert(texts(out@) =~= before.push(piece@));
        if end == s.len() {
            assert(piece@ =~= rest);
            assert(before + split(rest, c) =~= texts(out@));
            return out;
        }
        assert(rest.skip(end - start + 1) =~= s@.skip(end + 1));
        assert(before + split(rest, c) =~= texts(out@) + split(s@.skip(end + 1), c));
        start = end + 1;
    }
}

/// The lines of `s`.
pub fn lines_of(s: &[char]) -> (r: Vec<Vec<char>>)
    ensures
        texts(r@) == lines(s@),
{
    let mut out: Vec<Vec<char>> = Vec::new();
    let mut start: usize = 0;
    assert(s@.skip(0) =~= s@);
    assert(texts(out@) =~= seq![]);
    assert(texts(out@) + lines(s@) =~= lines(s@));
    while start < s.len()
        invariant
            start <= s.len(),
            texts(out@) + lines(s@.skip(start as int)) == lines(s@),
        decreases s.len() - start,
    {
        let end: usize = find_from(s, start, '\n');
        let mut stop: usize = end;
        if end < s.len() && end > start && s[end - 1] == '\r' {
            stop = end - 1;
        }
        let piece: Vec<char> = slice_to_vec(slice_subrange(s, start, stop));
        let ghost rest = s@.skip(start as int);
        let ghost before = texts(out@);
        out.push(piece);
        assert(texts(out@) =~= before.push(piece@));
        if end == s.len() {
            assert(piece@ =~= rest);
            assert(before + lines(rest) =~= texts(out@));
            return out;
        }
        assert(piece@ =~= strip_cr(rest.take(end - start)));
        assert(rest.skip(end - start + 1) =~= s@.skip(end + 1));
        assert(before + lines(rest) =~= texts(out@) + lines(s@.skip(end + 1)));
        start = end + 1;
    }
    assert(texts(out@) + lines(s@.skip(start as int)) =~= texts(out@));
    out
}

// ---------------------------------------------------------------------------
// Decimal numbers
// ---------------------------------------------------------------------------

pub open spec fn is_digit(c: char) -> bool {
    48 <= c as u32 <= 57
}

pub open spec fn digit(d: nat) -> char {
    ((48 + d) as u8) as char
}

/// The decimal digits of `n`, without leading zeros.
pub open spec fn decimal(n: nat) -> Seq<char>
    decreases n,
{
    if n < 10 {
        seq![digit(n)]
    } else {
        decimal(n / 10).push(digit(n % 10))
    }
}

/// The decimal form of `n`, with a minus sign where it is negative.
pub open spec fn decimal_int(n: int) -> Seq<char> {
    if n < 0 {
        seq!['-'] + decimal((-n) as nat)
    } else {
        decimal(n as nat)
    }
}

/// The number that a text of digits denotes.
pub open spec fn digits_value(s: Seq<char>) -> nat
    decreases s.len(),
{
    if s.len() == 0 {
        0
    } else {
        digits_value(s.drop_last()) * 10 + (s.last() as u32 - 48) as nat
    }
}

pub open spec fn all_digits(s: Seq<char>) -> bool {
    s.len() > 0 && forall|i: int| 0 <= i < s.len() ==> is_digit(#[trigger] s[i])
}

/// The digits of `s` after an optional sign `sign`.
pub open spec fn after_sign(s: Seq<char>, sign: char) -> Seq<char> {
    if s.len() > 0 && s[0] == sign {
        s.skip(1)
    } else {
        s
    }
}

/// The number up to `max` that `s` writes in decimal, with or without a plus
/// sign.
pub open spec fn parse_nat(s: Seq<char>, max: nat) -> Option<nat> {
    let d = after_sign(s, '+');
    if all_digits(d) && digits_value(d) <= max {
        Some(digits_value(d))
    } else {
        None
    }
}

/// The number from `-min_abs` to `max` that `s` writes in decimal, with or
/// without a sign.
pub open spec fn parse_int(s: Seq<char>, min_abs: nat, max: nat) -> Option<int> {
    if s.len() > 0 && s[0] == '-' {
        if all_digits(s.skip(1)) && digits_value(s.skip(1)) <= min_abs {
            Some(-(digits_value(s.skip(1)) as int))
        } else {
            None
        }
    } else {
        match parse_nat(s, max) {
            Some(n) => Some(n as int),
            None => None,
        }
    }
}

/// The `u64` that `s` writes.
pub open spec fn parse_u64_spec(s: Seq<char>) -> Option<nat> {
    parse_nat(s, u64::MAX as nat)
}

/// The `i64` that `s` writes.
pub open spec fn parse_i64_spec(s: Seq<char>) -> Option<int> {
    parse_int(s, (i64::MAX + 1) as nat, i64::MAX as nat)
}

pub proof fn lemma_decimal(n: nat)
    ensures
        all_digits(decimal(n)),
        digits_value(decimal(n)) == n,
    decreases n,
{
    if n >= 10 {
        lemma_decimal(n / 10);
        let p = decimal(n / 10);
        assert(decimal(n).drop_last() =~= p);
        assert(decimal(n).last() == digit(n % 10));
        assert forall|i: int| 0 <= i < decimal(n).len() implies is_digit(#[trigger] decimal(n)[i]) by {
            if i < p.len() {
                assert(decimal(n)[i] == p[i]);
            }
        }
    } else {
        assert(decimal(n).drop_last() =~= seq![]);
        assert(digits_value(seq![]) == 0);
    }
}

/// Reading a number back from its decimal form gives the number.
pub proof fn lemma_parse_decimal(n: nat, max: nat)
    requires
        n <= max,
    ensures
        parse_nat(decimal(n), max) == Some(n),
{
    lemma_decimal(n);
    assert(is_digit(decimal(n)[0]));
    assert(after_sign(decimal(n), '+') == decimal(n));
}

/// Reading a signed number back from its decimal form gives the number.
pub proof fn lemma_parse_decimal_int(n: int, min_abs: nat, max: nat)
    requires
        -min_abs <= n <= max,
    ensures
        parse_int(decimal_int(n), min_abs, max) == Some(n),
{
    if n < 0 {
        lemma_decimal((-n) as nat);
        assert(decimal_int(n).skip(1) =~= decimal((-n) as nat));
    } else {
        lemma_parse_decimal(n as nat, max);
        lemma_decimal(n as nat);
        assert(is_digit(decimal(n as nat)[0]));
    }
}

/// A decimal form holds digits and at most a minus sign.
pub proof fn lemma_decimal_int_chars(n: int)
    ensures
        forall|i: int|
            0 <= i < decimal_int(n).len() ==> is_digit(#[trigger] decimal_int(n)[i])
                || decimal_int(n)[i] == '-',
        decimal_int(n).len() > 0,
        is_digit(decimal_int(n).last()),
{
    if n < 0 {
        let d = decimal((-n) as nat);
        lemma_decimal((-n) as nat);
        assert forall|i: int| 0 <= i < decimal_int(n).len() implies is_digit(#[trigger] decimal_int(n)[i])
            || decimal_int(n)[i] == '-' by {
            if i > 0 {
                assert(decimal_int(n)[i] == d[i - 1]);
            }
        }
        assert(decimal_int(n).last() == d.last());
    } else {
        lemma_decimal(n as nat);
    }
}

proof fn lemma_digits_value_grows(s: Seq<char>, n: int)
    requires
        0 <= n <= s.len(),
        forall|i: int| 0 <= i < s.len() ==> is_digit(#[trigger] s[i]),
    ensures
        digits_value(s.take(n)) <= digits_value(s),
    decreases s.len() - n,
{
    if n < s.len() {
        assert(s.take(n + 1).drop_last() =~= s.take(n));
        lemma_digits_value_grows(s, n + 1);
        assert(is_digit(s[n]));
    } else {
        assert(s.take(n) =~= s);
    }
}

/// The number up to `max` that the digits `s` denote.
fn digits_to(s: &[char], max: u64) -> (r: Option<u64>)
    ensures
        r is Some <==> all_digits(s@) && digits_value(s@) <= max,
        r matches Some(v) ==> v == digits_value(s@),
{
    if s.len() == 0 {
        return None;
    }
    for i in 0..s.len()
        invariant
            forall|j: int| 0 <= j < i ==> is_digit(#[trigger] s@[j]),
    {
        let c: char = s[i];
        if (c as u32) < 48 || (c as u32) > 57 {
            assert(!is_digit(s@[i as int]));
            return None;
        }
    }
    let mut acc: u64 = 0;
    for i in 0..s.len()
        invariant
            s.len() > 0,
            forall|j: int| 0 <= j < s.len() ==> is_digit(#[trigger] s@[j]),
            acc == digits_value(s@.take(i as int)),
            acc <= max,
    {
        assert(is_digit(s@[i as int]));
        let d: u64 = (s[i] as u32 - 48) as u64;
        let next: u128 = acc as u128 * 10 + d as u128;
        assert(s@.take(i + 1).drop_last() =~= s@.take(i as int));
        assert(next == digits_value(s@.take(i + 1)));
        if next > max as u128 {
            proof {
                lemma_digits_value_grows(s@, i + 1);
            }
            return None;
        }
        acc = next as u64;
    }
    assert(s@.take(s@.len() as int) =~= s@);
    Some(acc)
}

/// Reads a `u64` written in decimal, with or without a plus sign.
pub fn parse_u64(s: &[char]) -> (r: Option<u64>)
    ensures
        r is Some <==> parse_u64_spec(s@) is Some,
        r matches Some(v) ==> parse_u64_spec(s@) == Some(v as nat),
{
    if s.len() > 0 && s[0] == '+' {
        let d: Vec<char> = chars_from(s, 1);
        digits_to(d.as_slice(), u64::MAX)
    } else {
        digits_to(s, u64::MAX)
    }
}

/// Reads a `u32` written in decimal, with or without a plus sign.
pub fn parse_u32(s: &[char]) -> (r: Option<u32>)
    ensures
        r is Some <==> parse_nat(s@, u32::MAX as nat) is Some,
        r matches Some(v) ==> parse_nat(s@, u32::MAX as nat) == Some(v as nat),
{
    let n: Option<u64> = if s.len() > 0 && s[0] == '+' {
        let d: Vec<char> = chars_from(s, 1);
        digits_to(d.as_slice(), 0xffff_ffff)
    } else {
        digits_to(s, 0xffff_ffff)
    };
    match n {
        Some(v) => Some(v as u32),
        None => None,
    }
}

/// Reads an `i64` written in decimal, with or without a sign.
pub fn parse_i64(s: &[char]) -> (r: Option<i64>)
    ensures
        r is Some <==> parse_i64_spec(s@) is Some,
        r matches Some(v) ==> parse_i64_spec(s@) == Some(v as int),
{
    if s.len() > 0 && s[0] == '-' {
        let d: Vec<char> = chars_from(s, 1);
        match digits_to(d.as_slice(), 0x8000_0000_0000_0000) {
            Some(v) => Some((-(v as i128)) as i64),
            None => None,
        }
    } else if s.len() > 0 && s[0] == '+' {
        let d: Vec<char> = chars_from(s, 1);
        match digits_to(d.as_slice(), 0x7fff_ffff_ffff_ffff) {
            Some(v) => Some(v as i64),
            None => None,
        }
    } else {
        match digits_to(s, 0x7fff_ffff_ffff_ffff) {
            Some(v) => Some(v as i64),
            None => None,
        }
    }
}

/// Appends the decimal form of `n`.
pub fn push_u64(s: &mut String, n: u64)
    ensures
        final(s)@ == old(s)@ + decimal(n as nat),
    decreases n,
{
    let ghost before = s@;
    if n >= 10 {
        push_u64(s, n / 10);
    }
    s.push((48u8 + (n % 10) as u8) as char);
    assert(s@ =~= before + decimal(n as nat));
}

/// Appends the decimal form of `n`.
pub fn push_i64(s: &mut String, n: i64)
    ensures
        final(s)@ == old(s)@ + decimal_int(n as int),
{
    let ghost before = s@;
    if n < 0 {
        s.push('-');
        push_u64(s, (-(n as i128)) as u64);
    } else {
        push_u64(s, n as u64);
    }
    assert(s@ =~= before + decimal_int(n as int));
}

// ---------------------------------------------------------------------------
// Laws
// ---------------------------------------------------------------------------

/// The texts of several strings are theirs one by one, in order.
pub proof fn law_texts_of_strings(v: Seq<String>, w: Seq<Vec<char>>)
    ensures
        string_views(v).len() == v.len(),
        forall|i: int| 0 <= i < v.len() ==> #[trigger] string_views(v)[i] == v[i]@,
        texts(w).len() == w.len(),
        forall|i: int| 0 <= i < w.len() ==> #[trigger] texts(w)[i] == w[i]@,
{
}

/// A text begins with another where the other and something behind it make it
/// up, and ends with another where something and the other do.
pub proof fn law_prefixes_and_suffixes(s: Seq<char>, p: Seq<char>)
    ensures
        starts_with(s, p) <==> exists|rest: Seq<char>| s == #[trigger] (p + rest),
        ends_with(s, p) <==> exists|rest: Seq<char>| s == #[trigger] (rest + p),
        starts_with(p + s, p),
        ends_with(s + p, p),
{
    assert((p + s).take(p.len() as int) =~= p);
    assert((s + p).skip(s.len() as int) =~= p);
    if starts_with(s, p) {
        assert(s =~= p + s.skip(p.len() as int));
    }
    if ends_with(s, p) {
        assert(s =~= s.take(s.len() - p.len()) + p);
    }
    if exists|rest: Seq<char>| s == #[trigger] (p + rest) {
        let rest = choose|rest: Seq<char>| s == #[trigger] (p + rest);
        assert(s.take(p.len() as int) =~= p);
    }
    if exists|rest: Seq<char>| s == #[trigger] (rest + p) {
        let rest = choose|rest: Seq<char>| s == #[trigger] (rest + p);
        assert(s.skip(s.len() - p.len()) =~= p);
    }
}

/// A text lacks a character where none of its characters is that one, and the
/// first position of a character has it at it and not before.
pub proof fn law_positions_of_characters(s: Seq<char>, c: char)
    ensures
        no_char(s, c) <==> !s.contains(c),
        s.contains(c) <==> index_of(s, c) < s.len(),
        s.contains(c) ==> s[index_of(s, c) as int] == c && !s.take(index_of(s, c) as int).contains(c),
        !s.contains(c) ==> index_of(s, c) == s.len(),
{
    lemma_index_of(s, c);
    let i = index_of(s, c) as int;
    if s.contains(c) && i == s.len() {
        assert(s.take(i) =~= s);
    }
}

/// A separator parts a text: what is before the first one is the first piece,
/// and what is behind it is parted alike. A text without one is one piece.
pub proof fn law_pieces_between_separators(a: Seq<char>, c: char, rest: Seq<char>)
    requires
        !a.contains(c),
    ensures
        split(a, c) == seq![a],
        split(a.push(c) + rest, c) == seq![a] + split(rest, c),
{
    assert(no_char(a, c)) by {
        assert forall|i: int| 0 <= i < a.len() implies a[i] != c by {
            assert(a.contains(a[i]));
        }
    }
    lemma_split_none(a, c);
    lemma_split_first(a, c, rest);
}

/// A line ends at its newline, and a carriage return before the newline is
/// part of the line's end. What is behind the last newline is a line of its
/// own, taken as it is, where there is anything.
pub proof fn law_lines_end_at_newlines(a: Seq<char>, rest: Seq<char>)
    requires
        !a.contains('\n'),
    ensures
        lines(Seq::<char>::empty()) == Seq::<Seq<char>>::empty(),
        a.len() > 0 ==> lines(a) == seq![a],
        lines(a.push('\r').push('\n') + rest) == seq![a] + lines(rest),
        a.len() == 0 || a.last() != '\r' ==> lines(a.push('\n') + rest) == seq![a] + lines(rest),
{
    assert(no_char(a, '\n')) by {
        assert forall|i: int| 0 <= i < a.len() implies a[i] != '\n' by {
            assert(a.contains(a[i]));
        }
    }
    assert(a.take(a.len() as int) =~= a);
    lemma_index_of_is(a, '\n', a.len());
    lemma_lines_first(a, rest);
    let b = a.push('\r');
    assert(no_char(b, '\n'));
    lemma_lines_first(b, rest);
    assert(b.drop_last() =~= a);
}

/// Numbers are written in decimal: a digit as its character, and a digit put
/// behind a number that is not zero makes ten times the number and the digit.
/// A minus sign stands before a negative number.
pub proof fn law_decimal_digits(n: nat, d: nat)
    requires
        d < 10,
    ensures
        decimal(d) == seq![(('0' as u32 + d) as u32) as char],
        n > 0 ==> decimal(10 * n + d) == decimal(n).push((('0' as u32 + d) as u32) as char),
        decimal_int(n as int) == decimal(n),
        n > 0 ==> decimal_int(-(n as int)) == seq!['-'] + decimal(n),
{
}

/// A text is read as a number one digit at a time: a digit stands for itself,
/// and a digit behind a number makes ten times the number and the digit.
pub proof fn law_numbers_are_read_digit_by_digit(s: Seq<char>, n: nat, c: char, max: nat)
    requires
        '0' as u32 <= c as u32 <= '9' as u32,
    ensures
        (c as u32 - '0' as u32) <= max ==> parse_nat(seq![c], max) == Some((c as u32 - '0' as u32) as nat),
        parse_nat(s, n) == Some(n) && 10 * n + (c as u32 - '0' as u32) <= max ==> parse_nat(s.push(c), max) == Some(
            (10 * n + (c as u32 - '0' as u32)) as nat,
        ),
{
    let one = seq![c];
    assert(one.drop_last() =~= seq![]);
    assert(digits_value(seq![]) == 0);
    assert(digits_value(one) == (c as u32 - 48) as nat);
    assert(is_digit(one[0]));
    if parse_nat(s, n) == Some(n) {
        let a = after_sign(s, '+');
        let b = after_sign(s.push(c), '+');
        assert(b =~= a.push(c));
        assert(a.push(c).drop_last() =~= a);
        assert forall|i: int| 0 <= i < b.len() implies is_digit(#[trigger] b[i]) by {
            if i < a.len() {
                assert(b[i] == a[i]);
            }
        }
    }
}

/// What is read as a number consists of digits, with a plus sign before them
/// or not, and of at least one; the sign changes nothing; and a number is read
/// where it is within the bound, and not beyond it.
pub proof fn law_what_is_a_number(s: Seq<char>, max: nat, other: nat)
    ensures
        parse_nat(s, max) is Some ==> {
            &&& s.len() > 0
            &&& '0' as u32 <= s.last() as u32 <= '9' as u32
            &&& forall|i: int| 0 < i < s.len() ==> '0' as u32 <= (#[trigger] s[i]) as u32 <= '9' as u32
            &&& '0' as u32 <= s[0] as u32 <= '9' as u32 || s[0] == '+'
        },
        s.len() > 0 && s[0] != '+' ==> parse_nat(seq!['+'] + s, max) == parse_nat(s, max),
        parse_nat(s, max) matches Some(n) ==> n <= max && parse_nat(s, other) == if n <= other {
            Some(n)
        } else {
            None
        },
{
    let d = after_sign(s, '+');
    if parse_nat(s, max) is Some {
        assert(is_digit(d[d.len() - 1]));
        assert forall|i: int| 0 < i < s.len() implies '0' as u32 <= (#[trigger] s[i]) as u32 <= '9' as u32 by {
            if s[0] == '+' {
                assert(is_digit(d[i - 1]));
            } else {
                assert(is_digit(d[i]));
            }
        }
        if s[0] != '+' {
            assert(is_digit(d[0]));
        }
    }
    assert((seq!['+'] + s).skip(1) =~= s);
}

/// A signed number is one without a minus sign, read as such, or a minus sign
/// and digits, read as the opposite number. Unsigned and signed numbers of 64
/// bits are those that fit.
pub proof fn law_signed_numbers(s: Seq<char>, min_abs: nat, max: nat)
    ensures
        s.len() == 0 || s[0] != '-' ==> parse_int(s, min_abs, max) == match parse_nat(s, max) {
            Some(n) => Some(n as int),
            None => None::<int>,
        },
        parse_int(seq!['-'] + s, min_abs, max) == if s.len() > 0 && s[0] != '+' {
            match parse_nat(s, min_abs) {
                Some(n) => Some(-(n as int)),
                None => None,
            }
        } else {
            None::<int>
        },
        parse_u64_spec(s) == parse_nat(s, 0xffff_ffff_ffff_ffff),
        parse_i64_spec(s) == parse_int(s, 0x8000_0000_0000_0000, 0x7fff_ffff_ffff_ffff),
{
    let m = seq!['-'] + s;
    assert(m.skip(1) =~= s);
    if s.len() > 0 && s[0] == '+' {
        assert(!is_digit(s[0]));
    }
}

/// A number is read back from its decimal form.
pub proof fn law_numbers_read_back(n: nat, i: int, max: nat, min_abs: nat)
    ensures
        n <= max ==> parse_nat(decimal(n), max) == Some(n),
        n > max ==> parse_nat(decimal(n), max) is None,
        -min_abs <= i <= max ==> parse_int(decimal_int(i), min_abs, max) == Some(i),
{
    lemma_parse_decimal(n, n);
    law_what_is_a_number(decimal(n), n, max);
    if -min_abs <= i <= max {
        lemma_parse_decimal_int(i, min_abs, max);
    }
}

} // verus!
