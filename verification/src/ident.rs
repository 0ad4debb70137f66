//! Identifiers: the UUID that addresses a file or directory, and the ULID
//! that orders events.
use vstd::prelude::*;
use crate::bytes::{digits_of, lemma_digits_injective, lemma_digits_len};
use crate::outside;

verus! {

/// A UUID, as its 128 bits. It is the stable identity of a file or directory.
#[derive(Clone, Copy, Debug, PartialEq, Eq, Hash, Structural)]
pub struct Uuid {
    pub bits: u128,
}

/// A ULID, as its 128 bits: the upper 48 are a time in milliseconds, the
/// lower 80 are random. Later ones are larger.
#[derive(Clone, Copy, Debug, PartialEq, Eq, Hash, Structural)]
pub struct Ulid {
    pub bits: u128,
}

// ---------------------------------------------------------------------------
// Text forms
// ---------------------------------------------------------------------------

/// A lower-case hexadecimal digit.
pub open spec fn hex_char(d: nat) -> char {
    if d < 10 {
        ((48 + d) as u8) as char
    } else {
        ((87 + d) as u8) as char
    }
}

/// The hyphenated form of a UUID: 32 lower-case hexadecimal digits in groups
/// of 8, 4, 4, 4 and 12.
pub open spec fn uuid_text(bits: u128) -> Seq<char> {
    let h = digits_of(bits as nat, 16, 32).map_values(|d: nat| hex_char(d));
    h.subrange(0, 8).push('-') + h.subrange(8, 12).push('-') + h.subrange(12, 16).push('-') + h.subrange(
        16,
        20,
    ).push('-') + h.subrange(20, 32)
}

/// The UUID is one of random bits: its version, the four bits from the 76th
/// on, is 4, and its variant, the two bits from the 62nd on, is that of
/// RFC 9562. The other 122 bits may be anything.
pub open spec fn is_version_4(bits: u128) -> bool {
    &&& (bits as nat / 0x1000_0000_0000_0000_0000) % 16 == 4
    &&& (bits as nat / 0x4000_0000_0000_0000) % 4 == 2
}

/// A digit of Crockford's base 32.
pub open spec fn base32_char(d: nat) -> char {
    "0123456789ABCDEFGHJKMNPQRSTVWXYZ"@[d as int]
}

/// The text form of a ULID: 26 digits in Crockford's base 32.
pub open spec fn ulid_text(bits: u128) -> Seq<char> {
    digits_of(bits as nat, 32, 26).map_values(|d: nat| base32_char(d))
}

/// A character that separates nothing in an object key or a stored line.
pub open spec fn key_char(c: char) -> bool {
    c != '_' && c != '/' && c != '!' && c != '.' && c != '\n' && c != '\r' && c != '\t'
}

/// Every character of `s` is one that separates nothing.
pub open spec fn key_text(s: Seq<char>) -> bool {
    forall|i: int| 0 <= i < s.len() ==> key_char(#[trigger] s[i])
}

pub proof fn lemma_uuid_text(bits: u128)
    ensures
        key_text(uuid_text(bits)),
        uuid_text(bits).len() == 36,
{
    lemma_digits_len(bits as nat, 16, 32);
    let g = digits_of(bits as nat, 16, 32);
    let h = g.map_values(|d: nat| hex_char(d));
    assert forall|i: int| 0 <= i < 32 implies key_char(#[trigger] h[i]) by {
        assert(g[i] < 16);
        assert(h[i] == hex_char(g[i]));
    }
    assert(key_text(h));
    let t = uuid_text(bits);
    assert forall|i: int| 0 <= i < t.len() implies key_char(#[trigger] t[i]) by {
        if i < 8 {
            assert(t[i] == h[i]);
        } else if 8 < i && i < 13 {
            assert(t[i] == h[i - 1]);
        } else if 13 < i && i < 18 {
            assert(t[i] == h[i - 2]);
        } else if 18 < i && i < 23 {
            assert(t[i] == h[i - 3]);
        } else if 23 < i {
            assert(t[i] == h[i - 4]);
        } else {
            assert(t[i] == '-');
        }
    }
}

/// A UUID's text tells which UUID it is.
pub proof fn lemma_uuid_text_injective(a: u128, b: u128)
    requires
        uuid_text(a) == uuid_text(b),
    ensures
        a == b,
{
    lemma_digits_len(a as nat, 16, 32);
    lemma_digits_len(b as nat, 16, 32);
    let f = digits_of(a as nat, 16, 32);
    let g = digits_of(b as nat, 16, 32);
    let h = f.map_values(|d: nat| hex_char(d));
    let k = g.map_values(|d: nat| hex_char(d));
    let t = uuid_text(a);
    let u = uuid_text(b);
    assert forall|i: int| 0 <= i < 32 implies f[i] == g[i] by {
        let at = if i < 8 {
            i
        } else if i < 12 {
            i + 1
        } else if i < 16 {
            i + 2
        } else if i < 20 {
            i + 3
        } else {
            i + 4
        };
        assert(t[at] == h[i]);
        assert(u[at] == k[i]);
        assert(f[i] < 16 && g[i] < 16);
        assert(hex_char(f[i]) == hex_char(g[i]));
    }
    assert(f =~= g);
    assert(vstd::arithmetic::power::pow(16, 32) == 0x1_0000_0000_0000_0000_0000_0000_0000_0000) by {
        reveal(vstd::arithmetic::power::pow);
        reveal_with_fuel(vstd::arithmetic::power::pow, 33);
    }
    lemma_digits_injective(a as nat, b as nat, 16, 32);
}

pub proof fn lemma_ulid_text(bits: u128)
    ensures
        key_text(ulid_text(bits)),
        ulid_text(bits).len() == 26,
{
    lemma_digits_len(bits as nat, 32, 26);
    reveal_strlit("0123456789ABCDEFGHJKMNPQRSTVWXYZ");
    let g = digits_of(bits as nat, 32, 26);
    let t = ulid_text(bits);
    assert forall|i: int| 0 <= i < 26 implies key_char(#[trigger] t[i]) by {
        assert(g[i] < 32);
        assert(t[i] == base32_char(g[i]));
    }
}

impl Uuid {
    /// The UUID of 128 zero bits.
    pub fn nil() -> (r: Uuid)
        ensures
            r.bits == 0,
    {
        Uuid { bits: 0 }
    }

    /// The UUID with the given bits.
    pub fn from_u128(bits: u128) -> (r: Uuid)
        ensures
            r.bits == bits,
    {
        Uuid { bits }
    }

    /// The bits of the UUID.
    pub fn as_u128(&self) -> (r: u128)
        ensures
            r == self.bits,
    {
        self.bits
    }

    /// A fresh random UUID. It is never the nil UUID, so no new directory or
    /// file takes the identity of the root. Of the random bits nothing is known.
    pub fn new_v4() -> (r: Uuid)
        ensures
            is_version_4(r.bits),
            r.bits != 0,
    {
        Uuid { bits: outside::random_uuid() }
    }

    /// The hyphenated form, which reads back as this UUID.
    pub fn to_text(&self) -> (r: String)
        ensures
            r@ == uuid_text(self.bits),
            outside::uuid_parsed(r@) == Some(self.bits),
    {
        outside::format_uuid(self.bits)
    }

    /// The UUID that a text denotes in one of the forms that the `uuid` crate
    /// reads.
    pub fn parse_str(s: &str) -> (r: Option<Uuid>)
        ensures
            r == match outside::uuid_parsed(s@) {
                Some(bits) => Some(Uuid { bits }),
                None => None,
            },
    {
        match outside::parse_uuid(s) {
            Some(bits) => Some(Uuid { bits }),
            None => None,
        }
    }
}

impl Ulid {
    /// A fresh ULID of the current time. Nothing is known of which.
    pub fn fresh() -> (r: Ulid) {
        Ulid { bits: outside::fresh_ulid() }
    }

    /// The text form, which reads back as this ULID.
    pub fn to_text(&self) -> (r: String)
        ensures
            r@ == ulid_text(self.bits),
            outside::ulid_parsed(r@) == Some(self.bits),
    {
        outside::format_ulid(self.bits)
    }

    /// The ULID that a text denotes.
    pub fn from_string(s: &str) -> (r: Option<Ulid>)
        ensures
            r == match outside::ulid_parsed(s@) {
                Some(bits) => Some(Ulid { bits }),
                None => None,
            },
    {
        match outside::parse_ulid(s) {
            Some(bits) => Some(Ulid { bits }),
            None => None,
        }
    }

    /// The time part, in milliseconds since the Unix epoch.
    pub open spec fn time_ms(self) -> nat {
        self.bits as nat / 0x1_0000_0000_0000_0000_0000
    }

    /// The time part, in milliseconds since the Unix epoch.
    pub fn timestamp_ms(&self) -> (r: u64)
        ensures
            r == self.time_ms(),
            r < 0x1_0000_0000_0000,
    {
        outside::ulid_time(self.bits)
    }
}

// ---------------------------------------------------------------------------
// Laws
// ---------------------------------------------------------------------------

/// Hexadecimal digits are the characters `0` to `9` and `a` to `f`.
pub proof fn law_hexadecimal_digits(d: nat)
    ensures
        d < 10 ==> hex_char(d) as u32 == '0' as u32 + d,
        10 <= d < 16 ==> hex_char(d) as u32 == 'a' as u32 + (d - 10),
{
}

/// Each digit of a number, from the most significant on.
proof fn lemma_digit(v: nat, base: nat, n: nat, i: int)
    requires
        base > 1,
        0 <= i < n,
    ensures
        digits_of(v, base, n).len() == n,
        digits_of(v, base, n)[i] == (v / (vstd::arithmetic::power::pow(base as int, (n - 1 - i) as nat) as nat)) % base,
        vstd::arithmetic::power::pow(base as int, (n - 1 - i) as nat) > 0,
    decreases n,
{
    reveal(vstd::arithmetic::power::pow);
    lemma_digits_len(v, base, n);
    vstd::arithmetic::power::lemma_pow_positive(base as int, (n - 1 - i) as nat);
    if i == n - 1 {
        assert(vstd::arithmetic::power::pow(base as int, 0) == 1);
        assert(v / 1 == v);
    } else {
        lemma_digit(v / base, base, (n - 1) as nat, i);
        let p = vstd::arithmetic::power::pow(base as int, (n - 2 - i) as nat);
        vstd::arithmetic::power::lemma_pow_positive(base as int, (n - 2 - i) as nat);
        assert(vstd::arithmetic::power::pow(base as int, (n - 1 - i) as nat) == base * p);
        vstd::arithmetic::div_mod::lemma_div_denominator(v as int, base as int, p);
    }
}

/// The text of a UUID has hyphens after 8, 12, 16 and 20 of its 32 digits; the
/// digits are those of its bits in base 16, most significant first.
pub proof fn law_uuid_text_is_hyphenated_hexadecimal(bits: u128, i: int)
    requires
        0 <= i < 32,
    ensures
        uuid_text(bits).len() == 36,
        uuid_text(bits)[8] == '-',
        uuid_text(bits)[13] == '-',
        uuid_text(bits)[18] == '-',
        uuid_text(bits)[23] == '-',
        ({
            let at = i + if i < 8 {
                0int
            } else if i < 12 {
                1
            } else if i < 16 {
                2
            } else if i < 20 {
                3
            } else {
                4
            };
            uuid_text(bits)[at] == hex_char(
                ((bits as nat) / (vstd::arithmetic::power::pow(16, (31 - i) as nat) as nat)) % 16,
            )
        }),
{
    lemma_digit(bits as nat, 16, 32, i);
    lemma_uuid_text(bits);
    let g = digits_of(bits as nat, 16, 32);
    lemma_digits_len(bits as nat, 16, 32);
    let h = g.map_values(|d: nat| hex_char(d));
    assert(h[i] == hex_char(g[i]));
    let t = uuid_text(bits);
    assert(t[8] == '-' && t[13] == '-' && t[18] == '-' && t[23] == '-');
}

/// The text of a ULID is its bits in base 32, 26 digits, most significant
/// first, over an alphabet without `I`, `L`, `O` and `U`.
pub proof fn law_ulid_text_is_base32(bits: u128, i: int)
    requires
        0 <= i < 26,
    ensures
        ulid_text(bits).len() == 26,
        ulid_text(bits)[i] == "0123456789ABCDEFGHJKMNPQRSTVWXYZ"@[(((bits as nat) / (vstd::arithmetic::power::pow(
            32,
            (25 - i) as nat,
        ) as nat)) % 32) as int],
{
    lemma_digit(bits as nat, 32, 26, i);
    lemma_ulid_text(bits);
}

/// A text tells which UUID it is of.
pub proof fn law_uuid_texts_differ(a: u128, b: u128)
    requires
        a != b,
    ensures
        uuid_text(a) != uuid_text(b),
{
    if uuid_text(a) == uuid_text(b) {
        lemma_uuid_text_injective(a, b);
    }
}

/// The texts that separate nothing are those without an underscore, a slash, an
/// exclamation mark, a dot, a line break or a tab.
pub proof fn law_separating_characters(s: Seq<char>)
    ensures
        key_text(s) <==> !(s.contains('_') || s.contains('/') || s.contains('!') || s.contains('.') || s.contains('\n')
            || s.contains('\r') || s.contains('\t')),
{
    if key_text(s) {
        assert forall|c: char| #[trigger] s.contains(c) implies key_char(c) by {
            let i = choose|i: int| 0 <= i < s.len() && s[i] == c;
            assert(key_char(s[i]));
        }
    } else {
        let i = choose|i: int| 0 <= i < s.len() && !key_char(#[trigger] s[i]);
        assert(s.contains(s[i]));
    }
}

/// A ULID's time is in its upper 48 bits: whatever the lower 80 are, it is read
/// back.
pub proof fn law_ulid_time_is_in_the_upper_bits(time: nat, random: nat)
    requires
        time < 0x1_0000_0000_0000,
        random < 0x1_0000_0000_0000_0000_0000,
    ensures
        (Ulid { bits: (time * 0x1_0000_0000_0000_0000_0000 + random) as u128 }).time_ms() == time,
{
}

/// A version 4 UUID has the digit 4 in the third group's first place and one of
/// 8, 9, a and b in the fourth group's.
pub proof fn law_version_4(bits: u128)
    requires
        is_version_4(bits),
    ensures
        ((bits as nat) / 0x1000_0000_0000_0000_0000) % 16 == 4,
        8 <= ((bits as nat) / 0x1000_0000_0000_0000) % 16 < 12,
        bits != 0,
{
}

} // verus!
