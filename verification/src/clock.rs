//! Time as the library reckons it: milliseconds since the Unix epoch, in an
//! `i64` that saturates instead of wrapping.
use vstd::prelude::*;

verus! {

/// The `i64` nearest to `x`.
pub open spec fn clamp_i64(x: int) -> i64 {
    if x > i64::MAX {
        i64::MAX
    } else if x < i64::MIN {
        i64::MIN
    } else {
        x as i64
    }
}

/// `a + b`, held at the ends of the `i64` range.
pub fn saturating_sum(a: i64, b: i64) -> (r: i64)
    ensures
        r == clamp_i64(a + b),
{
    let sum: i128 = a as i128 + b as i128;
    if sum > i64::MAX as i128 {
        i64::MAX
    } else if sum < i64::MIN as i128 {
        i64::MIN
    } else {
        sum as i64
    }
}

/// The number that the 64 bits of `n` denote in two's complement.
pub open spec fn as_signed(n: u64) -> int {
    if n <= i64::MAX {
        n as int
    } else {
        n - 0x1_0000_0000_0000_0000
    }
}

/// The 64 bits of `n` read as a signed number.
pub fn signed_bits(n: u64) -> (r: i64)
    ensures
        r == as_signed(n),
{
    if n <= 0x7fff_ffff_ffff_ffff {
        n as i64
    } else {
        (n as i128 - 0x1_0000_0000_0000_0000) as i64
    }
}

/// When a lease or lock taken at `now_ms` for `ttl_ms` expires.
pub open spec fn expiry(now_ms: i64, ttl_ms: u64) -> i64 {
    clamp_i64(now_ms + as_signed(ttl_ms))
}

pub fn expires_at(now_ms: i64, ttl_ms: u64) -> (r: i64)
    ensures
        r == expiry(now_ms, ttl_ms),
{
    saturating_sum(now_ms, signed_bits(ttl_ms))
}

/// `Duration::as_millis` of std: the whole milliseconds of a span. Spans are
/// opaque here, so nothing is claimed of the number.
pub assume_specification[ std::time::Duration::as_millis ](d: &std::time::Duration) -> (r: u128);

/// `SystemTime::elapsed` of std, asked of the Unix epoch: the time since then;
/// `None` where the clock stands before it. It depends on the clock, so
/// nothing is claimed of it.
#[verifier::external_body]
fn clock_reading() -> (r: Option<std::time::Duration>) {
    match std::time::UNIX_EPOCH.elapsed() {
        Ok(span) => Some(span),
        Err(_) => None,
    }
}

/// The time that a clock reading stands for: zero for a clock before the
/// epoch, the largest `i64` for one too late to represent.
pub open spec fn reading_ms(reading: Option<u128>) -> i64 {
    match reading {
        Some(ms) => clamp_i64(ms as int),
        None => 0,
    }
}

pub fn time_of_reading(reading: Option<u128>) -> (r: i64)
    ensures
        r == reading_ms(reading),
{
    match reading {
        Some(ms) => if ms > 0x7fff_ffff_ffff_ffff {
            i64::MAX
        } else {
            ms as i64
        },
        None => 0,
    }
}

/// The current time in milliseconds since the Unix epoch.
pub fn unix_now_ms() -> (r: i64)
    ensures
        r >= 0,
{
    match clock_reading() {
        Some(span) => time_of_reading(Some(span.as_millis())),
        None => time_of_reading(None),
    }
}

// ---------------------------------------------------------------------------
// Laws
// ---------------------------------------------------------------------------

/// Times saturate: within the range of `i64` a number stays what it is, and
/// beyond an end it becomes that end.
pub proof fn law_times_saturate(x: int)
    ensures
        -0x8000_0000_0000_0000 <= x <= 0x7fff_ffff_ffff_ffff ==> clamp_i64(x) == x,
        x > 0x7fff_ffff_ffff_ffff ==> clamp_i64(x) == 0x7fff_ffff_ffff_ffff,
        x < -0x8000_0000_0000_0000 ==> clamp_i64(x) == -0x8000_0000_0000_0000,
{
}

/// A number of 64 bits read as a signed one differs from the unsigned one by
/// nothing or by the number of values, whichever lies in the signed range.
pub proof fn law_signed_reading(n: u64)
    ensures
        as_signed(n) == n || as_signed(n) == n - 0x1_0000_0000_0000_0000,
        -0x8000_0000_0000_0000 <= as_signed(n) <= 0x7fff_ffff_ffff_ffff,
{
}

/// A time to live is added to the time at which it begins; the sum does not
/// wrap.
pub proof fn law_expiry_is_begin_and_ttl(now_ms: i64, ttl_ms: u64)
    ensures
        ttl_ms <= i64::MAX && now_ms + ttl_ms <= i64::MAX ==> expiry(now_ms, ttl_ms) == now_ms + ttl_ms,
        ttl_ms <= i64::MAX && now_ms + ttl_ms > i64::MAX ==> expiry(now_ms, ttl_ms) == i64::MAX,
        ttl_ms <= i64::MAX ==> expiry(now_ms, ttl_ms) >= now_ms,
        ttl_ms > i64::MAX && now_ms + ttl_ms - 0x1_0000_0000_0000_0000 >= i64::MIN ==> expiry(now_ms, ttl_ms) == now_ms
            + ttl_ms - 0x1_0000_0000_0000_0000,
        ttl_ms > i64::MAX && now_ms + ttl_ms - 0x1_0000_0000_0000_0000 < i64::MIN ==> expiry(now_ms, ttl_ms)
            == i64::MIN,
{
}

/// A reading of the clock is the time it gives, as far as that can be
/// represented; a clock before the epoch reads zero.
pub proof fn law_readings_are_times(ms: u128)
    ensures
        reading_ms(None) == 0,
        ms <= 0x7fff_ffff_ffff_ffff ==> reading_ms(Some(ms)) == ms,
        ms > 0x7fff_ffff_ffff_ffff ==> reading_ms(Some(ms)) == 0x7fff_ffff_ffff_ffff,
{
}

} // verus!
