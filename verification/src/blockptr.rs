//! Block pointers of a directory's B-tree, as they are shown to people.
//!
//! A pointer has a location in its two upper bits, a segment in the next 30,
//! and a place in the segment in the lower 32, in one of two formats.
use vstd::prelude::*;
use crate::ident::hex_char;
use crate::text::{decimal, push_text, push_u64};

verus! {

/// How a pointer gives the place in a segment.
#[derive(Clone, Copy, Debug, PartialEq, Eq, Structural)]
pub enum PtrFormat {
    /// Not at all.
    Nop,
    /// By its byte offset.
    Flat,
    /// By its 4 KiB block, in the upper 18 of the 32 bits; the lower 14 are a
    /// group number.
    MicroGroup,
}

/// The pointer that stands for a placeholder.
pub const PTR_DUMMY: u64 = 0x3fff_ffff_ffff_ffff;

/// The pointer that stands for a block of zeros.
pub const PTR_ZERO_BLOCK: u64 = 0x3fff_ffff_0000_0000;

/// The pointer that stands for no block.
pub const PTR_INVALID: u64 = 0;

/// The pointer is to a block in the staging area: its two upper bits are 01.
pub open spec fn on_staging(ptr: u64) -> bool {
    ptr as nat / 0x4000_0000_0000_0000 == 1
}

/// The segment that a pointer gives.
pub open spec fn segment_of(ptr: u64, fmt: PtrFormat) -> nat {
    match fmt {
        PtrFormat::Nop => 0,
        _ => (ptr as nat / 0x1_0000_0000) % 0x4000_0000,
    }
}

/// The byte offset in the segment that a pointer gives.
pub open spec fn offset_of(ptr: u64, fmt: PtrFormat) -> nat {
    match fmt {
        PtrFormat::Nop => 0,
        PtrFormat::Flat => ptr as nat % 0x1_0000_0000,
        PtrFormat::MicroGroup => ((ptr as nat / 0x4000) % 0x4_0000) * 4096,
    }
}

/// The hexadecimal digits of `n`, without leading zeros.
pub open spec fn hex(n: nat) -> Seq<char>
    decreases n,
{
    if n < 16 {
        seq![hex_char(n)]
    } else {
        hex(n / 16).push(hex_char(n % 16))
    }
}

/// What is shown of a pointer.
pub open spec fn ptr_text(ptr: u64, fmt: PtrFormat) -> Seq<char> {
    if ptr == PTR_DUMMY {
        "[Dummy]"@
    } else if ptr == PTR_INVALID {
        "[Invalid]"@
    } else if ptr == PTR_ZERO_BLOCK {
        "[Zero Block]"@
    } else if on_staging(ptr) {
        "[Staging: id "@ + decimal(segment_of(ptr, fmt)) + " - offset "@ + decimal(offset_of(ptr, fmt))
            + " - group "@ + decimal(ptr as nat % 0x4000) + "]"@
    } else {
        "[Unknown: 0x"@ + hex(ptr as nat) + "]"@
    }
}

/// Appends the hexadecimal digits of `n`.
fn push_hex(s: &mut String, n: u64)
    ensures
        final(s)@ == old(s)@ + hex(n as nat),
    decreases n,
{
    let ghost before = s@;
    if n >= 16 {
        push_hex(s, n / 16);
    }
    let d: u8 = (n % 16) as u8;
    if d < 10 {
        s.push((48 + d) as char);
    } else {
        s.push((87 + d) as char);
    }
    assert(s@ =~= before + hex(n as nat));
}

/// Segment and byte offset that a pointer gives.
pub fn decode_ptr(ptr: u64, fmt: PtrFormat) -> (r: (u64, u64))
    ensures
        r.0 == segment_of(ptr, fmt),
        r.1 == offset_of(ptr, fmt),
{
    let segment: u64 = (ptr / 0x1_0000_0000) % 0x4000_0000;
    match fmt {
        PtrFormat::Nop => (0, 0),
        PtrFormat::Flat => (segment, ptr % 0x1_0000_0000),
        PtrFormat::MicroGroup => (segment, ((ptr / 0x4000) % 0x4_0000) * 4096),
    }
}

/// What is shown of a pointer.
pub fn display_ptr(ptr: u64, fmt: PtrFormat) -> (r: String)
    ensures
        r@ == ptr_text(ptr, fmt),
{
    if ptr == PTR_DUMMY {
        "[Dummy]".to_string()
    } else if ptr == PTR_INVALID {
        "[Invalid]".to_string()
    } else if ptr == PTR_ZERO_BLOCK {
        "[Zero Block]".to_string()
    } else if ptr / 0x4000_0000_0000_0000 == 1 {
        let (segment, offset): (u64, u64) = decode_ptr(ptr, fmt);
        let mut s: String = "[Staging: id ".to_string();
        push_u64(&mut s, segment);
        push_text(&mut s, " - offset ");
        push_u64(&mut s, offset);
        push_text(&mut s, " - group ");
        push_u64(&mut s, ptr % 0x4000);
        push_text(&mut s, "]");
        s
    } else {
        let mut s: String = "[Unknown: 0x".to_string();
        push_hex(&mut s, ptr);
        push_text(&mut s, "]");
        s
    }
}

// ---------------------------------------------------------------------------
// Laws
// ---------------------------------------------------------------------------

/// A pointer is made of its location, its segment and its place in the segment:
/// these are read back from it.
pub proof fn law_pointers_are_made_of_their_parts(location: nat, segment: nat, place: nat, ptr: u64)
    requires
        location < 4,
        segment < 0x4000_0000,
        place < 0x1_0000_0000,
        ptr == location * 0x4000_0000_0000_0000 + segment * 0x1_0000_0000 + place,
    ensures
        on_staging(ptr) <==> location == 1,
        segment_of(ptr, PtrFormat::Flat) == segment,
        segment_of(ptr, PtrFormat::MicroGroup) == segment,
        segment_of(ptr, PtrFormat::Nop) == 0,
        offset_of(ptr, PtrFormat::Flat) == place,
        offset_of(ptr, PtrFormat::Nop) == 0,
{
    let p = ptr as nat;
    let upper = location * 0x4000_0000 + segment;
    assert(p == upper * 0x1_0000_0000 + place);
    assert(p / 0x1_0000_0000 == upper);
    assert(p % 0x1_0000_0000 == place);
    assert(upper % 0x4000_0000 == segment);
    let lower = segment * 0x1_0000_0000 + place;
    assert(lower < 0x4000_0000_0000_0000);
    assert(p == location * 0x4000_0000_0000_0000 + lower);
    assert(p / 0x4000_0000_0000_0000 == location);
}

/// In the second format the place in the segment is a block of 4096 bytes and a
/// group number.
pub proof fn law_places_are_blocks_and_groups(upper: nat, block: nat, group: nat, ptr: u64)
    requires
        block < 0x4_0000,
        group < 0x4000,
        ptr == upper * 0x1_0000_0000 + block * 0x4000 + group,
    ensures
        offset_of(ptr, PtrFormat::MicroGroup) == block * 4096,
{
    let p = ptr as nat;
    let q = upper * 0x4_0000 + block;
    assert(p == q * 0x4000 + group);
    assert(p / 0x4000 == q);
    assert(q % 0x4_0000 == block);
}

/// Numbers are written in hexadecimal: a digit as its character, and a digit
/// put behind a number that is not zero makes sixteen times the number and the
/// digit.
pub proof fn law_hexadecimal_numbers(n: nat, d: nat)
    requires
        d < 16,
    ensures
        hex(d) == seq![hex_char(d)],
        n > 0 ==> hex(16 * n + d) == hex(n).push(hex_char(d)),
{
}

/// Three pointers are shown by name, others by their parts where they are to
/// the staging area, and by their number where they are not.
pub proof fn law_what_is_shown_of_pointers(ptr: u64, fmt: PtrFormat)
    ensures
        ptr_text(0x3fff_ffff_ffff_ffff, fmt) == "[Dummy]"@,
        ptr_text(0, fmt) == "[Invalid]"@,
        ptr_text(0x3fff_ffff_0000_0000, fmt) == "[Zero Block]"@,
        0x4000_0000_0000_0000 <= ptr < 0x8000_0000_0000_0000 ==> ptr_text(ptr, fmt) == "[Staging: id "@ + decimal(
            segment_of(ptr, fmt),
        ) + " - offset "@ + decimal(offset_of(ptr, fmt)) + " - group "@ + decimal((ptr % 0x4000) as nat) + "]"@,
        ptr != 0x3fff_ffff_ffff_ffff && ptr != 0 && ptr != 0x3fff_ffff_0000_0000 && !(0x4000_0000_0000_0000 <= ptr
            < 0x8000_0000_0000_0000) ==> ptr_text(ptr, fmt) == "[Unknown: 0x"@ + hex(ptr as nat) + "]"@,
{
}

} // verus!
