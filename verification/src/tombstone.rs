//! The bodies of the two scatter objects of a delete: the marker that an
//! unlink leaves, and the tombstone that compaction makes of it.
use vstd::prelude::*;
use vstd::slice::slice_subrange;
use crate::bytes::{
    bits_of, law_eight_bytes_round_trip, le_bytes, le_value, lemma_le_bytes_len, lemma_le_round_trip, lemma_u64_fits,
    push_le, read_le, unsigned_of,
};
use crate::clock::{as_signed, clamp_i64, saturating_sum, signed_bits};
use crate::error::Error;

verus! {

/// Header carried in the body of a Delete (tombstone) scatter object:
///
/// ```text
/// +------------------------+----------------------+
/// | TombstoneHeader (16 B) | inode (160 B)        |
/// +------------------------+----------------------+
/// ```
///
/// The inode is verbatim, so that the entry can be rebuilt from the tombstone
/// alone. Both numbers are stored least significant byte first.
#[derive(Clone, Copy, Debug, PartialEq, Eq, Structural)]
pub struct TombstoneHeader {
    /// Wall-clock time the deletion was carried out, in milliseconds since
    /// the Unix epoch.
    pub deleted_at_unix_ms: i64,
    /// Earliest wall-clock time at which the child's prefix may be reclaimed.
    /// Zero means no retention.
    pub retention_until_unix_ms: i64,
}

impl TombstoneHeader {
    /// Size of the header in bytes.
    pub const SIZE: usize = 16;
}

/// The number stored in eight bytes, as a signed one.
pub open spec fn stored_i64(s: Seq<u8>) -> i64 {
    as_signed(le_value(s) as u64) as i64
}

/// The body of a tombstone.
pub open spec fn tombstone_bytes(h: TombstoneHeader, inode: Seq<u8>) -> Seq<u8> {
    le_bytes(unsigned_of(h.deleted_at_unix_ms) as nat, 8) + le_bytes(
        unsigned_of(h.retention_until_unix_ms) as nat,
        8,
    ) + inode
}

/// The header at the head of a tombstone's body.
pub open spec fn header_of(buf: Seq<u8>) -> TombstoneHeader {
    TombstoneHeader {
        deleted_at_unix_ms: stored_i64(buf.subrange(0, 8)),
        retention_until_unix_ms: stored_i64(buf.subrange(8, 16)),
    }
}

proof fn lemma_stored_i64(v: i64)
    ensures
        stored_i64(le_bytes(unsigned_of(v) as nat, 8)) == v,
{
    lemma_u64_fits(unsigned_of(v));
    lemma_le_round_trip(unsigned_of(v) as nat, 8);
}

/// A tombstone says what it was made of: header and inode are read back from
/// its body as they were written.
pub proof fn law_tombstone_round_trip(h: TombstoneHeader, inode: Seq<u8>)
    ensures
        header_of(tombstone_bytes(h, inode)) == h,
        tombstone_bytes(h, inode).skip(16) == inode,
        tombstone_bytes(h, inode).len() == 16 + inode.len(),
{
    let a = le_bytes(unsigned_of(h.deleted_at_unix_ms) as nat, 8);
    let b = le_bytes(unsigned_of(h.retention_until_unix_ms) as nat, 8);
    let buf = tombstone_bytes(h, inode);
    lemma_le_bytes_len(unsigned_of(h.deleted_at_unix_ms) as nat, 8);
    lemma_le_bytes_len(unsigned_of(h.retention_until_unix_ms) as nat, 8);
    assert(buf.subrange(0, 8) =~= a);
    assert(buf.subrange(8, 16) =~= b);
    assert(buf.skip(16) =~= inode);
    lemma_stored_i64(h.deleted_at_unix_ms);
    lemma_stored_i64(h.retention_until_unix_ms);
}

/// Build the body of a Delete scatter: the header followed by the raw inode
/// bytes of the child.
pub fn build_tombstone_body(
    deleted_at_unix_ms: i64,
    retention_until_unix_ms: i64,
    inode_raw_bytes: &[u8],
) -> (r: Vec<u8>)
    ensures
        r@ == tombstone_bytes(TombstoneHeader { deleted_at_unix_ms, retention_until_unix_ms }, inode_raw_bytes@),
{
    let mut body: Vec<u8> = Vec::new();
    push_le(&mut body, bits_of(deleted_at_unix_ms));
    push_le(&mut body, bits_of(retention_until_unix_ms));
    body.extend_from_slice(inode_raw_bytes);
    assert(body@ =~= tombstone_bytes(
        TombstoneHeader { deleted_at_unix_ms, retention_until_unix_ms },
        inode_raw_bytes@,
    ));
    body
}

/// Parse a tombstone's body into its header and the inode bytes behind it.
pub fn parse_tombstone_body(buf: &[u8]) -> (r: Result<(TombstoneHeader, &[u8]), Error>)
    ensures
        if buf.len() < 16 {
            r == Err::<(TombstoneHeader, &[u8]), Error>(Error::TombstoneTooSmall)
        } else {
            r matches Ok(v) && v.0 == header_of(buf@) && v.1@ == buf@.skip(16)
        },
{
    if buf.len() < TombstoneHeader::SIZE {
        return Err(Error::TombstoneTooSmall);
    }
    let deleted_at_unix_ms: i64 = signed_bits(read_le(buf, 0));
    let retention_until_unix_ms: i64 = signed_bits(read_le(buf, 8));
    let rest: &[u8] = slice_subrange(buf, 16, buf.len());
    assert(rest@ =~= buf@.skip(16));
    Ok((TombstoneHeader { deleted_at_unix_ms, retention_until_unix_ms }, rest))
}

// ---------------------------------------------------------------------------
// Unlink markers
// ---------------------------------------------------------------------------

/// The body of a PreDelete scatter, the first phase of a delete: what the
/// second phase needs and cannot find out later. One byte tells a directory
/// from a file, eight hold the retention deadline.
#[derive(Clone, Copy, Debug, PartialEq, Eq, Structural)]
pub struct UnlinkMarker {
    pub is_dir: bool,
    pub retention_until_unix_ms: i64,
}

/// The body of an unlink marker.
pub open spec fn marker_bytes(m: UnlinkMarker) -> Seq<u8> {
    seq![if m.is_dir { 1u8 } else { 0u8 }] + le_bytes(unsigned_of(m.retention_until_unix_ms) as nat, 8)
}

/// The marker that a body holds.
pub open spec fn marker_of(buf: Seq<u8>) -> Option<UnlinkMarker> {
    if buf.len() == 9 && buf[0] <= 1 {
        Some(UnlinkMarker { is_dir: buf[0] == 1, retention_until_unix_ms: stored_i64(buf.subrange(1, 9)) })
    } else {
        None
    }
}

/// An unlink marker says what it was made of.
pub proof fn law_unlink_marker_round_trip(m: UnlinkMarker)
    ensures
        marker_of(marker_bytes(m)) == Some(m),
{
    lemma_le_bytes_len(unsigned_of(m.retention_until_unix_ms) as nat, 8);
    assert(marker_bytes(m).subrange(1, 9) =~= le_bytes(unsigned_of(m.retention_until_unix_ms) as nat, 8));
    lemma_stored_i64(m.retention_until_unix_ms);
}

impl UnlinkMarker {
    /// The body of the marker.
    pub fn to_body(&self) -> (r: Vec<u8>)
        ensures
            r@ == marker_bytes(*self),
    {
        let mut body: Vec<u8> = Vec::new();
        if self.is_dir {
            body.push(1);
        } else {
            body.push(0);
        }
        push_le(&mut body, bits_of(self.retention_until_unix_ms));
        assert(body@ =~= marker_bytes(*self));
        body
    }

    /// The marker that a body holds.
    pub fn from_body(buf: &[u8]) -> (r: Result<UnlinkMarker, Error>)
        ensures
            r == match marker_of(buf@) {
                Some(m) => Ok(m),
                None => Err(Error::MalformedMarker),
            },
    {
        if buf.len() != 9 || buf[0] > 1 {
            return Err(Error::MalformedMarker);
        }
        Ok(UnlinkMarker { is_dir: buf[0] == 1, retention_until_unix_ms: signed_bits(read_le(buf, 1)) })
    }
}

/// The retention deadline of a deletion requested at `now_ms`: none is zero.
pub open spec fn deadline(now_ms: i64, retention_ms: Option<u128>) -> i64 {
    match retention_ms {
        None => 0,
        Some(d) => clamp_i64(now_ms + clamp_i64(d as int)),
    }
}

/// The retention deadline of a deletion requested at `now_ms`.
pub fn retention_deadline(now_ms: i64, retention_ms: Option<u128>) -> (r: i64)
    ensures
        r == deadline(now_ms, retention_ms),
{
    match retention_ms {
        None => 0,
        Some(d) => {
            let span: i64 = if d > 0x7fff_ffff_ffff_ffff {
                i64::MAX
            } else {
                d as i64
            };
            saturating_sum(now_ms, span)
        },
    }
}

/// The marker that an unlink of a child at `now_ms` emits.
pub fn unlink_marker(child_is_dir: bool, now_ms: i64, retention_ms: Option<u128>) -> (r: UnlinkMarker)
    ensures
        r == (UnlinkMarker { is_dir: child_is_dir, retention_until_unix_ms: deadline(now_ms, retention_ms) }),
{
    UnlinkMarker { is_dir: child_is_dir, retention_until_unix_ms: retention_deadline(now_ms, retention_ms) }
}

// ---------------------------------------------------------------------------
// Laws of the stored form
// ---------------------------------------------------------------------------

/// What is read of a tombstone is all there is to it: written again, header and
/// inode make the same body.
pub proof fn law_tombstone_read_and_written_again(buf: Seq<u8>)
    requires
        buf.len() >= 16,
    ensures
        tombstone_bytes(header_of(buf), buf.skip(16)) == buf,
{
    let a = buf.subrange(0, 8);
    let b = buf.subrange(8, 16);
    law_eight_bytes_round_trip(0, a);
    law_eight_bytes_round_trip(0, b);
    assert(unsigned_of(stored_i64(a)) == le_value(a));
    assert(unsigned_of(stored_i64(b)) == le_value(b));
    assert(a + b + buf.skip(16) =~= buf);
}

/// The numbers of a tombstone are stored least significant byte first: the
/// time of the deletion in the first eight bytes, the deadline in the next.
pub proof fn law_tombstone_numbers(h: TombstoneHeader, inode: Seq<u8>)
    requires
        0 <= h.deleted_at_unix_ms,
        0 <= h.retention_until_unix_ms,
    ensures
        le_value(tombstone_bytes(h, inode).subrange(0, 8)) == h.deleted_at_unix_ms,
        le_value(tombstone_bytes(h, inode).subrange(8, 16)) == h.retention_until_unix_ms,
{
    let a = le_bytes(h.deleted_at_unix_ms as nat, 8);
    let b = le_bytes(h.retention_until_unix_ms as nat, 8);
    lemma_le_bytes_len(h.deleted_at_unix_ms as nat, 8);
    lemma_le_bytes_len(h.retention_until_unix_ms as nat, 8);
    assert(tombstone_bytes(h, inode).subrange(0, 8) =~= a);
    assert(tombstone_bytes(h, inode).subrange(8, 16) =~= b);
    law_eight_bytes_round_trip(h.deleted_at_unix_ms as u64, a);
    law_eight_bytes_round_trip(h.retention_until_unix_ms as u64, b);
}

/// A body is that of an unlink marker where it has nine bytes and the first is
/// zero or one, and the marker that is read of it makes the same body.
pub proof fn law_marker_read_and_written_again(buf: Seq<u8>)
    ensures
        marker_of(buf) is Some <==> buf.len() == 9 && (buf[0] == 0 || buf[0] == 1),
        marker_of(buf) matches Some(m) ==> marker_bytes(m) == buf && m.is_dir == (buf[0] == 1),
        buf.len() == 9 && marker_of(buf) is Some && marker_of(buf)->Some_0.retention_until_unix_ms >= 0 ==> le_value(
            buf.subrange(1, 9),
        ) == marker_of(buf)->Some_0.retention_until_unix_ms,
{
    if buf.len() == 9 {
        let a = buf.subrange(1, 9);
        law_eight_bytes_round_trip(0, a);
        assert(unsigned_of(stored_i64(a)) == le_value(a));
        assert(seq![buf[0]] + a =~= buf);
    }
}

/// A deadline is the time of the request and the retention; it does not wrap.
/// Without a retention it is zero.
pub proof fn law_deadline_is_request_and_retention(now_ms: i64, d: u128)
    ensures
        deadline(now_ms, None) == 0,
        d <= i64::MAX && now_ms + d <= i64::MAX ==> deadline(now_ms, Some(d)) == now_ms + d,
        d <= i64::MAX && now_ms + d > i64::MAX ==> deadline(now_ms, Some(d)) == i64::MAX,
        d > i64::MAX ==> deadline(now_ms, Some(d)) == deadline(now_ms, Some(i64::MAX as u128)),
{
}

} // verus!
