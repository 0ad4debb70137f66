//! Link counts and hard links.
//!
//! A file's link count is authoritative in the file's own inode. It is changed
//! by a read-modify-write that another writer can make fail and that is then
//! tried again.
use vstd::prelude::*;
use vstd::utf8::encode_utf8;
use crate::clock::{as_signed, signed_bits};
use crate::error::Error;
use crate::lock::{OccNext, PutOutcome};
use crate::ident::Uuid;
use crate::ondisk::{padded, trimmed, DirFileEntryRaw, InodeRaw, INODE_RAW_SIZE};
use crate::outside::{inode_fields, read_inode, write_inode_links};

verus! {

/// Maximum optimistic-concurrency retries for an nlink read-modify-write.
pub const NLINK_RETRIES: usize = 5;

/// Bits of a mode word that tell the file type.
pub const S_IFMT: u32 = 0xf000;

/// File type of a directory.
pub const S_IFDIR: u32 = 0x4000;

/// True if a Unix mode word denotes a directory.
pub fn is_dir_mode(mode: u32) -> (r: bool)
    ensures
        r == (mode & S_IFMT == S_IFDIR),
{
    mode & S_IFMT == S_IFDIR
}

/// The mode word after a change of permissions: the file type stays.
pub fn chmod_mode(st_mode: u32, mode: u32) -> (r: u32)
    ensures
        r == (st_mode & S_IFMT) | (mode & !S_IFMT),
{
    (st_mode & S_IFMT) | (mode & !S_IFMT)
}

/// A change of permissions sets the permission bits to those asked for and
/// leaves the file type alone; a directory stays one and nothing becomes one.
pub proof fn law_chmod_keeps_the_file_type(st_mode: u32, mode: u32)
    ensures
        ((st_mode & S_IFMT) | (mode & !S_IFMT)) & S_IFMT == st_mode & S_IFMT,
        ((st_mode & S_IFMT) | (mode & !S_IFMT)) & !S_IFMT == mode & !S_IFMT,
{
    assert(((st_mode & 0xf000) | (mode & !0xf000u32)) & 0xf000 == st_mode & 0xf000) by (bit_vector);
    assert(((st_mode & 0xf000) | (mode & !0xf000u32)) & !0xf000u32 == mode & !0xf000u32) by (bit_vector);
}

// ---------------------------------------------------------------------------
// Link counts
// ---------------------------------------------------------------------------

/// The link count `nlink` changed by `delta`; it does not go below zero.
pub open spec fn changed_links(nlink: u64, delta: i64) -> u64 {
    if as_signed(nlink) + delta < 0 {
        0
    } else {
        (as_signed(nlink) + delta) as u64
    }
}

/// The link count can be changed by `delta` without leaving the range of
/// counts.
pub open spec fn links_in_range(nlink: u64, delta: i64) -> bool {
    i64::MIN <= as_signed(nlink) + delta <= i64::MAX
}

/// The link count `nlink` changed by `delta`; it does not go below zero.
pub fn adjusted_nlink(nlink: u64, delta: i64) -> (r: u64)
    requires
        links_in_range(nlink, delta),
    ensures
        r == changed_links(nlink, delta),
{
    let sum: i64 = signed_bits(nlink) + delta;
    if sum < 0 {
        0
    } else {
        sum as u64
    }
}

/// The link count `nlink` changed by `delta`; `None` where the count would
/// leave its range.
pub fn checked_nlink(nlink: u64, delta: i64) -> (r: Option<u64>)
    ensures
        r == if links_in_range(nlink, delta) {
            Some(changed_links(nlink, delta))
        } else {
            None
        },
{
    let sum: i128 = signed_bits(nlink) as i128 + delta as i128;
    if sum < i64::MIN as i128 || sum > i64::MAX as i128 {
        None
    } else {
        Some(adjusted_nlink(nlink, delta))
    }
}

/// An inode with its link count changed.
#[derive(Debug)]
pub struct Relinked {
    pub inode: Vec<u8>,
    pub nlink: u64,
}

/// The inode stored in `inode` with its link count changed by `delta`; `None`
/// where the count would leave its range. Nothing else of the inode changes.
pub fn relink_inode(inode: &[u8], delta: i64) -> (r: Option<Relinked>)
    requires
        inode.len() == INODE_RAW_SIZE,
    ensures
        r is Some <==> links_in_range(inode_fields(inode@).1, delta),
        r matches Some(v) ==> {
            &&& v.nlink == changed_links(inode_fields(inode@).1, delta)
            &&& v.inode.len() == INODE_RAW_SIZE
            &&& inode_fields(v.inode@) == (inode_fields(inode@).0, v.nlink)
            &&& forall|i: int| 0 <= i < 160 && !(64 <= i < 72) ==> v.inode@[i] == inode@[i]
        },
{
    let (_, nlink): (u32, u64) = read_inode(inode);
    match checked_nlink(nlink, delta) {
        Some(next) => Some(Relinked { inode: write_inode_links(inode, next), nlink: next }),
        None => None,
    }
}

/// The link count that a stored inode holds.
pub fn stored_nlink(inode: &[u8]) -> (r: u64)
    requires
        inode.len() == INODE_RAW_SIZE,
    ensures
        r == inode_fields(inode@).1,
{
    let (_, nlink): (u32, u64) = read_inode(inode);
    nlink
}

/// Whether a stored inode is a directory's.
pub fn stored_is_dir(inode: &[u8]) -> (r: bool)
    requires
        inode.len() == INODE_RAW_SIZE,
    ensures
        r == (inode_fields(inode@).0 & S_IFMT == S_IFDIR),
{
    let (mode, _): (u32, u64) = read_inode(inode);
    is_dir_mode(mode)
}

/// Taking one off a count and putting one on are inverse, but at zero, where
/// nothing is taken off: a bump that is rolled back leaves the count as it
/// was, and duplicate decrements never make it negative.
pub proof fn law_bump_and_rollback_cancel(nlink: u64)
    requires
        nlink < i64::MAX,
    ensures
        links_in_range(nlink, 1),
        changed_links(changed_links(nlink, 1), -1i64) == nlink,
        changed_links(nlink, 1) == nlink + 1,
        changed_links(nlink, -1i64) == if nlink == 0 {
            0
        } else {
            nlink - 1
        },
{
}

/// The link count after a series of links (true) and counted unlinks (false).
pub open spec fn links_after(nlink: u64, steps: Seq<bool>) -> u64
    decreases steps.len(),
{
    if steps.len() == 0 {
        nlink
    } else {
        changed_links(links_after(nlink, steps.drop_last()), if steps.last() { 1i64 } else { -1i64 })
    }
}

/// Number of links less number of unlinks.
pub open spec fn net_steps(steps: Seq<bool>) -> int
    decreases steps.len(),
{
    if steps.len() == 0 {
        0
    } else {
        net_steps(steps.drop_last()) + if steps.last() {
            1int
        } else {
            -1int
        }
    }
}

/// However links and counted unlinks are interleaved, the count comes out
/// exact: it is the count at the start, plus the links, less the unlinks. This
/// is so as long as no unlink is counted without a link to take off.
pub proof fn law_interleaved_links_add_up(nlink: u64, steps: Seq<bool>)
    requires
        nlink + steps.len() <= i64::MAX,
        forall|n: int| 0 <= n <= steps.len() ==> nlink + #[trigger] net_steps(steps.take(n)) >= 0,
    ensures
        links_after(nlink, steps) == nlink + net_steps(steps),
        links_after(nlink, steps) <= nlink + steps.len(),
    decreases steps.len(),
{
    if steps.len() > 0 {
        let d = steps.drop_last();
        assert forall|n: int| 0 <= n <= d.len() implies nlink + #[trigger] net_steps(d.take(n)) >= 0 by {
            assert(d.take(n) =~= steps.take(n));
        }
        law_interleaved_links_add_up(nlink, d);
        assert(steps.take(steps.len() as int) =~= steps);
    }
}

// ---------------------------------------------------------------------------
// Hard links
// ---------------------------------------------------------------------------

/// Whether a hard link may be made: not under a name that is taken, and not to
/// a directory.
pub fn link_precheck(name_taken: bool, target_is_dir: bool) -> (r: Result<(), Error>)
    ensures
        r == if name_taken {
            Err::<(), Error>(Error::NameTaken)
        } else if target_is_dir {
            Err::<(), Error>(Error::LinkToDirectory)
        } else {
            Ok::<(), Error>(())
        },
{
    if name_taken {
        Err(Error::NameTaken)
    } else if target_is_dir {
        Err(Error::LinkToDirectory)
    } else {
        Ok(())
    }
}

/// The entry that a link adds: the target under the new name, its inode with
/// the new link count and otherwise as it was read.
pub fn link_entry(inode: &[u8], nlink: u64, target: &Uuid, new_name: &str) -> (r: DirFileEntryRaw)
    requires
        inode.len() == INODE_RAW_SIZE,
    ensures
        r.uuid == *target,
        r.name@ == padded(trimmed(encode_utf8(new_name@))),
        inode_fields(r.inode.bytes@) == (inode_fields(inode@).0, nlink),
        forall|i: int| 0 <= i < 160 && !(64 <= i < 72) ==> r.inode.bytes@[i] == inode@[i],
{
    let bytes: Vec<u8> = write_inode_links(inode, nlink);
    let raw: InodeRaw = InodeRaw::from_u8_slice(bytes.as_slice());
    DirFileEntryRaw::from(&raw, target, new_name.as_bytes())
}

/// How the exclusive insert of a link's entry ended.
#[derive(Clone, Copy, Debug, PartialEq, Eq, Structural)]
pub enum InsertReply {
    /// The entry is committed.
    Committed,
    /// Another entry has the name by now.
    NameTaken,
    /// The directory was changed by another writer in between.
    Conflict,
    /// The store failed.
    Failed,
}

/// What follows the insert of a link's entry.
#[derive(Clone, Copy, Debug, PartialEq, Eq, Structural)]
pub enum LinkNext {
    /// The link is made.
    Done,
    /// The directory is to be opened afresh and the insert tried again.
    Again,
    /// The link is given up: the link count is to be taken back by one.
    RollBack(Error),
}

/// What follows the insert of round `round`, counted from zero.
pub open spec fn next_of_insert(round: int, reply: InsertReply) -> LinkNext {
    match reply {
        InsertReply::Committed => LinkNext::Done,
        InsertReply::NameTaken => LinkNext::RollBack(Error::NameTaken),
        InsertReply::Conflict => if round + 1 < NLINK_RETRIES {
            LinkNext::Again
        } else {
            LinkNext::RollBack(Error::TooManyConflicts)
        },
        InsertReply::Failed => LinkNext::RollBack(Error::StoreFailed),
    }
}

/// Decides after the insert of round `round`, counted from zero.
pub fn link_next(round: usize, reply: InsertReply) -> (r: LinkNext)
    ensures
        r == next_of_insert(round as int, reply),
{
    match reply {
        InsertReply::Committed => LinkNext::Done,
        InsertReply::NameTaken => LinkNext::RollBack(Error::NameTaken),
        InsertReply::Conflict => if round < NLINK_RETRIES - 1 {
            LinkNext::Again
        } else {
            LinkNext::RollBack(Error::TooManyConflicts)
        },
        InsertReply::Failed => LinkNext::RollBack(Error::StoreFailed),
    }
}

/// What the rounds from `round` on come to, given the replies to their
/// inserts; `None` where the replies run out first.
pub open spec fn link_run(round: int, replies: Seq<InsertReply>) -> Option<LinkNext>
    decreases replies.len(),
{
    if replies.len() == 0 {
        None
    } else {
        match next_of_insert(round, replies[0]) {
            LinkNext::Again => link_run(round + 1, replies.skip(1)),
            next => Some(next),
        }
    }
}

/// By how much the link count has changed when an attempt that began with a
/// bump has come to its end.
pub open spec fn net_links(end: LinkNext) -> int {
    match end {
        LinkNext::RollBack(_) => 0,
        _ => 1,
    }
}

/// Number of inserts of a run that were committed.
pub open spec fn committed(round: int, replies: Seq<InsertReply>) -> int
    decreases replies.len(),
{
    if replies.len() == 0 {
        0
    } else if next_of_insert(round, replies[0]) == LinkNext::Again {
        committed(round + 1, replies.skip(1))
    } else if replies[0] == InsertReply::Committed {
        1
    } else {
        0
    }
}

/// A link attempt that ends has changed the link count by exactly the number
/// of entries it has committed, so a failed or raced link never leaves an
/// over-count; and it ends within five rounds.
pub proof fn law_link_count_matches_entries(round: int, replies: Seq<InsertReply>)
    requires
        0 <= round,
    ensures
        link_run(round, replies) matches Some(end) ==> net_links(end) == committed(round, replies),
        replies.len() > 0 && round + replies.len() >= NLINK_RETRIES ==> link_run(round, replies) is Some,
    decreases replies.len(),
{
    if replies.len() > 0 && next_of_insert(round, replies[0]) == LinkNext::Again {
        law_link_count_matches_entries(round + 1, replies.skip(1));
        if replies.len() == 1 {
            assert(replies.skip(1).len() == 0);
        }
    }
}

/// What follows the write of an inode with a changed link count, in round
/// `round` counted from zero: done, again, or given up.
pub fn nlink_next(round: usize, outcome: PutOutcome) -> (r: OccNext)
    ensures
        r == match outcome {
            PutOutcome::Written => OccNext::Done,
            PutOutcome::Retry => if round + 1 < NLINK_RETRIES {
                OccNext::Again
            } else {
                OccNext::Busy
            },
        },
{
    crate::lock::occ_next(round, NLINK_RETRIES, outcome)
}

// ---------------------------------------------------------------------------
// Laws of single steps
// ---------------------------------------------------------------------------

/// A link count is a number that the change is added to and that does not go
/// below zero. Counts from 2 to the power of 63 on stand for negative numbers;
/// the sum has to stay in the signed range.
pub proof fn law_link_count_and_change(nlink: u64, delta: i64)
    ensures
        nlink <= i64::MAX ==> (links_in_range(nlink, delta) <==> nlink + delta <= i64::MAX),
        nlink > i64::MAX ==> (links_in_range(nlink, delta) <==> nlink - 0x1_0000_0000_0000_0000 + delta >= i64::MIN),
        nlink <= i64::MAX && 0 <= nlink + delta <= i64::MAX ==> changed_links(nlink, delta) == nlink + delta,
        nlink <= i64::MAX && nlink + delta < 0 ==> changed_links(nlink, delta) == 0,
        nlink > i64::MAX && nlink - 0x1_0000_0000_0000_0000 + delta < 0 ==> changed_links(nlink, delta) == 0,
        nlink > i64::MAX && nlink - 0x1_0000_0000_0000_0000 + delta >= 0 ==> changed_links(nlink, delta) == nlink
            - 0x1_0000_0000_0000_0000 + delta,
{
}

/// A link is made exactly where its entry was committed. Only a conflict is
/// tried again, in each of the first four of five rounds; whatever else ends
/// the attempt takes the link count back.
pub proof fn law_link_is_made_where_its_entry_was_committed(round: int, reply: InsertReply)
    requires
        0 <= round,
    ensures
        next_of_insert(round, reply) == LinkNext::Done <==> reply == InsertReply::Committed,
        next_of_insert(round, reply) == LinkNext::Again <==> reply == InsertReply::Conflict && round < 4,
        next_of_insert(round, InsertReply::NameTaken) == LinkNext::RollBack(Error::NameTaken),
        next_of_insert(round, InsertReply::Failed) == LinkNext::RollBack(Error::StoreFailed),
        round >= 4 ==> next_of_insert(round, InsertReply::Conflict) == LinkNext::RollBack(Error::TooManyConflicts),
{
}

/// A run of attempts is its first reply, and where that is to be tried again
/// the run of the others.
pub proof fn law_link_runs_go_round_by_round(round: int, reply: InsertReply, rest: Seq<InsertReply>, e: Error)
    requires
        0 <= round,
    ensures
        link_run(round, Seq::<InsertReply>::empty()) is None,
        link_run(round, seq![reply] + rest) == if reply == InsertReply::Conflict && round < 4 {
            link_run(round + 1, rest)
        } else {
            Some(next_of_insert(round, reply))
        },
        net_links(LinkNext::Done) == 1,
        net_links(LinkNext::RollBack(e)) == 0,
{
    assert((seq![reply] + rest).skip(1) =~= rest);
}

} // verus!
