//! Reclaiming storage: of tombstoned children whose retention has passed, of
//! children that a rename displaced, and of children that no directory names.
use std::collections::HashSet;
use vstd::prelude::*;
use vstd::slice::slice_to_vec;
use crate::clock::clamp_i64;
use crate::error::Error;
use crate::file::{entry_views, DirFileEntry, Entry};
use crate::ident::Uuid;
use crate::links::{stored_is_dir, S_IFDIR, S_IFMT};
use crate::ondisk::INODE_RAW_SIZE;
use crate::outside::inode_fields;
use crate::scatter::DirScatterInodeOp;
use crate::tombstone::{
    deadline, header_of, law_tombstone_round_trip, parse_tombstone_body, tombstone_bytes, TombstoneHeader,
};

verus! {

/// Statistics of one garbage collection.
#[derive(Clone, Copy, Debug, PartialEq, Eq, Structural)]
pub struct GcStats {
    /// Number of tombstone scatter objects examined this round.
    pub tombstones_visited: usize,
    /// Tombstones whose retention had not yet expired and were left in place
    /// for a future pass.
    pub tombstones_skipped_retention: usize,
    /// Tombstones whose delete has not yet been folded into the index (the
    /// name is still live there). Finalizing them now would orphan the index
    /// entry, so they are left for a future pass.
    pub tombstones_skipped_unfolded: usize,
    /// Tombstones that were finalized: the child's storage was reclaimed where
    /// nothing else names it, and the scatter object was removed.
    pub tombstones_reclaimed: usize,
    /// Tombstones that hit a recoverable error. They are left in place and a
    /// subsequent pass may retry them.
    pub errors: usize,
}

impl Default for GcStats {
    /// Nothing visited.
    fn default() -> (r: GcStats)
        ensures
            r == (GcStats {
                tombstones_visited: 0,
                tombstones_skipped_retention: 0,
                tombstones_skipped_unfolded: 0,
                tombstones_reclaimed: 0,
                errors: 0,
            }),
    {
        GcStats {
            tombstones_visited: 0,
            tombstones_skipped_retention: 0,
            tombstones_skipped_unfolded: 0,
            tombstones_reclaimed: 0,
            errors: 0,
        }
    }
}

/// What became of a tombstone.
#[derive(Clone, Copy, Debug, PartialEq, Eq, Structural)]
pub enum GcOutcome {
    SkippedRetention,
    SkippedUnfolded,
    Reclaimed,
    Failed,
}

impl GcStats {
    /// Every visited tombstone had one of the four outcomes.
    pub open spec fn balanced(self) -> bool {
        self.tombstones_visited == self.tombstones_skipped_retention + self.tombstones_skipped_unfolded
            + self.tombstones_reclaimed + self.errors
    }

    /// The statistics with one more tombstone.
    pub open spec fn plus(self, outcome: GcOutcome) -> GcStats {
        let s = GcStats { tombstones_visited: (self.tombstones_visited + 1) as usize, ..self };
        match outcome {
            GcOutcome::SkippedRetention => GcStats {
                tombstones_skipped_retention: (s.tombstones_skipped_retention + 1) as usize,
                ..s
            },
            GcOutcome::SkippedUnfolded => GcStats {
                tombstones_skipped_unfolded: (s.tombstones_skipped_unfolded + 1) as usize,
                ..s
            },
            GcOutcome::Reclaimed => GcStats { tombstones_reclaimed: (s.tombstones_reclaimed + 1) as usize, ..s },
            GcOutcome::Failed => GcStats { errors: (s.errors + 1) as usize, ..s },
        }
    }

    /// Counts a tombstone.
    pub fn count(&mut self, outcome: GcOutcome)
        requires
            old(self).balanced(),
            old(self).tombstones_visited < usize::MAX,
        ensures
            *final(self) == old(self).plus(outcome),
            final(self).balanced(),
    {
        self.tombstones_visited += 1;
        match outcome {
            GcOutcome::SkippedRetention => {
                self.tombstones_skipped_retention += 1;
            },
            GcOutcome::SkippedUnfolded => {
                self.tombstones_skipped_unfolded += 1;
            },
            GcOutcome::Reclaimed => {
                self.tombstones_reclaimed += 1;
            },
            GcOutcome::Failed => {
                self.errors += 1;
            },
        }
    }
}

// ---------------------------------------------------------------------------
// The course of one tombstone
// ---------------------------------------------------------------------------

/// Where the collection of one tombstone stands: what is to be done next, or
/// what became of it.
#[derive(Debug)]
pub enum GcState {
    /// The tombstone's body is to be read.
    ReadBody,
    /// The name is to be looked up in the index; the inode is that of the
    /// tombstone.
    CheckFold(Vec<u8>),
    /// The file's link count is to be read.
    CheckLinks,
    /// The child's storage is to be reclaimed, in the namespace of directories
    /// or of files.
    Reclaim(bool),
    /// The tombstone is to be removed.
    RemoveTombstone,
    /// The tombstone is dealt with.
    Over(GcOutcome),
}

/// What the index holds under a name.
#[derive(Clone, Copy, Debug, PartialEq, Eq, Structural)]
pub enum FoldReply {
    Found(Uuid),
    NotFound,
    Failed,
}

/// What became of the read of a file's link count.
#[derive(Clone, Copy, Debug, PartialEq, Eq, Structural)]
pub enum LinksReply {
    Links(u64),
    /// The file has no inode any more.
    NotFound,
    Failed,
}

/// The retention of a tombstone has passed at `now_ms`.
pub open spec fn retention_passed(body: Seq<u8>, now_ms: i64) -> bool {
    header_of(body).retention_until_unix_ms <= now_ms
}

/// Only tombstones are collected.
pub fn gc_begin(op: DirScatterInodeOp) -> (r: Option<GcState>)
    ensures
        r == if op == DirScatterInodeOp::Delete {
            Some(GcState::ReadBody)
        } else {
            None
        },
{
    match op {
        DirScatterInodeOp::Delete => Some(GcState::ReadBody),
        _ => None,
    }
}

/// After the read of the tombstone's body (`None` where it failed): a
/// tombstone is left alone until its retention has passed.
pub fn gc_after_body(body: Option<&Vec<u8>>, now_ms: i64) -> (r: GcState)
    ensures
        match body {
            None => r == GcState::Over(GcOutcome::Failed),
            Some(b) => if b.len() < 16 {
                r == GcState::Over(GcOutcome::Failed)
            } else if !retention_passed(b@, now_ms) {
                r == GcState::Over(GcOutcome::SkippedRetention)
            } else {
                r matches GcState::CheckFold(inode) && inode@ == b@.skip(16)
            },
        },
{
    match body {
        None => GcState::Over(GcOutcome::Failed),
        Some(b) => match parse_tombstone_body(b.as_slice()) {
            Err(_) => GcState::Over(GcOutcome::Failed),
            Ok((header, inode)) => if header.retention_until_unix_ms > now_ms {
                GcState::Over(GcOutcome::SkippedRetention)
            } else {
                GcState::CheckFold(slice_to_vec(inode))
            },
        },
    }
}

/// After the lookup of the name in the index: a tombstone whose delete has not
/// been folded, so that the name still stands for the same child, is left
/// alone. A directory has one name and is reclaimed; of a file the links count.
/// `is_dir` is what the tombstone's inode says; `None` where it is malformed.
pub open spec fn fold_verdict(is_dir: Option<bool>, child: Uuid, reply: FoldReply) -> GcState {
    if reply == FoldReply::Failed {
        GcState::Over(GcOutcome::Failed)
    } else if reply == FoldReply::Found(child) {
        GcState::Over(GcOutcome::SkippedUnfolded)
    } else {
        match is_dir {
            None => GcState::Over(GcOutcome::Failed),
            Some(d) => if d {
                GcState::Reclaim(true)
            } else {
                GcState::CheckLinks
            },
        }
    }
}

pub fn gc_after_lookup(is_dir: Option<bool>, child: &Uuid, reply: FoldReply) -> (r: GcState)
    ensures
        r == fold_verdict(is_dir, *child, reply),
{
    match reply {
        FoldReply::Failed => {
            return GcState::Over(GcOutcome::Failed);
        },
        FoldReply::Found(id) => {
            if id == *child {
                return GcState::Over(GcOutcome::SkippedUnfolded);
            }
        },
        FoldReply::NotFound => {},
    }
    match is_dir {
        None => GcState::Over(GcOutcome::Failed),
        Some(d) => if d {
            GcState::Reclaim(true)
        } else {
            GcState::CheckLinks
        },
    }
}

/// After the lookup of the name in the index, given the tombstone's inode.
pub fn gc_after_fold(inode: &Vec<u8>, child: &Uuid, reply: FoldReply) -> (r: GcState)
    ensures
        r == fold_verdict(
            if inode.len() == INODE_RAW_SIZE {
                Some(inode_fields(inode@).0 & S_IFMT == S_IFDIR)
            } else {
                None
            },
            *child,
            reply,
        ),
{
    if inode.len() == INODE_RAW_SIZE {
        gc_after_lookup(Some(stored_is_dir(inode.as_slice())), child, reply)
    } else {
        gc_after_lookup(None, child, reply)
    }
}

/// After the read of a file's link count: a file is reclaimed once nothing
/// links to it. Otherwise only the tombstone goes.
pub fn gc_after_links(reply: LinksReply) -> (r: GcState)
    ensures
        r == match reply {
            LinksReply::Links(n) => if n == 0 {
                GcState::Reclaim(false)
            } else {
                GcState::RemoveTombstone
            },
            LinksReply::NotFound => GcState::Reclaim(false),
            LinksReply::Failed => GcState::Over(GcOutcome::Failed),
        },
{
    match reply {
        LinksReply::Links(n) => if n == 0 {
            GcState::Reclaim(false)
        } else {
            GcState::RemoveTombstone
        },
        LinksReply::NotFound => GcState::Reclaim(false),
        LinksReply::Failed => GcState::Over(GcOutcome::Failed),
    }
}

/// After the child's storage was reclaimed, or was not: the tombstone goes
/// last, so that an interrupted collection is taken up again.
pub fn gc_after_reclaim(done: bool) -> (r: GcState)
    ensures
        r == if done {
            GcState::RemoveTombstone
        } else {
            GcState::Over(GcOutcome::Failed)
        },
{
    if done {
        GcState::RemoveTombstone
    } else {
        GcState::Over(GcOutcome::Failed)
    }
}

/// After the tombstone was removed, or was not.
pub fn gc_after_removal(done: bool) -> (r: GcState)
    ensures
        r == GcState::Over(
            if done {
                GcOutcome::Reclaimed
            } else {
                GcOutcome::Failed
            },
        ),
{
    if done {
        GcState::Over(GcOutcome::Reclaimed)
    } else {
        GcState::Over(GcOutcome::Failed)
    }
}

// ---------------------------------------------------------------------------
// What a collection comes to
// ---------------------------------------------------------------------------

/// The storage of a tombstone's child is reclaimed, given what the store
/// answers at each step.
pub open spec fn reclaims_storage(
    body: Seq<u8>,
    now_ms: i64,
    child: Uuid,
    fold: FoldReply,
    links: LinksReply,
) -> bool {
    &&& body.len() == 16 + INODE_RAW_SIZE
    &&& retention_passed(body, now_ms)
    &&& fold != FoldReply::Failed
    &&& fold != FoldReply::Found(child)
    &&& (inode_fields(body.skip(16)).0 & S_IFMT == S_IFDIR || links == LinksReply::Links(0) || links
        == LinksReply::NotFound)
}

/// The steps of a collection put together: the storage of the child is
/// reclaimed exactly where the retention has passed, the delete has been
/// folded, and the child is a directory or a file to which nothing links.
pub fn gc_would_reclaim(body: &Vec<u8>, now_ms: i64, child: &Uuid, fold: FoldReply, links: LinksReply) -> (r: bool)
    ensures
        r == reclaims_storage(body@, now_ms, *child, fold, links),
{
    match gc_after_body(Some(body), now_ms) {
        GcState::CheckFold(inode) => match gc_after_fold(&inode, child, fold) {
            GcState::Reclaim(_) => true,
            GcState::CheckLinks => match gc_after_links(links) {
                GcState::Reclaim(_) => true,
                _ => false,
            },
            _ => false,
        },
        _ => false,
    }
}

/// A child that was unlinked with a retention keeps its storage for at least
/// that long: a collection before the end of the retention leaves the
/// tombstone alone. Times past the last representable millisecond count as
/// that millisecond.
pub proof fn law_retention_is_honoured(
    unlinked_ms: i64,
    retention_ms: u128,
    deleted_ms: i64,
    inode: Seq<u8>,
    now_ms: i64,
)
    requires
        0 <= unlinked_ms,
        now_ms < unlinked_ms + retention_ms,
        now_ms < i64::MAX,
    ensures
        !retention_passed(
            tombstone_bytes(
                TombstoneHeader {
                    deleted_at_unix_ms: deleted_ms,
                    retention_until_unix_ms: deadline(unlinked_ms, Some(retention_ms)),
                },
                inode,
            ),
            now_ms,
        ),
{
    let h = TombstoneHeader {
        deleted_at_unix_ms: deleted_ms,
        retention_until_unix_ms: deadline(unlinked_ms, Some(retention_ms)),
    };
    law_tombstone_round_trip(h, inode);
}

/// A child that was unlinked without a retention may be reclaimed by any later
/// collection.
pub proof fn law_no_retention_delays_nothing(unlinked_ms: i64, deleted_ms: i64, inode: Seq<u8>, now_ms: i64)
    requires
        now_ms >= 0,
    ensures
        retention_passed(
            tombstone_bytes(
                TombstoneHeader {
                    deleted_at_unix_ms: deleted_ms,
                    retention_until_unix_ms: deadline(unlinked_ms, None),
                },
                inode,
            ),
            now_ms,
        ),
{
    let h = TombstoneHeader {
        deleted_at_unix_ms: deleted_ms,
        retention_until_unix_ms: deadline(unlinked_ms, None),
    };
    law_tombstone_round_trip(h, inode);
}

/// A file to which something still links, and a child whose delete has not
/// been folded, keep their storage.
pub proof fn law_linked_or_live_children_are_kept(
    body: Seq<u8>,
    now_ms: i64,
    child: Uuid,
    fold: FoldReply,
    links: LinksReply,
)
    ensures
        reclaims_storage(body, now_ms, child, fold, links) ==> fold != FoldReply::Found(child),
        (links matches LinksReply::Links(n) && n > 0) && inode_fields(body.skip(16)).0 & S_IFMT != S_IFDIR
            ==> !reclaims_storage(body, now_ms, child, fold, links),
{
}

// ---------------------------------------------------------------------------
// Displaced children
// ---------------------------------------------------------------------------

/// Whether a child that a rename displaced is reclaimed: a directory is; a
/// file is where the displaced name was its last, and not where it is gone
/// already (`None`). Answering alike on every call, this can be repeated.
pub fn displaced_is_reclaimed(is_dir: bool, nlink: Option<u64>) -> (r: bool)
    ensures
        r == (is_dir || (nlink matches Some(n) && n <= 1)),
{
    if is_dir {
        return true;
    }
    match nlink {
        Some(n) => n <= 1,
        None => false,
    }
}

/// Whether a directory may be removed: not while it has entries.
pub fn rmdir_check(entries: usize) -> (r: Result<(), Error>)
    ensures
        r == if entries == 0 {
            Ok::<(), Error>(())
        } else {
            Err::<(), Error>(Error::DirectoryNotEmpty)
        },
{
    if entries == 0 {
        Ok(())
    } else {
        Err(Error::DirectoryNotEmpty)
    }
}

// ---------------------------------------------------------------------------
// Orphans
// ---------------------------------------------------------------------------

/// The children that the directories name, as far as they have been listed.
#[derive(Debug)]
pub struct Referenced {
    pub uuids: HashSet<u128>,
    /// No directory is left out: where one could not be listed, any child may
    /// be one that it names.
    pub complete: bool,
}

impl View for Referenced {
    type V = Set<u128>;

    open spec fn view(&self) -> Set<u128> {
        self.uuids@
    }
}

/// Some entry of the listing is of the child.
pub open spec fn lists_child(entries: Seq<Entry>, bits: u128) -> bool {
    exists|i: int| 0 <= i < entries.len() && (#[trigger] entries[i]).uuid.bits == bits
}

/// A child is an orphan at `now_ms`: all directories were listed, none names
/// it, and its grace period is over.
pub open spec fn is_orphan(
    named: Set<u128>,
    complete: bool,
    bits: u128,
    ctime_s: i64,
    grace_ms: u128,
    now_ms: i64,
) -> bool {
    complete && !named.contains(bits) && Referenced::grace_over(ctime_s, grace_ms, now_ms)
}

impl Referenced {
    /// No children.
    pub fn none() -> (r: Referenced)
        ensures
            r@ == Set::<u128>::empty(),
            r.complete,
    {
        broadcast use vstd::std_specs::hash::group_hash_axioms;

        Referenced { uuids: HashSet::new(), complete: true }
    }

    /// Notes that a directory could not be listed.
    pub fn mark_unlisted(&mut self)
        ensures
            !final(self).complete,
            final(self)@ == old(self)@,
    {
        self.complete = false;
    }

    /// Takes in the children that a directory's listing names.
    pub fn mark(&mut self, entries: &Vec<DirFileEntry>)
        ensures
            forall|b: u128| #[trigger]
                final(self)@.contains(b) <==> old(self)@.contains(b) || lists_child(entry_views(entries@), b),
            forall|i: int| 0 <= i < entries.len() ==> final(self)@.contains((#[trigger] entries@[i]).uuid.bits),
            final(self).complete == old(self).complete,
    {
        broadcast use vstd::std_specs::hash::group_hash_axioms;

        let ghost before = self@;
        let ghost was_complete = self.complete;
        let ghost all = entry_views(entries@);
        for i in 0..entries.len()
            invariant
                all == entry_views(entries@),
                self.complete == was_complete,
                forall|b: u128| #[trigger] self@.contains(b) <==> before.contains(b) || lists_child(
                    all.take(i as int),
                    b,
                ),
        {
            broadcast use vstd::std_specs::hash::group_hash_axioms;

            let ghost now = self@;
            let ghost a = all.take(i as int);
            let ghost c = all.take(i + 1);
            self.uuids.insert(entries[i].uuid.bits);
            assert forall|b: u128| #[trigger] self@.contains(b) <==> before.contains(b) || lists_child(c, b) by {
                assert(forall|j: int| 0 <= j < i ==> a[j] == c[j]);
                assert(c[i as int] == entries@[i as int]@);
                if lists_child(a, b) {
                    let j = choose|j: int| 0 <= j < a.len() && (#[trigger] a[j]).uuid.bits == b;
                    assert(c[j].uuid.bits == b);
                }
                if lists_child(c, b) {
                    let j = choose|j: int| 0 <= j < c.len() && (#[trigger] c[j]).uuid.bits == b;
                    if j < i {
                        assert(a[j].uuid.bits == b);
                        assert(now.contains(b));
                    }
                }
            }
        }
        assert(all.take(all.len() as int) =~= all);
        assert forall|i: int| 0 <= i < entries.len() implies self@.contains((#[trigger] entries@[i]).uuid.bits) by {
            assert(all[i] == entries@[i]@);
            assert(lists_child(all, all[i].uuid.bits));
        }
    }

    /// Whether some directory names the child.
    pub fn contains(&self, child: &Uuid) -> (r: bool)
        ensures
            r == self@.contains(child.bits),
    {
        broadcast use vstd::std_specs::hash::group_hash_axioms;

        self.uuids.contains(&child.bits)
    }

    /// A child created at `ctime_s` has outlived the grace period at `now_ms`.
    pub open spec fn grace_over(ctime_s: i64, grace_ms: u128, now_ms: i64) -> bool {
        now_ms - clamp_i64(ctime_s * 1000) >= clamp_i64(grace_ms as int)
    }

    fn is_grace_over(ctime_s: i64, grace_ms: u128, now_ms: i64) -> (r: bool)
        ensures
            r == Referenced::grace_over(ctime_s, grace_ms, now_ms),
    {
        let wide: i128 = ctime_s as i128 * 1000;
        let born: i64 = if wide > i64::MAX as i128 {
            i64::MAX
        } else if wide < i64::MIN as i128 {
            i64::MIN
        } else {
            wide as i64
        };
        let grace: i64 = if grace_ms > 0x7fff_ffff_ffff_ffff {
            i64::MAX
        } else {
            grace_ms as i64
        };
        now_ms as i128 - born as i128 >= grace as i128
    }

    /// Whether a file is an orphan to be reclaimed: every directory was listed,
    /// none names it, and it is older than the grace period, so that its
    /// creation is not still in flight.
    pub fn orphan_file_due(&self, file: &Uuid, ctime_s: i64, grace_ms: u128, now_ms: i64) -> (r: bool)
        ensures
            r == (self.complete && !self@.contains(file.bits) && Referenced::grace_over(ctime_s, grace_ms, now_ms)),
            r == is_orphan(self@, self.complete, file.bits, ctime_s, grace_ms, now_ms),
    {
        self.complete && !self.contains(file) && Referenced::is_grace_over(ctime_s, grace_ms, now_ms)
    }

    /// Whether a directory is an orphan to be reclaimed: it is empty, not the
    /// root, every directory was listed and none names it, and it is older than
    /// the grace period.
    pub fn orphan_dir_due(&self, dir: &Uuid, empty: bool, ctime_s: i64, grace_ms: u128, now_ms: i64) -> (r: bool)
        ensures
            r == (self.complete && empty && dir.bits != 0 && !self@.contains(dir.bits) && Referenced::grace_over(
                ctime_s,
                grace_ms,
                now_ms,
            )),
            r == (empty && dir.bits != 0 && is_orphan(self@, self.complete, dir.bits, ctime_s, grace_ms, now_ms)),
    {
        self.complete && empty && dir.bits != 0 && !self.contains(dir) && Referenced::is_grace_over(
            ctime_s,
            grace_ms,
            now_ms,
        )
    }
}

/// A child that was created within the grace period is not collected, even if
/// no directory names it yet.
pub proof fn law_grace_protects_creations(ctime_s: i64, grace_ms: u128, now_ms: i64)
    requires
        0 <= ctime_s * 1000 <= i64::MAX,
        0 <= now_ms,
        now_ms - ctime_s * 1000 < grace_ms,
        grace_ms <= i64::MAX,
    ensures
        !Referenced::grace_over(ctime_s, grace_ms, now_ms),
{
}

// ---------------------------------------------------------------------------
// Laws of single decisions
// ---------------------------------------------------------------------------

/// Each tombstone is counted once among those visited and once under what
/// became of it, and under nothing else.
pub proof fn law_a_tombstone_is_counted_under_its_outcome(s: GcStats, outcome: GcOutcome)
    requires
        s.tombstones_visited < usize::MAX,
        s.tombstones_skipped_retention < usize::MAX,
        s.tombstones_skipped_unfolded < usize::MAX,
        s.tombstones_reclaimed < usize::MAX,
        s.errors < usize::MAX,
    ensures
        s.plus(outcome).tombstones_visited == s.tombstones_visited + 1,
        s.plus(outcome).tombstones_skipped_retention - s.tombstones_skipped_retention == if outcome
            == GcOutcome::SkippedRetention {
            1int
        } else {
            0
        },
        s.plus(outcome).tombstones_skipped_unfolded - s.tombstones_skipped_unfolded == if outcome
            == GcOutcome::SkippedUnfolded {
            1int
        } else {
            0
        },
        s.plus(outcome).tombstones_reclaimed - s.tombstones_reclaimed == if outcome == GcOutcome::Reclaimed {
            1int
        } else {
            0
        },
        s.plus(outcome).errors - s.errors == if outcome == GcOutcome::Failed {
            1int
        } else {
            0
        },
        s.balanced() <==> s.tombstones_visited == s.tombstones_skipped_retention + s.tombstones_skipped_unfolded
            + s.tombstones_reclaimed + s.errors,
{
}

/// A tombstone's retention has passed from the deadline on that it was written
/// with, and not before.
pub proof fn law_retention_ends_at_the_deadline(h: TombstoneHeader, inode: Seq<u8>, now_ms: i64)
    ensures
        retention_passed(tombstone_bytes(h, inode), now_ms) <==> now_ms >= h.retention_until_unix_ms,
{
    law_tombstone_round_trip(h, inode);
}

/// A tombstone whose name still stands for the child is left alone, whatever
/// else is known of it; where the lookup failed nothing is decided. Otherwise a
/// directory is reclaimed, and a file's links are looked at.
pub proof fn law_unfolded_tombstones_are_left_alone(is_dir: Option<bool>, child: Uuid, other: Uuid)
    requires
        other.bits != child.bits,
    ensures
        fold_verdict(is_dir, child, FoldReply::Found(child)) == GcState::Over(GcOutcome::SkippedUnfolded),
        fold_verdict(is_dir, child, FoldReply::Failed) == GcState::Over(GcOutcome::Failed),
        fold_verdict(is_dir, child, FoldReply::Found(other)) == fold_verdict(is_dir, child, FoldReply::NotFound),
        fold_verdict(Some(true), child, FoldReply::NotFound) == GcState::Reclaim(true),
        fold_verdict(Some(false), child, FoldReply::NotFound) == GcState::CheckLinks,
        fold_verdict(None, child, FoldReply::NotFound) == GcState::Over(GcOutcome::Failed),
{
}

/// Storage is reclaimed exactly where the tombstone holds a whole inode, its
/// deadline is over, the index was looked up and does not hold the child under
/// the name any more, and the child is a directory or a file without links or
/// without an inode.
pub proof fn law_when_storage_is_reclaimed(
    h: TombstoneHeader,
    inode: Seq<u8>,
    now_ms: i64,
    child: Uuid,
    fold: FoldReply,
    links: LinksReply,
)
    ensures
        reclaims_storage(tombstone_bytes(h, inode), now_ms, child, fold, links) <==> {
            &&& inode.len() == 160
            &&& now_ms >= h.retention_until_unix_ms
            &&& match fold {
                FoldReply::Found(at) => at.bits != child.bits,
                FoldReply::NotFound => true,
                FoldReply::Failed => false,
            }
            &&& inode_fields(inode).0 & 0xf000 == 0x4000 || match links {
                LinksReply::Links(n) => n == 0,
                LinksReply::NotFound => true,
                LinksReply::Failed => false,
            }
        },
{
    law_tombstone_round_trip(h, inode);
}

/// The value of the children that are named is the set of their bits.
pub proof fn law_referenced_children(r: Referenced)
    ensures
        r@ == r.uuids@,
{
}

/// A listing names a child exactly where one of its entries, at whatever
/// position, is of the child; so that any entry of a listing that is taken in
/// keeps its child from being collected, whatever else the listing holds.
pub proof fn law_every_entry_of_a_listing_names_its_child(entries: Seq<Entry>, more: Seq<Entry>, i: int, bits: u128)
    requires
        0 <= i < entries.len(),
    ensures
        lists_child(entries, entries[i].uuid.bits),
        !lists_child(Seq::<Entry>::empty(), bits),
        lists_child(entries + more, bits) <==> lists_child(entries, bits) || lists_child(more, bits),
        (forall|k: int| 0 <= k < entries.len() ==> (#[trigger] entries[k]).uuid.bits != bits) ==> !lists_child(
            entries,
            bits,
        ),
{
    assert(entries[i].uuid.bits == entries[i].uuid.bits);
    let both = entries + more;
    if lists_child(entries, bits) {
        let k = choose|k: int| 0 <= k < entries.len() && (#[trigger] entries[k]).uuid.bits == bits;
        assert(both[k].uuid.bits == bits);
    }
    if lists_child(more, bits) {
        let k = choose|k: int| 0 <= k < more.len() && (#[trigger] more[k]).uuid.bits == bits;
        assert(both[entries.len() + k].uuid.bits == bits);
    }
    if lists_child(both, bits) {
        let k = choose|k: int| 0 <= k < both.len() && (#[trigger] both[k]).uuid.bits == bits;
        if k < entries.len() {
            assert(entries[k].uuid.bits == bits);
        } else {
            assert(more[k - entries.len()].uuid.bits == bits);
        }
    }
}

/// The grace period of a child is over once the time since its creation is the
/// period or more; times and periods beyond the last representable millisecond
/// count as that millisecond.
pub proof fn law_grace_is_time_since_creation(ctime_s: i64, grace_ms: u128, now_ms: i64)
    ensures
        i64::MIN <= ctime_s * 1000 <= i64::MAX && grace_ms <= i64::MAX ==> (Referenced::grace_over(
            ctime_s,
            grace_ms,
            now_ms,
        ) <==> now_ms - ctime_s * 1000 >= grace_ms),
        grace_ms > i64::MAX ==> Referenced::grace_over(ctime_s, grace_ms, now_ms) == Referenced::grace_over(
            ctime_s,
            i64::MAX as u128,
            now_ms,
        ),
        ctime_s * 1000 > i64::MAX && grace_ms <= i64::MAX ==> (Referenced::grace_over(ctime_s, grace_ms, now_ms)
            <==> now_ms - i64::MAX >= grace_ms),
        ctime_s * 1000 < i64::MIN && grace_ms <= i64::MAX ==> (Referenced::grace_over(ctime_s, grace_ms, now_ms)
            <==> now_ms - i64::MIN >= grace_ms),
{
}

/// Taking in a listing: the children named afterwards are those named before
/// and those of the listing's entries. None of these is an orphan, at whatever
/// position its entry stands and whatever the times are; and nothing is an
/// orphan as long as a directory is left out.
pub proof fn law_named_children_are_no_orphans(
    before: Set<u128>,
    entries: Seq<Entry>,
    after: Set<u128>,
    complete: bool,
    i: int,
    bits: u128,
    ctime_s: i64,
    grace_ms: u128,
    now_ms: i64,
)
    requires
        forall|b: u128| #[trigger] after.contains(b) <==> before.contains(b) || lists_child(entries, b),
        0 <= i < entries.len(),
    ensures
        after.contains(entries[i].uuid.bits),
        !is_orphan(after, complete, entries[i].uuid.bits, ctime_s, grace_ms, now_ms),
        before.contains(bits) ==> !is_orphan(after, complete, bits, ctime_s, grace_ms, now_ms),
        !is_orphan(after, false, bits, ctime_s, grace_ms, now_ms),
        !after.contains(bits) && i64::MIN <= ctime_s * 1000 <= i64::MAX && grace_ms <= i64::MAX && now_ms - ctime_s
            * 1000 >= grace_ms ==> is_orphan(after, true, bits, ctime_s, grace_ms, now_ms),
        i64::MIN <= ctime_s * 1000 <= i64::MAX && grace_ms <= i64::MAX && now_ms - ctime_s * 1000 < grace_ms
            ==> !is_orphan(after, complete, bits, ctime_s, grace_ms, now_ms),
{
    law_every_entry_of_a_listing_names_its_child(entries, entries, i, bits);
    law_grace_is_time_since_creation(ctime_s, grace_ms, now_ms);
}

} // verus!
