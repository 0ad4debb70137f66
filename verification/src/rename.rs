//! Renames, inside a directory and across two, and their recovery.
//!
//! A rename inside a directory is one change of that directory's index. A
//! rename across two directories is committed by an intent object, whose key
//! names the source: of several renames of one source only one can write it.
//! The winner makes sure that the source is still there and then carries the
//! intent out: the entry is added to the destination first and removed from
//! the source second, so the child can be reached at all times. An intent left
//! behind by a crash is carried out again; that changes nothing where it had
//! been carried out before.
use vstd::prelude::*;
use vstd::utf8::encode_utf8;
use crate::error::Error;
use crate::file::{entry_views, name_shown, shown_name, DirFileEntry, Entry};
use crate::ident::{lemma_uuid_text, uuid_text, Uuid};
use crate::intent::{Reclaim, ReclaimIntent, Rename, RenameIntent};
use crate::lease::{is_conflict, lost_race, PutReply};
use crate::ondisk::{padded, trimmed, DirFileEntryRaw, InodeRaw, INODE_RAW_SIZE};
use crate::outside::{name_base64_decoded, uuid_parsed};
use crate::scatter::{name_segment, DirScatterInode, NAME_ALPHABET};
use crate::text::{chars_of, ends_with, has_suffix, push_text, same_text};

verus! {

// ---------------------------------------------------------------------------
// Inside a directory
// ---------------------------------------------------------------------------

/// What a rename inside a directory does.
#[derive(Clone, Copy, Debug, PartialEq, Eq, Structural)]
pub enum RenameWithin {
    /// Both names are the same: nothing.
    Nothing,
    /// The entry moves to the new name.
    Move,
}

/// Whether a rename inside a directory changes nothing: the names are the same.
/// Neither has to be there.
pub fn rename_is_noop(old_name: &str, new_name: &str) -> (r: bool)
    ensures
        r == (old_name@ == new_name@),
{
    same_text(old_name, new_name)
}

/// Decides a rename inside a directory, given whether either name is there.
pub fn rename_within_check(
    old_name: &str,
    new_name: &str,
    old_found: bool,
    new_found: bool,
) -> (r: Result<RenameWithin, Error>)
    ensures
        r == if old_name@ == new_name@ {
            Ok::<RenameWithin, Error>(RenameWithin::Nothing)
        } else if !old_found {
            Err::<RenameWithin, Error>(Error::NoSuchName)
        } else if new_found {
            Err::<RenameWithin, Error>(Error::NameTaken)
        } else {
            Ok::<RenameWithin, Error>(RenameWithin::Move)
        },
{
    if rename_is_noop(old_name, new_name) {
        Ok(RenameWithin::Nothing)
    } else if !old_found {
        Err(Error::NoSuchName)
    } else if new_found {
        Err(Error::NameTaken)
    } else {
        Ok(RenameWithin::Move)
    }
}

/// An entry under a new name: the child and its inode stay.
pub fn renamed_entry(entry: &DirFileEntryRaw, new_name: &str) -> (r: DirFileEntryRaw)
    ensures
        r.inode == entry.inode,
        r.uuid == entry.uuid,
        r.name@ == padded(trimmed(encode_utf8(new_name@))),
{
    DirFileEntryRaw::from(&entry.inode, &entry.uuid, new_name.as_bytes())
}

// ---------------------------------------------------------------------------
// Across directories
// ---------------------------------------------------------------------------

/// The identifier of the intent of a rename: it names the source.
pub open spec fn rename_id(src_parent: Uuid, src_name: Seq<char>) -> Seq<char> {
    uuid_text(src_parent.bits) + "_"@ + name_segment(src_name)
}

/// The identifier of the intent of a rename. Renames of one source have the
/// same identifier, and the identifier tells the source, so renames of
/// different sources have different ones.
pub fn rename_txn_id(src_parent: &Uuid, src_name: &str) -> (r: String)
    ensures
        r@ == rename_id(*src_parent, src_name@),
        uuid_parsed(r@.take(36)) == Some(src_parent.bits),
        name_base64_decoded(NAME_ALPHABET@, r@.skip(37)) == Some(encode_utf8(src_name@)),
{
    let mut id: String = src_parent.to_text();
    let name: String = DirScatterInode::encode_filename(src_name);
    push_text(&mut id, "_");
    push_text(&mut id, name.as_str());
    proof {
        reveal_strlit("_");
        lemma_uuid_text(src_parent.bits);
        assert(id@.take(36) =~= uuid_text(src_parent.bits));
        assert(id@.skip(37) =~= name@);
    }
    id
}

impl RenameIntent {
    /// The intent to move the child of `entry` from one name to another.
    pub fn of_entry(
        src_parent: &Uuid,
        src_name: &str,
        dst_parent: &Uuid,
        dst_name: &str,
        entry: &DirFileEntryRaw,
    ) -> (r: RenameIntent)
        ensures
            r@ == (Rename {
                src_parent: *src_parent,
                src_name: src_name@,
                dst_parent: *dst_parent,
                dst_name: dst_name@,
                child: entry.uuid,
                inode: entry.inode.bytes@,
            }),
            r.inode.len() == INODE_RAW_SIZE,
    {
        RenameIntent {
            src_parent: *src_parent,
            src_name: src_name.to_string(),
            dst_parent: *dst_parent,
            dst_name: dst_name.to_string(),
            child: entry.uuid,
            inode: entry.inode.as_u8_slice(),
        }
    }

    /// The entry that the rename adds to the destination.
    pub fn destination_entry(&self) -> (r: DirFileEntryRaw)
        requires
            self.inode.len() == INODE_RAW_SIZE,
        ensures
            r.inode.bytes@ == self.inode@,
            r.uuid == self.child,
            r.name@ == padded(trimmed(encode_utf8(self.dst_name@))),
    {
        let inode: InodeRaw = InodeRaw::from_u8_slice(self.inode.as_slice());
        DirFileEntryRaw::from(&inode, &self.child, self.dst_name.as_str().as_bytes())
    }

    /// After the claim was won: the rename goes on only if the source still
    /// stands for the same child.
    pub fn confirm(&self, source_now: Option<Uuid>) -> (r: Result<(), Error>)
        ensures
            r == if source_now == Some(self.child) {
                Ok::<(), Error>(())
            } else {
                Err::<(), Error>(Error::SourceGone)
            },
    {
        match source_now {
            Some(id) => if id == self.child {
                Ok(())
            } else {
                Err(Error::SourceGone)
            },
            None => Err(Error::SourceGone),
        }
    }

    /// The changes that carry the intent out, in order.
    pub fn changes(&self) -> (r: Vec<DirChange>)
        requires
            self.inode.len() == INODE_RAW_SIZE,
        ensures
            r.len() == 2,
            r@[0]@ == rename_changes(self@)[0],
            r@[1]@ == rename_changes(self@)[1],
            r@[0] matches DirChange::Upsert(_, _, e) && e.name@ == padded(trimmed(encode_utf8(self.dst_name@))),
    {
        let entry: DirFileEntryRaw = self.destination_entry();
        let mut v: Vec<DirChange> = Vec::new();
        v.push(DirChange::Upsert(self.dst_parent, self.dst_name.clone(), entry));
        v.push(DirChange::Remove(self.src_parent, self.src_name.clone()));
        v
    }
}

/// After the conditional PUT of an intent: whether the rename is claimed.
pub fn rename_claim(reply: &PutReply) -> (r: Result<(), Error>)
    ensures
        r == match *reply {
            PutReply::Stored(_) => Ok::<(), Error>(()),
            PutReply::Failed(status) => if lost_race(status) {
                Err::<(), Error>(Error::RenameClaimed)
            } else {
                Err::<(), Error>(Error::StoreFailed)
            },
        },
{
    match reply {
        PutReply::Stored(_) => Ok(()),
        PutReply::Failed(status) => if is_conflict(*status) {
            Err(Error::RenameClaimed)
        } else {
            Err(Error::StoreFailed)
        },
    }
}

// ---------------------------------------------------------------------------
// Carrying an intent out
// ---------------------------------------------------------------------------

/// A change of one directory's index.
#[derive(Debug)]
pub enum DirChange {
    /// The entry is written under the name in the directory, whether or not
    /// the name is taken.
    Upsert(Uuid, String, DirFileEntryRaw),
    /// The name is removed from the directory, if it is there.
    Remove(Uuid, String),
}

/// The mathematical value of a [`DirChange`]: of an entry, the child and its
/// inode.
pub enum Change {
    Upsert(Uuid, Seq<char>, Uuid, Seq<u8>),
    Remove(Uuid, Seq<char>),
}

impl View for DirChange {
    type V = Change;

    open spec fn view(&self) -> Change {
        match *self {
            DirChange::Upsert(dir, name, e) => Change::Upsert(dir, name@, e.uuid, e.inode.bytes@),
            DirChange::Remove(dir, name) => Change::Remove(dir, name@),
        }
    }
}

/// The namespace: what child, with what cached inode, a name in a directory
/// stands for.
pub type Names = Map<(Uuid, Seq<char>), (Uuid, Seq<u8>)>;

/// The namespace after a change.
pub open spec fn changed(ns: Names, c: Change) -> Names {
    match c {
        Change::Upsert(dir, name, child, inode) => ns.insert((dir, name), (child, inode)),
        Change::Remove(dir, name) => ns.remove((dir, name)),
    }
}

/// The changes that carry a rename out.
pub open spec fn rename_changes(i: Rename) -> Seq<Change> {
    seq![
        Change::Upsert(i.dst_parent, i.dst_name, i.child, i.inode),
        Change::Remove(i.src_parent, i.src_name),
    ]
}

/// The namespace after the first `n` changes of a rename.
pub open spec fn renamed(ns: Names, i: Rename, n: int) -> Names
    decreases n,
{
    if n <= 0 {
        ns
    } else {
        changed(renamed(ns, i, n - 1), rename_changes(i)[n - 1])
    }
}

/// Some name stands for the child.
pub open spec fn reachable(ns: Names, child: Uuid) -> bool {
    exists|at: (Uuid, Seq<char>)| ns.contains_key(at) && (#[trigger] ns[at]).0 == child
}

/// A rename across directories is a move: afterwards the destination stands
/// for the child, the source for nothing, and every other name for what it did
/// before.
pub proof fn law_rename_is_a_move(ns: Names, i: Rename, at: (Uuid, Seq<char>))
    requires
        (i.src_parent, i.src_name) != (i.dst_parent, i.dst_name),
    ensures
        ({
            let after = renamed(ns, i, 2);
            if at == (i.dst_parent, i.dst_name) {
                after.contains_key(at) && after[at] == (i.child, i.inode)
            } else if at == (i.src_parent, i.src_name) {
                !after.contains_key(at)
            } else {
                after.contains_key(at) == ns.contains_key(at) && (ns.contains_key(at) ==> after[at] == ns[at])
            }
        }),
{
    reveal_with_fuel(renamed, 3);
}

/// While a rename is carried out, its child can be reached by name at every
/// point.
pub proof fn law_child_stays_reachable(ns: Names, i: Rename, n: int)
    requires
        (i.src_parent, i.src_name) != (i.dst_parent, i.dst_name),
        ns.contains_key((i.src_parent, i.src_name)),
        ns[(i.src_parent, i.src_name)].0 == i.child,
        0 <= n <= 2,
    ensures
        reachable(renamed(ns, i, n), i.child),
{
    reveal_with_fuel(renamed, 3);
    let src = (i.src_parent, i.src_name);
    let dst = (i.dst_parent, i.dst_name);
    let after = renamed(ns, i, n);
    if n == 0 {
        assert(after[src].0 == i.child);
    } else {
        assert(after.contains_key(dst));
        assert(after[dst].0 == i.child);
    }
}

/// An intent can be carried out again from any point at which it was broken
/// off, and after it was finished: the outcome is the same.
pub proof fn law_replay_converges(ns: Names, i: Rename, n: int)
    requires
        (i.src_parent, i.src_name) != (i.dst_parent, i.dst_name),
        0 <= n <= 2,
    ensures
        renamed(renamed(ns, i, n), i, 2) == renamed(ns, i, 2),
{
    reveal_with_fuel(renamed, 3);
    assert(renamed(renamed(ns, i, n), i, 2) =~= renamed(ns, i, 2));
}

/// A source is moved once: after a rename of it was carried out, a second
/// rename of the same source, which finds the claim free again, does not find
/// the child there any more and is refused.
pub proof fn law_source_moves_once(ns: Names, first: Rename, second: Rename)
    requires
        (first.src_parent, first.src_name) != (first.dst_parent, first.dst_name),
        second.src_parent == first.src_parent,
        second.src_name == first.src_name,
    ensures
        !renamed(ns, first, 2).contains_key((second.src_parent, second.src_name)),
{
    law_rename_is_a_move(ns, first, (second.src_parent, second.src_name));
}

// ---------------------------------------------------------------------------
// Recovery
// ---------------------------------------------------------------------------

/// What an object in the namespace of intents is.
#[derive(Clone, Copy, Debug, PartialEq, Eq, Structural)]
pub enum IntentKind {
    Rename,
    Reclaim,
    Other,
}

/// What an object in the namespace of intents is, by its suffix.
pub fn intent_kind(key: &str) -> (r: IntentKind)
    ensures
        r == if ends_with(key@, ".intent"@) {
            IntentKind::Rename
        } else if ends_with(key@, ".reclaim"@) {
            IntentKind::Reclaim
        } else {
            IntentKind::Other
        },
{
    let cs: Vec<char> = chars_of(key);
    if has_suffix(cs.as_slice(), ".intent") {
        IntentKind::Rename
    } else if has_suffix(cs.as_slice(), ".reclaim") {
        IntentKind::Reclaim
    } else {
        IntentKind::Other
    }
}

/// The displaced child is still what the name stands for: a listing shows it
/// under the name as its entry holds it.
pub open spec fn names_displaced(entries: Seq<Entry>, i: Reclaim) -> bool {
    exists|k: int|
        0 <= k < entries.len() && (#[trigger] entries[k]).name == shown_name(i.dst_name) && entries[k].uuid == i.displaced
}

impl ReclaimIntent {
    /// Whether the displaced child is still what the name stands for in the
    /// listing of the directory.
    pub fn still_named(&self, entries: &Vec<DirFileEntry>) -> (r: bool)
        ensures
            r == names_displaced(entry_views(entries@), self@),
    {
        let ghost all = entry_views(entries@);
        let shown: String = name_shown(self.dst_name.as_str());
        for k in 0..entries.len()
            invariant
                all == entry_views(entries@),
                shown@ == shown_name(self.dst_name@),
                forall|j: int| 0 <= j < k ==> !((#[trigger] all[j]).name == shown@ && all[j].uuid == self.displaced),
        {
            assert(all[k as int] == entries@[k as int]@);
            if same_text(entries[k].name.as_str(), shown.as_str()) && entries[k].uuid == self.displaced {
                assert(all[k as int].name == shown@);
                return true;
            }
        }
        false
    }
}

/// What recovery does with a reclaim intent, given the listing of the directory
/// where it could be listed.
pub open spec fn recovery_of(listing: Option<Seq<Entry>>, i: Reclaim, stale: bool) -> ReclaimStep {
    match listing {
        None => ReclaimStep::Keep,
        Some(entries) => if !names_displaced(entries, i) {
            ReclaimStep::Reclaim
        } else if stale {
            ReclaimStep::Drop
        } else {
            ReclaimStep::Keep
        },
    }
}

impl ReclaimIntent {
    /// Decides what recovery does with the intent, given the listing of the
    /// directory in which the child was displaced; `None` where the directory
    /// could not be listed. A displaced child is reclaimed only once its name
    /// is known not to stand for it any more.
    pub fn recover_step(&self, listing: Option<&Vec<DirFileEntry>>, stale: bool) -> (r: ReclaimStep)
        ensures
            r == match listing {
                None => ReclaimStep::Keep,
                Some(es) => if !names_displaced(entry_views(es@), self@) {
                    ReclaimStep::Reclaim
                } else if stale {
                    ReclaimStep::Drop
                } else {
                    ReclaimStep::Keep
                },
            },
            r == recovery_of(
                match listing {
                    None => None,
                    Some(es) => Some(entry_views(es@)),
                },
                self@,
                stale,
            ),
            listing matches Some(es) ==> forall|k: int|
                0 <= k < es.len() && (#[trigger] es@[k]).name@ == shown_name(self.dst_name@) && es@[k].uuid
                    == self.displaced ==> r != ReclaimStep::Reclaim,
    {
        proof {
            if let Some(es) = listing {
                assert forall|k: int|
                    0 <= k < es.len() && (#[trigger] es@[k]).name@ == shown_name(self.dst_name@) && es@[k].uuid
                        == self.displaced implies names_displaced(entry_views(es@), self@) by {
                    assert(entry_views(es@)[k] == es@[k]@);
                }
            }
        }
        match listing {
            None => ReclaimStep::Keep,
            Some(es) => recover_reclaim(self.still_named(es), stale),
        }
    }
}

/// What recovery does with a reclaim intent.
#[derive(Clone, Copy, Debug, PartialEq, Eq, Structural)]
pub enum ReclaimStep {
    /// The displaced child is reclaimed and the intent removed.
    Reclaim,
    /// The intent is removed.
    Drop,
    /// The intent stays.
    Keep,
}

/// Decides what recovery does with a reclaim intent once it is known whether
/// the displaced child is still named. A child that is still named is never
/// reclaimed; its intent goes only once it is clearly abandoned, lest a rename
/// in flight be raced.
pub fn recover_reclaim(still_named: bool, stale: bool) -> (r: ReclaimStep)
    ensures
        r == if !still_named {
            ReclaimStep::Reclaim
        } else if stale {
            ReclaimStep::Drop
        } else {
            ReclaimStep::Keep
        },
{
    if !still_named {
        ReclaimStep::Reclaim
    } else if stale {
        ReclaimStep::Drop
    } else {
        ReclaimStep::Keep
    }
}

// ---------------------------------------------------------------------------
// Laws of single decisions
// ---------------------------------------------------------------------------

/// Where any entry of the listing, at whatever position, is of the displaced
/// child and has the name as its entry shows it, the child is still named;
/// where none is, it is not. Entries put before or behind change nothing.
pub proof fn law_displaced_child_is_named_by_any_entry(
    entries: Seq<Entry>,
    more: Seq<Entry>,
    i: Reclaim,
    k: int,
)
    ensures
        0 <= k < entries.len() && entries[k].name == shown_name(i.dst_name) && entries[k].uuid == i.displaced
            ==> names_displaced(entries, i),
        (forall|j: int|
            0 <= j < entries.len() ==> !((#[trigger] entries[j]).name == shown_name(i.dst_name) && entries[j].uuid
                == i.displaced)) ==> !names_displaced(entries, i),
        names_displaced(entries + more, i) <==> names_displaced(entries, i) || names_displaced(more, i),
{
    let both = entries + more;
    if names_displaced(entries, i) {
        let j = choose|j: int|
            0 <= j < entries.len() && (#[trigger] entries[j]).name == shown_name(i.dst_name) && entries[j].uuid
                == i.displaced;
        assert(both[j] == entries[j]);
    }
    if names_displaced(more, i) {
        let j = choose|j: int|
            0 <= j < more.len() && (#[trigger] more[j]).name == shown_name(i.dst_name) && more[j].uuid == i.displaced;
        assert(both[entries.len() + j] == more[j]);
    }
    if names_displaced(both, i) {
        let j = choose|j: int|
            0 <= j < both.len() && (#[trigger] both[j]).name == shown_name(i.dst_name) && both[j].uuid == i.displaced;
        if j < entries.len() {
            assert(entries[j] == both[j]);
        } else {
            assert(more[j - entries.len()] == both[j]);
        }
    }
}

/// Recovery reclaims a displaced child only where the directory could be listed
/// and no entry of the listing, at whatever position, names it; and it reclaims
/// it there. A child that is named keeps its storage, whether the intent is
/// stale or not, and the intent goes only once it is stale.
pub proof fn law_a_named_child_is_never_reclaimed(entries: Seq<Entry>, i: Reclaim, stale: bool, k: int)
    ensures
        0 <= k < entries.len() && entries[k].name == shown_name(i.dst_name) && entries[k].uuid == i.displaced ==> {
            &&& recovery_of(Some(entries), i, stale) != ReclaimStep::Reclaim
            &&& recovery_of(Some(entries), i, true) == ReclaimStep::Drop
            &&& recovery_of(Some(entries), i, false) == ReclaimStep::Keep
        },
        (forall|j: int|
            0 <= j < entries.len() ==> !((#[trigger] entries[j]).name == shown_name(i.dst_name) && entries[j].uuid
                == i.displaced)) ==> recovery_of(Some(entries), i, stale) == ReclaimStep::Reclaim,
        recovery_of(None, i, stale) == ReclaimStep::Keep,
{
    law_displaced_child_is_named_by_any_entry(entries, entries, i, k);
}

/// The value of a change of a directory is the directory, the name, and of an
/// entry the child and its inode.
pub proof fn law_directory_changes_are_their_fields(dir: Uuid, name: String, e: DirFileEntryRaw)
    ensures
        DirChange::Upsert(dir, name, e)@ == Change::Upsert(dir, name@, e.uuid, e.inode.bytes@),
        DirChange::Remove(dir, name)@ == Change::Remove(dir, name@),
{
}

/// A rename is carried out by two changes: the destination gets the child with
/// its inode first, then the source goes.
pub proof fn law_destination_first_then_source(i: Rename)
    ensures
        rename_changes(i).len() == 2,
        rename_changes(i)[0] == Change::Upsert(i.dst_parent, i.dst_name, i.child, i.inode),
        rename_changes(i)[1] == Change::Remove(i.src_parent, i.src_name),
{
}

/// A change of a directory changes what one name in it stands for, and nothing
/// else.
pub proof fn law_a_change_is_of_one_name(
    ns: Names,
    dir: Uuid,
    name: Seq<char>,
    child: Uuid,
    inode: Seq<u8>,
    at: (Uuid, Seq<char>),
)
    ensures
        changed(ns, Change::Upsert(dir, name, child, inode)).contains_key((dir, name)),
        changed(ns, Change::Upsert(dir, name, child, inode))[(dir, name)] == (child, inode),
        !changed(ns, Change::Remove(dir, name)).contains_key((dir, name)),
        at != (dir, name) ==> {
            &&& changed(ns, Change::Upsert(dir, name, child, inode)).contains_key(at) == ns.contains_key(at)
            &&& changed(ns, Change::Remove(dir, name)).contains_key(at) == ns.contains_key(at)
            &&& ns.contains_key(at) ==> changed(ns, Change::Upsert(dir, name, child, inode))[at] == ns[at]
            &&& ns.contains_key(at) ==> changed(ns, Change::Remove(dir, name))[at] == ns[at]
        },
{
}

/// The identifier of a rename is that of its source: the parent's UUID, an
/// underscore and the encoded name.
pub proof fn law_rename_is_identified_by_its_source(src_parent: Uuid, src_name: Seq<char>)
    ensures
        rename_id(src_parent, src_name).take(36) == uuid_text(src_parent.bits),
        rename_id(src_parent, src_name)[36] == '_',
        rename_id(src_parent, src_name).skip(37) == name_segment(src_name),
{
    reveal_strlit("_");
    lemma_uuid_text(src_parent.bits);
    let id = rename_id(src_parent, src_name);
    assert(id.take(36) =~= uuid_text(src_parent.bits));
    assert(id.skip(37) =~= name_segment(src_name));
}

} // verus!
