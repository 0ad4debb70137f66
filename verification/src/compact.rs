//! Compaction: folding the outstanding changes of a directory into its index,
//! and carrying out the second phase of a delete.
use vstd::hash_map::StringHashMap;
use vstd::prelude::*;
use crate::file::{
    entries_below, find_entry, has_name, index_names, law_listing_overlays_the_index, lemma_filter_members,
    lemma_find_entry, merged, ScatterPlan,
};
use crate::ident::{Ulid, Uuid};
use crate::index::{
    find_name, home, index_ok, is_run, law_delete_removes_one_name, law_lookup_finds_the_entry,
    law_upsert_replaces_one_name, lemma_listed_once, lists, lookup_in, removed_at, slot,
};
use crate::ondisk::{entry_name, index_name, law_every_file_can_be_indexed, DirFileEntryRaw};
use crate::outside::crc64_of;
use crate::scatter::{scatter_key, scatter_views, DirScatterInode, DirScatterInodeOp, Scatter};
use crate::text::{ends_with, string_views};
use crate::tombstone::{build_tombstone_body, marker_of, tombstone_bytes, TombstoneHeader, UnlinkMarker};

verus! {

/// Statistics of one compaction.
#[derive(Clone, Copy, Debug, PartialEq, Eq, Structural)]
pub struct CompactStats {
    /// Number of scatter objects listed and processed in this round.
    pub scatters_processed: usize,
    /// Number of index entries inserted/updated from Create/Update scatters.
    pub entries_added: usize,
    /// Number of index entries removed from Delete/PreDelete scatters.
    pub entries_removed: usize,
    /// Number of Delete scatters that won their filename group and were
    /// retained as tombstones.
    pub tombstones_kept: usize,
    /// True when the scatter list was empty; nothing was written.
    pub no_op: bool,
}

impl Default for CompactStats {
    /// Nothing processed.
    fn default() -> (r: CompactStats)
        ensures
            r == (CompactStats {
                scatters_processed: 0,
                entries_added: 0,
                entries_removed: 0,
                tombstones_kept: 0,
                no_op: false,
            }),
    {
        CompactStats {
            scatters_processed: 0,
            entries_added: 0,
            entries_removed: 0,
            tombstones_kept: 0,
            no_op: false,
        }
    }
}

// ---------------------------------------------------------------------------
// Folding into the index
// ---------------------------------------------------------------------------

/// Each run in `runs` is the one read for its entry, the entries before it
/// having been written.
pub open spec fn reads_for_upserts(
    m: Map<u64, DirFileEntryRaw>,
    es: Seq<DirFileEntryRaw>,
    runs: Seq<Seq<DirFileEntryRaw>>,
) -> bool
    decreases es.len(),
{
    &&& es.len() == runs.len()
    &&& es.len() > 0 ==> {
        &&& reads_for_upserts(m, es.drop_last(), runs.drop_last())
        &&& is_run(upserted(m, es.drop_last(), runs.drop_last()), home(es.last()), runs.last())
    }
}

/// The slots after writing `es` in order, each to the slot that its run gives.
pub open spec fn upserted(
    m: Map<u64, DirFileEntryRaw>,
    es: Seq<DirFileEntryRaw>,
    runs: Seq<Seq<DirFileEntryRaw>>,
) -> Map<u64, DirFileEntryRaw>
    decreases es.len(),
{
    if es.len() == 0 {
        m
    } else {
        let e = es.last();
        upserted(m, es.drop_last(), runs.drop_last()).insert(
            slot(home(e), find_name(runs.last(), e.filename()) as int),
            e,
        )
    }
}

/// Each run in `runs` is the one read for its name, the names before it having
/// been removed.
pub open spec fn reads_for_deletes(
    m: Map<u64, DirFileEntryRaw>,
    names: Seq<Seq<u8>>,
    runs: Seq<Seq<DirFileEntryRaw>>,
) -> bool
    decreases names.len(),
{
    &&& names.len() == runs.len()
    &&& names.len() > 0 ==> {
        &&& reads_for_deletes(m, names.drop_last(), runs.drop_last())
        &&& is_run(deleted(m, names.drop_last(), runs.drop_last()), crc64_of(names.last()), runs.last())
    }
}

/// The slots after removing `names` in order, where they are there.
pub open spec fn deleted(
    m: Map<u64, DirFileEntryRaw>,
    names: Seq<Seq<u8>>,
    runs: Seq<Seq<DirFileEntryRaw>>,
) -> Map<u64, DirFileEntryRaw>
    decreases names.len(),
{
    if names.len() == 0 {
        m
    } else {
        let before = deleted(m, names.drop_last(), runs.drop_last());
        let i = find_name(runs.last(), names.last());
        if i < runs.last().len() {
            removed_at(before, crc64_of(names.last()), runs.last(), i as int)
        } else {
            before
        }
    }
}

/// The entries have names of their own.
pub open spec fn own_names(es: Seq<DirFileEntryRaw>) -> bool {
    &&& forall|i: int| 0 <= i < es.len() ==> !(#[trigger] es[i]).dummy()
    &&& forall|i: int, j: int|
        0 <= i < es.len() && 0 <= j < es.len() && (#[trigger] es[i]).filename() == (#[trigger] es[j]).filename() ==> i
            == j
}

proof fn lemma_fold_upserts(
    m: Map<u64, DirFileEntryRaw>,
    es: Seq<DirFileEntryRaw>,
    runs: Seq<Seq<DirFileEntryRaw>>,
)
    requires
        index_ok(m),
        own_names(es),
        reads_for_upserts(m, es, runs),
    ensures
        index_ok(upserted(m, es, runs)),
        forall|x: DirFileEntryRaw| #[trigger]
            lists(upserted(m, es, runs), x) <==> es.contains(x) || (lists(m, x) && !has_name(es, x.filename())),
    decreases es.len(),
{
    if es.len() > 0 {
        let d = es.drop_last();
        let e = es.last();
        let z = es.len() - 1;
        assert forall|i: int| 0 <= i < d.len() implies !(#[trigger] d[i]).dummy() by {
            assert(d[i] == es[i]);
        }
        assert forall|i: int, j: int|
            0 <= i < d.len() && 0 <= j < d.len() && (#[trigger] d[i]).filename() == (#[trigger] d[j]).filename() implies i
            == j by {
            assert(es[i].filename() == es[j].filename());
        }
        lemma_fold_upserts(m, d, runs.drop_last());
        let between = upserted(m, d, runs.drop_last());
        assert(es[z] == e);
        law_upsert_replaces_one_name(between, runs.last(), e);
        assert forall|x: DirFileEntryRaw| #[trigger]
            lists(upserted(m, es, runs), x) <==> es.contains(x) || (lists(m, x) && !has_name(es, x.filename())) by {
            if d.contains(x) {
                let k = choose|k: int| 0 <= k < d.len() && d[k] == x;
                assert(es[k] == x);
                if x.filename() == e.filename() {
                    assert(es[k].filename() == es[z].filename());
                }
            }
            if es.contains(x) && x != e {
                let k = choose|k: int| 0 <= k < es.len() && es[k] == x;
                assert(d[k] == x);
                if x.filename() == e.filename() {
                    assert(es[k].filename() == es[z].filename());
                }
            }
            if has_name(d, x.filename()) {
                let k = choose|k: int| 0 <= k < d.len() && (#[trigger] d[k]).filename() == x.filename();
                assert(es[k].filename() == x.filename());
            }
            if has_name(es, x.filename()) && x.filename() != e.filename() {
                let k = choose|k: int| 0 <= k < es.len() && (#[trigger] es[k]).filename() == x.filename();
                assert(d[k].filename() == x.filename());
            }
            if x.filename() == e.filename() {
                assert(es[z].filename() == x.filename());
            }
        }
    } else {
        assert(forall|x: DirFileEntryRaw| !es.contains(x));
    }
}

proof fn lemma_fold_deletes(
    m: Map<u64, DirFileEntryRaw>,
    names: Seq<Seq<u8>>,
    runs: Seq<Seq<DirFileEntryRaw>>,
)
    requires
        index_ok(m),
        forall|i: int| 0 <= i < names.len() ==> entry_name(#[trigger] names[i]),
        reads_for_deletes(m, names, runs),
    ensures
        index_ok(deleted(m, names, runs)),
        forall|x: DirFileEntryRaw| #[trigger]
            lists(deleted(m, names, runs), x) <==> lists(m, x) && !names.contains(x.filename()),
    decreases names.len(),
{
    if names.len() > 0 {
        let d = names.drop_last();
        let n = names.last();
        let z = names.len() - 1;
        assert forall|i: int| 0 <= i < d.len() implies entry_name(#[trigger] d[i]) by {
            assert(d[i] == names[i]);
        }
        lemma_fold_deletes(m, d, runs.drop_last());
        let between = deleted(m, d, runs.drop_last());
        let c = runs.last();
        assert(names[z] == n);
        law_lookup_finds_the_entry(between, c, n);
        if find_name(c, n) < c.len() {
            law_delete_removes_one_name(between, c, n);
        }
        assert forall|x: DirFileEntryRaw| #[trigger]
            lists(deleted(m, names, runs), x) <==> lists(m, x) && !names.contains(x.filename()) by {
            if d.contains(x.filename()) {
                let k = choose|k: int| 0 <= k < d.len() && d[k] == x.filename();
                assert(names[k] == x.filename());
            }
            if names.contains(x.filename()) && x.filename() != n {
                let k = choose|k: int| 0 <= k < names.len() && names[k] == x.filename();
                assert(d[k] == x.filename());
            }
        }
    } else {
        assert(forall|x: DirFileEntryRaw| !names.contains(x.filename()));
    }
}

/// Folding changes into the index leaves a well-formed index with exactly the
/// overlay: the created and updated entries, the others as they were, and none
/// under a removed name.
pub proof fn law_fold_applies_the_overlay(
    m: Map<u64, DirFileEntryRaw>,
    es: Seq<DirFileEntryRaw>,
    runs: Seq<Seq<DirFileEntryRaw>>,
    names: Seq<Seq<u8>>,
    name_runs: Seq<Seq<DirFileEntryRaw>>,
)
    requires
        index_ok(m),
        own_names(es),
        reads_for_upserts(m, es, runs),
        forall|i: int| 0 <= i < names.len() ==> entry_name(#[trigger] names[i]),
        reads_for_deletes(upserted(m, es, runs), names, name_runs),
    ensures
        ({
            let after = deleted(upserted(m, es, runs), names, name_runs);
            &&& index_ok(after)
            &&& forall|x: DirFileEntryRaw| #[trigger]
                lists(after, x) <==> (es.contains(x) || (lists(m, x) && !has_name(es, x.filename())))
                    && !names.contains(x.filename())
        }),
{
    lemma_fold_upserts(m, es, runs);
    lemma_fold_deletes(upserted(m, es, runs), names, name_runs);
}

// ---------------------------------------------------------------------------
// What the index shows
// ---------------------------------------------------------------------------

/// What a walk over the whole index gives.
pub open spec fn walked(m: Map<u64, DirFileEntryRaw>) -> Seq<DirFileEntryRaw> {
    entries_below(m, u64::MAX + 1)
}

proof fn lemma_walk_members(m: Map<u64, DirFileEntryRaw>, n: int, e: DirFileEntryRaw)
    requires
        0 <= n <= u64::MAX + 1,
    ensures
        entries_below(m, n).contains(e) <==> !e.dummy() && exists|k: u64| k < n && m.contains_key(k) && #[trigger] m[k]
            == e,
    decreases n,
{
    if n > 0 {
        lemma_walk_members(m, n - 1, e);
        let before = entries_below(m, n - 1);
        let now = entries_below(m, n);
        let z = (n - 1) as u64;
        if now.contains(e) {
            let i = choose|i: int| 0 <= i < now.len() && now[i] == e;
            if i < before.len() {
                assert(before[i] == e);
                assert(before.contains(e));
            } else {
                assert(m[z] == e);
            }
        }
        if !e.dummy() && exists|k: u64| k < n && m.contains_key(k) && #[trigger] m[k] == e {
            let k = choose|k: u64| k < n && m.contains_key(k) && #[trigger] m[k] == e;
            if k < z {
                assert(before.contains(e));
                let i = choose|i: int| 0 <= i < before.len() && before[i] == e;
                assert(now[i] == e);
            } else {
                assert(now[before.len() as int] == e);
            }
        }
    }
}

/// A walk gives the entries that the index holds.
proof fn lemma_walked(m: Map<u64, DirFileEntryRaw>, name: Seq<u8>)
    ensures
        match find_entry(walked(m), name) {
            Some(e) => lists(m, e) && e.filename() == name,
            None => forall|e: DirFileEntryRaw| #[trigger] lists(m, e) ==> e.filename() != name,
        },
{
    let w = walked(m);
    lemma_find_entry(w, name);
    match find_entry(w, name) {
        Some(e) => {
            lemma_walk_members(m, u64::MAX + 1, e);
        },
        None => {
            assert forall|e: DirFileEntryRaw| #[trigger] lists(m, e) implies e.filename() != name by {
                lemma_walk_members(m, u64::MAX + 1, e);
                let i = choose|i: int| 0 <= i < w.len() && w[i] == e;
                assert(w[i] == e);
            }
        },
    }
}

/// An entry of the index is what the walk gives under its name.
proof fn lemma_listed_is_walked(m: Map<u64, DirFileEntryRaw>, e: DirFileEntryRaw)
    requires
        index_ok(m),
        lists(m, e),
    ensures
        find_entry(walked(m), e.filename()) == Some(e),
{
    lemma_walked(m, e.filename());
    lemma_listed_once(m, e, find_entry(walked(m), e.filename()).unwrap());
}

/// Looking a file up in the index gives what a walk over the index gives under
/// its name.
pub proof fn law_point_lookup_agrees_with_walk(
    m: Map<u64, DirFileEntryRaw>,
    c: Seq<DirFileEntryRaw>,
    n: Seq<char>,
)
    requires
        index_ok(m),
        is_run(m, crc64_of(index_name(n)), c),
    ensures
        find_entry(walked(m), index_name(n)) == lookup_in(c, index_name(n)),
{
    law_every_file_can_be_indexed(n);
    law_lookup_finds_the_entry(m, c, index_name(n));
    lemma_walked(m, index_name(n));
    if let Some(e) = lookup_in(c, index_name(n)) {
        lemma_listed_is_walked(m, e);
    }
}

/// The folded index shows the overlay: after the changes were folded, a walk
/// over the index gives under every name what the listing gave before.
pub proof fn law_folded_index_shows_the_listing(
    m: Map<u64, DirFileEntryRaw>,
    es: Seq<DirFileEntryRaw>,
    runs: Seq<Seq<DirFileEntryRaw>>,
    gone: Seq<Seq<char>>,
    name_runs: Seq<Seq<DirFileEntryRaw>>,
    n: Seq<char>,
)
    requires
        index_ok(m),
        own_names(es),
        reads_for_upserts(m, es, runs),
        reads_for_deletes(upserted(m, es, runs), index_names(gone), name_runs),
    ensures
        ({
            let after = deleted(upserted(m, es, runs), index_names(gone), name_runs);
            &&& index_ok(after)
            &&& find_entry(walked(after), index_name(n)) == find_entry(
                merged(walked(m), es, index_names(gone)),
                index_name(n),
            )
        }),
{
    let names = index_names(gone);
    let name = index_name(n);
    let after = deleted(upserted(m, es, runs), names, name_runs);
    assert forall|i: int| 0 <= i < names.len() implies entry_name(#[trigger] names[i]) by {
        law_every_file_can_be_indexed(gone[i]);
    }
    law_every_file_can_be_indexed(n);
    law_fold_applies_the_overlay(m, es, runs, names, name_runs);
    law_listing_overlays_the_index(walked(m), es, names, name);
    lemma_walked(after, name);
    lemma_walked(m, name);
    lemma_find_entry(es, name);
    if !names.contains(name) {
        match find_entry(es, name) {
            Some(e) => {
                assert(lists(after, e));
                lemma_listed_is_walked(after, e);
            },
            None => {
                if let Some(e) = find_entry(walked(m), name) {
                    assert(lists(after, e));
                    lemma_listed_is_walked(after, e);
                } else if let Some(e) = find_entry(walked(after), name) {
                    assert(es.contains(e) || lists(m, e));
                }
            },
        }
    }
}

// ---------------------------------------------------------------------------
// The second phase of a delete
// ---------------------------------------------------------------------------

/// The second phase of a delete is due where an unlink took an entry out of
/// the index: not for a name that was not there (any more), and not for a
/// tombstone that is seen again.
pub open spec fn phase_two_is_due(op: DirScatterInodeOp, removed: bool) -> bool {
    op == DirScatterInodeOp::PreDelete && removed
}

pub fn phase_two_due(op: DirScatterInodeOp, removed: bool) -> (r: bool)
    ensures
        r == phase_two_is_due(op, removed),
{
    match op {
        DirScatterInodeOp::PreDelete => removed,
        _ => false,
    }
}

/// The changes that remove their name: the unlinks, then the deletes.
pub fn removals(plan: &ScatterPlan) -> (r: Vec<DirScatterInode>)
    ensures
        scatter_views(r@) == scatter_views(plan.unlinked@) + scatter_views(plan.deleted@),
{
    let ghost a = scatter_views(plan.unlinked@);
    let ghost b = scatter_views(plan.deleted@);
    let mut out: Vec<DirScatterInode> = Vec::new();
    assert(scatter_views(out@) =~= a.take(0));
    for i in 0..plan.unlinked.len()
        invariant
            a == scatter_views(plan.unlinked@),
            scatter_views(out@) == a.take(i as int),
    {
        let s: DirScatterInode = plan.unlinked[i].copy();
        let ghost now = scatter_views(out@);
        out.push(s);
        assert(scatter_views(out@) =~= now.push(s@));
        assert(a.take(i + 1) =~= a.take(i as int).push(a[i as int]));
    }
    assert(a.take(a.len() as int) =~= a);
    assert(scatter_views(out@) =~= a + b.take(0));
    for i in 0..plan.deleted.len()
        invariant
            b == scatter_views(plan.deleted@),
            scatter_views(out@) == a + b.take(i as int),
    {
        let s: DirScatterInode = plan.deleted[i].copy();
        let ghost now = scatter_views(out@);
        out.push(s);
        assert(scatter_views(out@) =~= now.push(s@));
        assert(a + b.take(i + 1) =~= (a + b.take(i as int)).push(b[i as int]));
    }
    assert(b.take(b.len() as int) =~= b);
    out
}

/// Those of the removals for which the second phase of the delete is due.
pub open spec fn due_jobs(rs: Seq<Scatter>, removed: Seq<bool>) -> Seq<Scatter>
    decreases rs.len(),
{
    if rs.len() == 0 {
        seq![]
    } else {
        let before = due_jobs(rs.drop_last(), removed.drop_last());
        if phase_two_is_due(rs.last().op, removed.last()) {
            before.push(rs.last())
        } else {
            before
        }
    }
}

/// Those of the removals for which the second phase of the delete is due,
/// given for each whether it took an entry out of the index.
pub fn phase_two_jobs(rs: &Vec<DirScatterInode>, removed: &Vec<bool>) -> (r: Vec<DirScatterInode>)
    requires
        rs.len() == removed.len(),
    ensures
        scatter_views(r@) == due_jobs(scatter_views(rs@), removed@),
{
    let ghost all = scatter_views(rs@);
    let mut out: Vec<DirScatterInode> = Vec::new();
    assert(scatter_views(out@) =~= due_jobs(all.take(0), removed@.take(0)));
    for i in 0..rs.len()
        invariant
            all == scatter_views(rs@),
            rs.len() == removed.len(),
            scatter_views(out@) == due_jobs(all.take(i as int), removed@.take(i as int)),
    {
        let ghost now = scatter_views(out@);
        assert(all.take(i + 1).drop_last() =~= all.take(i as int));
        assert(removed@.take(i + 1).drop_last() =~= removed@.take(i as int));
        assert(all.take(i + 1).last() == rs@[i as int]@);
        if phase_two_due(rs[i].op, removed[i]) {
            let s: DirScatterInode = rs[i].copy();
            out.push(s);
            assert(scatter_views(out@) =~= now.push(s@));
        }
    }
    assert(all.take(all.len() as int) =~= all);
    assert(removed@.take(removed.len() as int) =~= removed@);
    out
}

/// An unlink is counted once: when its name has been taken out of the index, a
/// compaction that sees the unlink or its tombstone again finds no entry, and
/// no second phase is due.
pub proof fn law_unlink_is_counted_once(
    m: Map<u64, DirFileEntryRaw>,
    c: Seq<DirFileEntryRaw>,
    name: Seq<u8>,
    again: Seq<DirFileEntryRaw>,
    op: DirScatterInodeOp,
)
    requires
        index_ok(m),
        entry_name(name),
        is_run(m, crc64_of(name), c),
        find_name(c, name) < c.len(),
        is_run(removed_at(m, crc64_of(name), c, find_name(c, name) as int), crc64_of(name), again),
    ensures
        lookup_in(again, name) is None,
        !phase_two_is_due(op, lookup_in(again, name) is Some),
{
    law_delete_removes_one_name(m, c, name);
    let after = removed_at(m, crc64_of(name), c, find_name(c, name) as int);
    law_lookup_finds_the_entry(after, again, name);
}

/// What the second phase of a delete does: it writes a tombstone and, for a
/// file, takes one off the link count.
#[derive(Debug)]
pub struct PhaseTwo {
    /// Key of the tombstone.
    pub key: String,
    /// Body of the tombstone.
    pub body: Vec<u8>,
    /// Whether the child's link count goes down by one.
    pub decrement: bool,
}

/// The second phase of the delete of a child, given the marker that the unlink
/// left and the child's inode as it is at `now_ms`.
pub fn phase_two(
    dir_staging_path: &str,
    filename: &str,
    child: &Uuid,
    marker: &UnlinkMarker,
    inode: &[u8],
    now_ms: i64,
    ulid: &Ulid,
) -> (r: PhaseTwo)
    requires
        !ends_with(dir_staging_path@, "/"@),
    ensures
        r.key@ == scatter_key(dir_staging_path@, filename@, *ulid, *child, 4),
        r.body@ == tombstone_bytes(
            TombstoneHeader {
                deleted_at_unix_ms: now_ms,
                retention_until_unix_ms: marker.retention_until_unix_ms,
            },
            inode@,
        ),
        r.decrement == !marker.is_dir,
{
    PhaseTwo {
        key: DirScatterInode::path_encode_with(
            dir_staging_path,
            filename,
            child,
            DirScatterInodeOp::Delete.as_u8(),
            ulid,
        ),
        body: build_tombstone_body(now_ms, marker.retention_until_unix_ms, inode),
        decrement: !marker.is_dir,
    }
}

/// The marker that an unlink left, where its scatter object is still there and
/// holds one. It says in which namespace the child's inode is to be read.
pub fn unlink_marker_of(body: Option<&Vec<u8>>) -> (r: Option<UnlinkMarker>)
    ensures
        r == match body {
            Some(b) => marker_of(b@),
            None => None,
        },
{
    match body {
        Some(b) => match UnlinkMarker::from_body(b.as_slice()) {
            Ok(m) => Some(m),
            Err(_) => None,
        },
        None => None,
    }
}

/// Decides how a delete is finished, given the body that the unlink left and
/// the child's inode, either `None` where it is gone. Without a marker nothing
/// tells whether the child is a directory or how long it is to be kept, and a
/// child without an inode has been reclaimed: then there is nothing to write.
/// The name is out of the index either way, and a child that is left without a
/// tombstone is an orphan for the collector.
pub fn finish_delete(
    dir_staging_path: &str,
    filename: &str,
    child: &Uuid,
    marker_body: Option<&Vec<u8>>,
    inode: Option<&Vec<u8>>,
    now_ms: i64,
    ulid: &Ulid,
) -> (r: Option<PhaseTwo>)
    requires
        !ends_with(dir_staging_path@, "/"@),
    ensures
        match (marker_body, inode) {
            (Some(b), Some(i)) => match marker_of(b@) {
                Some(m) => r matches Some(p) && p.key@ == scatter_key(dir_staging_path@, filename@, *ulid, *child, 4)
                    && p.body@ == tombstone_bytes(
                    TombstoneHeader {
                        deleted_at_unix_ms: now_ms,
                        retention_until_unix_ms: m.retention_until_unix_ms,
                    },
                    i@,
                ) && p.decrement == !m.is_dir,
                None => r is None,
            },
            _ => r is None,
        },
{
    match (unlink_marker_of(marker_body), inode) {
        (Some(marker), Some(i)) => Some(
            phase_two(dir_staging_path, filename, child, &marker, i.as_slice(), now_ms, ulid),
        ),
        _ => None,
    }
}

// ---------------------------------------------------------------------------
// After the fold
// ---------------------------------------------------------------------------

/// Some tombstone has the key.
pub open spec fn is_tombstone_key(deleted: Seq<Scatter>, key: Seq<char>) -> bool {
    exists|i: int| 0 <= i < deleted.len() && (#[trigger] deleted[i]).key == key
}

/// The scatter objects that are removed once the fold has been committed: all
/// that were listed but the tombstones of the last view.
pub open spec fn strip_list(plan: ScatterPlan) -> Seq<Seq<char>> {
    string_views(plan.all_keys@).filter(|k: Seq<char>| !is_tombstone_key(scatter_views(plan.deleted@), k))
}

/// The scatter objects that are removed once the fold has been committed.
pub fn keys_to_strip(plan: &ScatterPlan) -> (r: Vec<String>)
    ensures
        string_views(r@) == strip_list(*plan),
{
    let ghost del = scatter_views(plan.deleted@);
    let ghost all = string_views(plan.all_keys@);
    let ghost p = |k: Seq<char>| !is_tombstone_key(del, k);
    let mut kept: StringHashMap<bool> = StringHashMap::new();
    for i in 0..plan.deleted.len()
        invariant
            del == scatter_views(plan.deleted@),
            forall|k: Seq<char>| #[trigger] kept@.contains_key(k) <==> is_tombstone_key(del.take(i as int), k),
    {
        let ghost before = kept@;
        let ghost a = del.take(i as int);
        let ghost b = del.take(i + 1);
        kept.insert(plan.deleted[i].key.clone(), true);
        assert forall|k: Seq<char>| #[trigger] kept@.contains_key(k) <==> is_tombstone_key(b, k) by {
            assert(forall|j: int| 0 <= j < i ==> a[j] == b[j]);
            assert(b[i as int] == plan.deleted@[i as int]@);
            if before.contains_key(k) {
                let j = choose|j: int| 0 <= j < a.len() && (#[trigger] a[j]).key == k;
                assert(b[j].key == k);
            }
            if is_tombstone_key(b, k) {
                let j = choose|j: int| 0 <= j < b.len() && (#[trigger] b[j]).key == k;
                if j < i {
                    assert(a[j].key == k);
                    assert(before.contains_key(k));
                }
            }
        }
    }
    assert(del.take(del.len() as int) =~= del);
    let mut out: Vec<String> = Vec::new();
    proof {
        reveal(Seq::filter);
    }
    assert(string_views(out@) =~= all.take(0).filter(p));
    for i in 0..plan.all_keys.len()
        invariant
            all == string_views(plan.all_keys@),
            p == (|k: Seq<char>| !is_tombstone_key(del, k)),
            forall|k: Seq<char>| #[trigger] kept@.contains_key(k) <==> is_tombstone_key(del, k),
            string_views(out@) == all.take(i as int).filter(p),
    {
        proof {
            reveal(Seq::filter);
        }
        let ghost now = string_views(out@);
        let key: &String = &plan.all_keys[i];
        assert(all.take(i + 1).drop_last() =~= all.take(i as int));
        assert(all.take(i + 1).last() == key@);
        if !kept.contains_key(key.as_str()) {
            let k: String = key.clone();
            out.push(k);
            assert(string_views(out@) =~= now.push(key@));
        }
    }
    assert(all.take(all.len() as int) =~= all);
    out
}

/// How many of the removals took an entry out of the index.
pub open spec fn count_true(v: Seq<bool>) -> nat
    decreases v.len(),
{
    if v.len() == 0 {
        0
    } else {
        count_true(v.drop_last()) + if v.last() {
            1nat
        } else {
            0nat
        }
    }
}

/// The statistics of a compaction, given for each removal whether it took an
/// entry out of the index.
pub fn compact_stats(plan: &ScatterPlan, removed: &Vec<bool>) -> (r: CompactStats)
    ensures
        r.no_op == (plan.all_keys.len() == 0),
        plan.all_keys.len() == 0 ==> r.scatters_processed == 0 && r.entries_added == 0 && r.entries_removed == 0
            && r.tombstones_kept == 0,
        plan.all_keys.len() > 0 ==> r.scatters_processed == plan.all_keys.len() && r.entries_added
            == plan.to_fetch.len() && r.entries_removed == count_true(removed@) && r.tombstones_kept
            == plan.deleted.len(),
{
    if plan.all_keys.len() == 0 {
        return CompactStats { no_op: true, ..CompactStats::default() };
    }
    let mut entries_removed: usize = 0;
    for i in 0..removed.len()
        invariant
            entries_removed == count_true(removed@.take(i as int)),
            entries_removed <= i,
    {
        assert(removed@.take(i + 1).drop_last() =~= removed@.take(i as int));
        if removed[i] {
            entries_removed += 1;
        }
    }
    assert(removed@.take(removed.len() as int) =~= removed@);
    CompactStats {
        scatters_processed: plan.all_keys.len(),
        entries_added: plan.to_fetch.len(),
        entries_removed,
        tombstones_kept: plan.deleted.len(),
        no_op: false,
    }
}

// ---------------------------------------------------------------------------
// The course of a compaction
// ---------------------------------------------------------------------------

/// Where a compaction stands.
#[derive(Clone, Copy, Debug, PartialEq, Eq, Structural)]
pub enum CompactStage {
    /// The created or updated entry of this number is to be written.
    Upsert(usize),
    /// The name of the removal of this number is to be removed.
    Remove(usize),
    /// The index is to be committed.
    Flush,
    /// The delete of this number is to be finished.
    Finish(usize),
    /// The scatter objects that have been folded are to be removed; there are
    /// some.
    Strip,
    /// Nothing is left to do.
    Over,
}

/// What a compaction does next.
#[derive(Debug)]
pub enum CompactAction {
    /// The entry is written under the name.
    Upsert(String, DirFileEntryRaw),
    /// The entry of the name is removed, if there is one.
    Remove(String),
    /// The index is committed.
    Flush,
    /// The delete that this unlink began is finished.
    FinishDelete(DirScatterInode),
    /// The objects with these keys are removed.
    Strip(Vec<String>),
    /// The compaction is over.
    Done(CompactStats),
}

/// A compaction, from the changes to fold to the end.
#[derive(Debug)]
pub struct Compaction {
    pub plan: ScatterPlan,
    /// The entries of the created and updated names.
    pub upserts: Vec<DirFileEntryRaw>,
    /// The changes that remove their name.
    pub removals: Vec<DirScatterInode>,
    /// For each removal so far, whether it took an entry out of the index.
    pub removed: Vec<bool>,
    /// The deletes that are to be finished, once the index is committed.
    pub jobs: Vec<DirScatterInode>,
    pub stage: CompactStage,
}

/// The stage, or the next one where it has nothing to do.
pub open spec fn settled(stage: CompactStage, upserts: int, removals: int, jobs: int, keys: int) -> CompactStage {
    match stage {
        CompactStage::Upsert(i) => if i < upserts {
            stage
        } else if removals > 0 {
            CompactStage::Remove(0)
        } else {
            CompactStage::Flush
        },
        CompactStage::Remove(i) => if i < removals {
            stage
        } else {
            CompactStage::Flush
        },
        CompactStage::Finish(i) => if i < jobs {
            stage
        } else if keys > 0 {
            CompactStage::Strip
        } else {
            CompactStage::Over
        },
        _ => stage,
    }
}

/// The stage after this one.
pub open spec fn stage_after(stage: CompactStage, upserts: int, removals: int, jobs: int, keys: int) -> CompactStage {
    match stage {
        CompactStage::Upsert(i) => settled(CompactStage::Upsert((i + 1) as usize), upserts, removals, jobs, keys),
        CompactStage::Remove(i) => settled(CompactStage::Remove((i + 1) as usize), upserts, removals, jobs, keys),
        CompactStage::Flush => settled(CompactStage::Finish(0), upserts, removals, jobs, keys),
        CompactStage::Finish(i) => settled(CompactStage::Finish((i + 1) as usize), upserts, removals, jobs, keys),
        CompactStage::Strip => CompactStage::Over,
        CompactStage::Over => CompactStage::Over,
    }
}

/// The order of the stages.
pub open spec fn stage_rank(stage: CompactStage) -> int {
    match stage {
        CompactStage::Upsert(_) => 0,
        CompactStage::Remove(_) => 1,
        CompactStage::Flush => 2,
        CompactStage::Finish(_) => 3,
        CompactStage::Strip => 4,
        CompactStage::Over => 5,
    }
}

/// Number of stages that are left.
pub open spec fn stages_left(stage: CompactStage, upserts: int, removals: int, jobs: int) -> int {
    match stage {
        CompactStage::Upsert(i) => upserts - i + removals + jobs + 3,
        CompactStage::Remove(i) => removals - i + jobs + 3,
        CompactStage::Flush => jobs + 2,
        CompactStage::Finish(i) => jobs - i + 1,
        CompactStage::Strip => 1,
        CompactStage::Over => 0,
    }
}

/// A compaction goes forward only and comes to an end. It never passes over
/// the commit of the index: scatter objects are removed, and deletes finished,
/// only after it, so that a crash before it loses nothing. A removal is asked
/// for exactly where there is something to remove.
pub proof fn law_commit_comes_before_removal(
    stage: CompactStage,
    upserts: int,
    removals: int,
    jobs: int,
    keys: int,
)
    requires
        0 <= jobs,
        0 <= keys,
        0 <= removals <= usize::MAX,
        match stage {
            CompactStage::Upsert(i) => i < upserts <= usize::MAX,
            CompactStage::Remove(i) => i < removals,
            CompactStage::Finish(i) => i < jobs <= usize::MAX,
            _ => true,
        },
    ensures
        ({
            let next = stage_after(stage, upserts, removals, jobs, keys);
            &&& stage_rank(stage) <= stage_rank(next)
            &&& stage_rank(stage) < 2 ==> stage_rank(next) <= 2
            &&& stage != CompactStage::Over ==> stages_left(next, upserts, removals, jobs) < stages_left(
                stage,
                upserts,
                removals,
                jobs,
            )
            &&& next == CompactStage::Strip ==> keys > 0
            &&& next == CompactStage::Over && keys > 0 ==> stage_rank(stage) >= 4
        }),
{
}

impl Compaction {
    /// What holds at every stage.
    pub open spec fn ok(self) -> bool {
        &&& self.upserts.len() == self.plan.to_fetch.len()
        &&& scatter_views(self.removals@) == scatter_views(self.plan.unlinked@) + scatter_views(self.plan.deleted@)
        &&& match self.stage {
            CompactStage::Upsert(i) => i < self.upserts.len() && self.removed.len() == 0,
            CompactStage::Remove(i) => i < self.removals.len() && self.removed.len() == i,
            CompactStage::Flush => self.removed.len() == self.removals.len(),
            CompactStage::Finish(i) => i < self.jobs.len() && self.folded(),
            CompactStage::Strip => self.folded() && strip_list(self.plan).len() > 0,
            CompactStage::Over => self.plan.all_keys.len() == 0 || self.folded(),
        }
    }

    /// All names have been dealt with, and the deletes to finish are known.
    pub open spec fn folded(self) -> bool {
        &&& self.removed.len() == self.removals.len()
        &&& scatter_views(self.jobs@) == due_jobs(scatter_views(self.removals@), self.removed@)
    }

    /// Begins a compaction, given the entries of the created and updated
    /// names. Without changes it is over at once.
    pub fn begin(plan: ScatterPlan, upserts: Vec<DirFileEntryRaw>) -> (r: Compaction)
        requires
            upserts.len() == plan.to_fetch.len(),
        ensures
            r.ok(),
            r.plan == plan,
            r.upserts == upserts,
            r.removed.len() == 0,
            r.jobs.len() == 0,
            r.stage == if plan.all_keys.len() == 0 {
                CompactStage::Over
            } else {
                settled(
                    CompactStage::Upsert(0),
                    upserts.len() as int,
                    r.removals.len() as int,
                    0,
                    strip_list(plan).len() as int,
                )
            },
    {
        let rs: Vec<DirScatterInode> = removals(&plan);
        let stage: CompactStage = if plan.all_keys.len() == 0 {
            CompactStage::Over
        } else if upserts.len() > 0 {
            CompactStage::Upsert(0)
        } else if rs.len() > 0 {
            CompactStage::Remove(0)
        } else {
            CompactStage::Flush
        };
        Compaction { plan, upserts, removals: rs, removed: Vec::new(), jobs: Vec::new(), stage }
    }

    /// What is to be done at this stage.
    pub fn action(&self) -> (r: CompactAction)
        requires
            self.ok(),
        ensures
            match self.stage {
                CompactStage::Upsert(i) => r matches CompactAction::Upsert(name, e) && name@
                    == self.plan.to_fetch@[i as int].filename@ && e == self.upserts@[i as int],
                CompactStage::Remove(i) => r matches CompactAction::Remove(name) && name@
                    == self.removals@[i as int].filename@,
                CompactStage::Flush => r == CompactAction::Flush,
                CompactStage::Finish(i) => r matches CompactAction::FinishDelete(s) && s@ == self.jobs@[i as int]@,
                CompactStage::Strip => r matches CompactAction::Strip(keys) && string_views(keys@) == strip_list(
                    self.plan,
                ) && keys.len() > 0,
                CompactStage::Over => r matches CompactAction::Done(stats) && stats.no_op == (
                self.plan.all_keys.len() == 0) && (!stats.no_op ==> stats == CompactStats {
                    scatters_processed: self.plan.all_keys.len(),
                    entries_added: self.plan.to_fetch.len(),
                    entries_removed: count_true(self.removed@) as usize,
                    tombstones_kept: self.plan.deleted.len(),
                    no_op: false,
                }) && (stats.no_op ==> stats == CompactStats {
                    scatters_processed: 0,
                    entries_added: 0,
                    entries_removed: 0,
                    tombstones_kept: 0,
                    no_op: true,
                }),
            },
    {
        match self.stage {
            CompactStage::Upsert(i) => CompactAction::Upsert(self.plan.to_fetch[i].filename.clone(), self.upserts[i]),
            CompactStage::Remove(i) => CompactAction::Remove(self.removals[i].filename.clone()),
            CompactStage::Flush => CompactAction::Flush,
            CompactStage::Finish(i) => CompactAction::FinishDelete(self.jobs[i].copy()),
            CompactStage::Strip => {
                let keys: Vec<String> = keys_to_strip(&self.plan);
                assert(string_views(keys@).len() == keys.len());
                CompactAction::Strip(keys)
            },
            CompactStage::Over => CompactAction::Done(compact_stats(&self.plan, &self.removed)),
        }
    }

    /// The stage after the last delete has been finished: without an object to
    /// remove, the compaction is over.
    fn last_stage(&self) -> (r: CompactStage)
        ensures
            r == if strip_list(self.plan).len() > 0 {
                CompactStage::Strip
            } else {
                CompactStage::Over
            },
    {
        let keys: Vec<String> = keys_to_strip(&self.plan);
        assert(string_views(keys@).len() == keys.len());
        if keys.len() > 0 {
            CompactStage::Strip
        } else {
            CompactStage::Over
        }
    }

    /// Goes on to the next stage when the action of this one has been done. Of
    /// a removal, `removed` says whether it took an entry out of the index.
    /// The stage that removes scatter objects is passed over where there are
    /// none to remove.
    pub fn advance(&mut self, removed: bool)
        requires
            old(self).ok(),
        ensures
            final(self).ok(),
            final(self).plan == old(self).plan,
            final(self).upserts == old(self).upserts,
            final(self).removals == old(self).removals,
            final(self).removed@ == if old(self).stage is Remove {
                old(self).removed@.push(removed)
            } else {
                old(self).removed@
            },
            final(self).stage == stage_after(
                old(self).stage,
                old(self).upserts.len() as int,
                old(self).removals.len() as int,
                final(self).jobs.len() as int,
                strip_list(old(self).plan).len() as int,
            ),
    {
        match self.stage {
            CompactStage::Upsert(i) => {
                if i + 1 < self.upserts.len() {
                    self.stage = CompactStage::Upsert(i + 1);
                } else if self.removals.len() > 0 {
                    self.stage = CompactStage::Remove(0);
                } else {
                    self.stage = CompactStage::Flush;
                }
            },
            CompactStage::Remove(i) => {
                self.removed.push(removed);
                if i + 1 < self.removals.len() {
                    self.stage = CompactStage::Remove(i + 1);
                } else {
                    self.stage = CompactStage::Flush;
                }
            },
            CompactStage::Flush => {
                self.jobs = phase_two_jobs(&self.removals, &self.removed);
                if self.jobs.len() > 0 {
                    self.stage = CompactStage::Finish(0);
                } else {
                    self.stage = self.last_stage();
                }
            },
            CompactStage::Finish(i) => {
                if i + 1 < self.jobs.len() {
                    self.stage = CompactStage::Finish(i + 1);
                } else {
                    self.stage = self.last_stage();
                }
            },
            CompactStage::Strip => {
                self.stage = CompactStage::Over;
            },
            CompactStage::Over => {},
        }
    }
}

// ---------------------------------------------------------------------------
// Laws of single steps
// ---------------------------------------------------------------------------

/// Compaction keeps every tombstone and strips everything else: the key of no
/// delete of the last view, at whatever position, is among the keys to strip,
/// and every other key that was listed is.
pub proof fn law_tombstones_are_kept_and_all_else_is_stripped(plan: ScatterPlan, i: int, k: int)
    ensures
        0 <= i < plan.deleted.len() ==> !strip_list(plan).contains(plan.deleted[i].key@),
        0 <= k < plan.all_keys.len() && (forall|j: int|
            0 <= j < plan.deleted.len() ==> (#[trigger] plan.deleted@[j]).key@ != plan.all_keys[k]@)
            ==> strip_list(plan).contains(plan.all_keys[k]@),
        forall|key: Seq<char>| #[trigger]
            strip_list(plan).contains(key) ==> exists|j: int|
                0 <= j < plan.all_keys.len() && (#[trigger] plan.all_keys@[j])@ == key,
        plan.deleted.len() == 0 ==> strip_list(plan) == string_views(plan.all_keys@),
{
    let del = scatter_views(plan.deleted@);
    let all = string_views(plan.all_keys@);
    let p = |x: Seq<char>| !is_tombstone_key(del, x);
    assert(strip_list(plan) == all.filter(p));
    if 0 <= i < plan.deleted.len() {
        assert(del[i].key == plan.deleted@[i].key@);
        lemma_filter_members(all, p, plan.deleted@[i].key@);
    }
    if 0 <= k < plan.all_keys.len() && (forall|j: int|
        0 <= j < plan.deleted.len() ==> (#[trigger] plan.deleted@[j]).key@ != plan.all_keys[k]@) {
        let key = plan.all_keys[k]@;
        lemma_filter_members(all, p, key);
        assert(all[k] == key);
        if is_tombstone_key(del, key) {
            let j = choose|j: int| 0 <= j < del.len() && (#[trigger] del[j]).key == key;
            assert(del[j].key == plan.deleted@[j].key@);
        }
    }
    assert forall|key: Seq<char>| #[trigger] strip_list(plan).contains(key) implies exists|j: int|
        0 <= j < plan.all_keys.len() && (#[trigger] plan.all_keys@[j])@ == key by {
        lemma_filter_members(all, p, key);
        let j = choose|j: int| 0 <= j < all.len() && all[j] == key;
        assert(plan.all_keys@[j]@ == key);
    }
    if plan.deleted.len() == 0 {
        lemma_filter_all(all, p);
    }
}

proof fn lemma_filter_all(s: Seq<Seq<char>>, p: spec_fn(Seq<char>) -> bool)
    requires
        forall|i: int| 0 <= i < s.len() ==> p(#[trigger] s[i]),
    ensures
        s.filter(p) == s,
    decreases s.len(),
{
    reveal(Seq::filter);
    if s.len() > 0 {
        let d = s.drop_last();
        assert forall|i: int| 0 <= i < d.len() implies p(#[trigger] d[i]) by {
            assert(d[i] == s[i]);
        }
        lemma_filter_all(d, p);
        assert(p(s[s.len() - 1]));
        assert(s.filter(p) =~= s);
    } else {
        assert(s.filter(p) =~= s);
    }
}

/// The keys to strip are gone through in the order of the listing: one more key
/// that was listed is one more to strip, unless it is a tombstone's.
pub proof fn law_keys_are_stripped_in_order(plan: ScatterPlan, more: ScatterPlan, key: Seq<char>)
    requires
        more.deleted == plan.deleted,
        string_views(more.all_keys@) == string_views(plan.all_keys@).push(key),
    ensures
        (exists|j: int| 0 <= j < plan.deleted.len() && (#[trigger] plan.deleted@[j]).key@ == key) ==> strip_list(more)
            == strip_list(plan),
        !(exists|j: int| 0 <= j < plan.deleted.len() && (#[trigger] plan.deleted@[j]).key@ == key) ==> strip_list(more)
            == strip_list(plan).push(key),
{
    reveal(Seq::filter);
    let del = scatter_views(plan.deleted@);
    let a = string_views(plan.all_keys@);
    assert(a.push(key).drop_last() =~= a);
    if is_tombstone_key(del, key) {
        let j = choose|j: int| 0 <= j < del.len() && (#[trigger] del[j]).key == key;
        assert(plan.deleted@[j].key@ == key);
    }
    if exists|j: int| 0 <= j < plan.deleted.len() && (#[trigger] plan.deleted@[j]).key@ == key {
        let j = choose|j: int| 0 <= j < plan.deleted.len() && (#[trigger] plan.deleted@[j]).key@ == key;
        assert(del[j].key == key);
    }
}

/// The removals are gone through one by one, and the second phase of a delete
/// is due for each unlink that took an entry out of the index, and for nothing
/// else; each removal that took one out is counted.
pub proof fn law_second_phase_removal_by_removal(rs: Seq<Scatter>, removed: Seq<bool>, s: Scatter, took: bool)
    requires
        rs.len() == removed.len(),
    ensures
        due_jobs(Seq::<Scatter>::empty(), Seq::<bool>::empty()) == Seq::<Scatter>::empty(),
        s.op == DirScatterInodeOp::PreDelete && took ==> due_jobs(rs.push(s), removed.push(took)) == due_jobs(
            rs,
            removed,
        ).push(s),
        s.op != DirScatterInodeOp::PreDelete || !took ==> due_jobs(rs.push(s), removed.push(took)) == due_jobs(
            rs,
            removed,
        ),
        phase_two_is_due(s.op, took) <==> s.op == DirScatterInodeOp::PreDelete && took,
        count_true(Seq::<bool>::empty()) == 0,
        count_true(removed.push(true)) == count_true(removed) + 1,
        count_true(removed.push(false)) == count_true(removed),
{
    assert(rs.push(s).drop_last() =~= rs);
    assert(removed.push(took).drop_last() =~= removed);
    assert(removed.push(true).drop_last() =~= removed);
    assert(removed.push(false).drop_last() =~= removed);
}

/// Nothing is passed over: every entry is written and every name removed in its
/// turn before the index is committed, and every delete is finished in its turn
/// before anything is stripped.
pub proof fn law_every_step_of_a_compaction_has_its_turn(
    i: usize,
    upserts: int,
    removals: int,
    jobs: int,
    keys: int,
)
    requires
        i < usize::MAX,
        0 <= upserts,
        0 <= removals,
        0 <= jobs,
        0 <= keys,
    ensures
        i + 1 < upserts ==> stage_after(CompactStage::Upsert(i), upserts, removals, jobs, keys) == CompactStage::Upsert(
            (i + 1) as usize,
        ),
        i + 1 >= upserts && removals > 0 ==> stage_after(CompactStage::Upsert(i), upserts, removals, jobs, keys)
            == CompactStage::Remove(0),
        i + 1 >= upserts && removals == 0 ==> stage_after(CompactStage::Upsert(i), upserts, removals, jobs, keys)
            == CompactStage::Flush,
        i + 1 < removals ==> stage_after(CompactStage::Remove(i), upserts, removals, jobs, keys)
            == CompactStage::Remove((i + 1) as usize),
        i + 1 >= removals ==> stage_after(CompactStage::Remove(i), upserts, removals, jobs, keys) == CompactStage::Flush,
        jobs > 0 ==> stage_after(CompactStage::Flush, upserts, removals, jobs, keys) == CompactStage::Finish(0),
        jobs == 0 && keys > 0 ==> stage_after(CompactStage::Flush, upserts, removals, jobs, keys) == CompactStage::Strip,
        jobs == 0 && keys == 0 ==> stage_after(CompactStage::Flush, upserts, removals, jobs, keys) == CompactStage::Over,
        i + 1 < jobs ==> stage_after(CompactStage::Finish(i), upserts, removals, jobs, keys) == CompactStage::Finish(
            (i + 1) as usize,
        ),
        i + 1 >= jobs && keys > 0 ==> stage_after(CompactStage::Finish(i), upserts, removals, jobs, keys)
            == CompactStage::Strip,
        i + 1 >= jobs && keys == 0 ==> stage_after(CompactStage::Finish(i), upserts, removals, jobs, keys)
            == CompactStage::Over,
        stage_after(CompactStage::Strip, upserts, removals, jobs, keys) == CompactStage::Over,
        stage_after(CompactStage::Over, upserts, removals, jobs, keys) == CompactStage::Over,
        settled(CompactStage::Upsert(0), upserts, removals, jobs, keys) == if upserts > 0 {
            CompactStage::Upsert(0)
        } else if removals > 0 {
            CompactStage::Remove(0)
        } else {
            CompactStage::Flush
        },
{
}

/// What holds of a compaction at each stage, in terms of what it has done: no
/// removal is recorded before the first, one for each that was done while names
/// are removed, and one for each from then on; and the deletes to finish are
/// those of the unlinks that took an entry out.
pub proof fn law_compaction_records_what_it_did(c: Compaction)
    requires
        c.ok(),
    ensures
        c.upserts.len() == c.plan.to_fetch.len(),
        c.removals.len() == c.plan.unlinked.len() + c.plan.deleted.len(),
        forall|i: int|
            0 <= i < c.plan.unlinked.len() ==> (#[trigger] c.removals@[i]).filename@ == c.plan.unlinked@[i].filename@,
        forall|i: int|
            0 <= i < c.plan.deleted.len() ==> c.removals@[c.plan.unlinked.len() + i].filename@ == (
            #[trigger] c.plan.deleted@[i]).filename@,
        c.stage is Upsert ==> c.removed.len() == 0,
        c.stage is Remove ==> c.removed.len() == c.stage->Remove_0 && c.stage->Remove_0 < c.removals.len(),
        c.stage is Flush || c.stage is Finish || c.stage is Strip ==> c.removed.len() == c.removals.len(),
        c.stage is Finish || c.stage is Strip ==> scatter_views(c.jobs@) == due_jobs(
            scatter_views(c.removals@),
            c.removed@,
        ),
{
    let a = scatter_views(c.plan.unlinked@);
    let b = scatter_views(c.plan.deleted@);
    let r = scatter_views(c.removals@);
    assert(r.len() == c.removals.len());
    assert(r == a + b);
    assert forall|i: int| 0 <= i < c.plan.unlinked.len() implies (#[trigger] c.removals@[i]).filename@
        == c.plan.unlinked@[i].filename@ by {
        assert(r[i] == c.removals@[i]@ && r[i] == a[i]);
    }
    assert forall|i: int| 0 <= i < c.plan.deleted.len() implies c.removals@[c.plan.unlinked.len() + i].filename@ == (
    #[trigger] c.plan.deleted@[i]).filename@ by {
        assert(r[a.len() + i] == c.removals@[a.len() + i]@ && r[a.len() + i] == b[i]);
    }
}

} // verus!
