use hyperdir::blockptr::{decode_ptr, display_ptr, PtrFormat};
use hyperdir::file::{merge_view, name_shown, resolve_fetched, resolve_step, DirFileEntry, ResolveStep};
use hyperdir::gc::{
    displaced_is_reclaimed, gc_after_body, gc_after_fold, gc_after_links, gc_after_lookup, gc_after_reclaim,
    gc_after_removal, gc_begin, gc_would_reclaim, rmdir_check, FoldReply, GcOutcome, GcState, LinksReply, Referenced,
};
use hyperdir::intent::{ReclaimIntent, RenameIntent};
use hyperdir::interceptor::FlushFlag;
use hyperdir::lease::PutReply;
use hyperdir::links::{
    adjusted_nlink, checked_nlink, chmod_mode, is_dir_mode, link_entry, link_next, link_precheck, nlink_next, relink_inode, stored_is_dir,
    stored_nlink, InsertReply, LinkNext, S_IFDIR, S_IFMT,
};
use hyperdir::lock::{OccNext, PutOutcome};
use hyperdir::ondisk::{DirFileEntryRaw, InodeRaw};
use hyperdir::rename::{
    intent_kind, recover_reclaim, rename_claim, rename_is_noop, rename_txn_id, rename_within_check, DirChange, IntentKind,
    ReclaimStep, RenameWithin,
};
use hyperdir::store::{create_after, key_batches, open_checkpoint_check, removal_outcome};
use hyperdir::tombstone::{build_tombstone_body, unlink_marker};
use hyperdir::{
    DirScatterInode, DirScatterInodeOp, Error, ErrorKind, GcStats, ScatterFirstInterceptor, Ulid, Uuid,
};
use hyperfile::meta_format::BlockPtrFormat;
use std::collections::BTreeMap;

fn inode(mode: u32, nlink: u64) -> Vec<u8> {
    let raw = hyperfile::ondisk::InodeRaw { i_mode: mode, i_nlink: nlink, i_size: 7, ..Default::default() };
    raw.as_u8_slice().to_vec()
}

fn raw_entry(name: &str, id: u128) -> DirFileEntryRaw {
    DirFileEntryRaw::from(&InodeRaw::default(), &Uuid::from_u128(id), name.as_bytes())
}

fn shown(v: &[DirFileEntry]) -> Vec<(String, u128)> {
    v.iter().map(|e| (e.name.clone(), e.uuid.bits)).collect()
}

fn change(name: &str, op: DirScatterInodeOp, ulid: u128) -> DirScatterInode {
    let key = DirScatterInode::path_encode_with("DIR/p", name, &Uuid::from_u128(ulid), op.as_u8(), &Ulid { bits: ulid });
    DirScatterInode::path_decode(&key, 0)
}

#[test]
fn listing_overlays_the_index() {
    let base = vec![raw_entry("a", 1), raw_entry("b", 2), DirFileEntryRaw::dummy_value(), raw_entry("c", 3)];
    let ups = vec![raw_entry("b", 20), raw_entry("d", 40)];
    let gone = vec!["c".to_string(), "zzz".to_string()];
    assert_eq!(
        shown(&merge_view(&base, &ups, &gone)),
        vec![("a".to_string(), 1), ("b".to_string(), 20), ("d".to_string(), 40)]
    );
    assert_eq!(shown(&merge_view(&base, &Vec::new(), &Vec::new())).len(), 3);
}

#[test]
fn shown_entries() {
    let e = DirFileEntry::from_raw(&raw_entry("\u{6587}", 5));
    assert_eq!(e.name, "\u{6587}");
    assert_eq!(e.uuid, Uuid::from_u128(5));
    // names that are not text, or not terminated, show as nothing
    let bad = DirFileEntryRaw::from(&InodeRaw::default(), &Uuid::nil(), &[0xff, 0xfe]);
    assert_eq!(DirFileEntry::from_raw(&bad).name, "");
    let mut open_ended = bad;
    open_ended.name = [b'a'; 256];
    assert_eq!(DirFileEntry::from_raw(&open_ended).name, "");
}

#[test]
fn over_long_names_are_cut_alike() {
    let long = "x".repeat(300);
    let ups = vec![raw_entry(&long, 1)];
    assert_eq!(merge_view(&Vec::new(), &ups, &Vec::new())[0].name, "x".repeat(255));
    assert!(merge_view(&ups, &Vec::new(), &vec![long]).is_empty());
}

#[test]
fn resolving_one_name() {
    assert!(matches!(resolve_step(&Vec::new(), "n"), ResolveStep::PointLookup));
    let v = vec![change("n", DirScatterInodeOp::Create, 1), change("n", DirScatterInodeOp::PreDelete, 2)];
    assert!(matches!(resolve_step(&v, "n"), ResolveStep::Absent));
    let v = vec![change("n", DirScatterInodeOp::Delete, 1), change("n", DirScatterInodeOp::Create, 2)];
    match resolve_step(&v, "n") {
        ResolveStep::Fetch(s) => {
            assert_eq!(s.ulid.bits, 2);
            let e = resolve_fetched(&s, Some(&inode(0o100644, 1))).unwrap();
            assert_eq!(e.name, "n");
            assert_eq!(e.inode.bytes.to_vec(), inode(0o100644, 1));
            // a body that was compacted away in between
            assert!(resolve_fetched(&s, None).is_none());
        },
        other => panic!("{:?}", other),
    }
    assert!(matches!(resolve_step(&v, "other"), ResolveStep::PointLookup));
    let v = vec![change("n", DirScatterInodeOp::Unknown, 1)];
    assert!(matches!(resolve_step(&v, "n"), ResolveStep::PointLookup));
    let v = vec![change("n", DirScatterInodeOp::Delete, 3)];
    assert!(matches!(resolve_step(&v, "n"), ResolveStep::Absent));
}

#[test]
fn listing_agrees_with_resolve() {
    let all = vec![
        change("a", DirScatterInodeOp::Create, 1),
        change("a", DirScatterInodeOp::PreDelete, 3),
        change("b", DirScatterInodeOp::Update, 2),
    ];
    let base = vec![raw_entry("a", 100), raw_entry("b", 200), raw_entry("c", 300)];
    let plan = hyperdir::file::plan_changes(all.iter().map(|s| s.copy()).collect());
    let body = inode(0o100644, 1);
    let ups: Vec<DirFileEntryRaw> =
        plan.to_fetch.iter().map(|s| hyperdir::file::upsert_entry(s, &body)).collect();
    let gone: Vec<String> = plan.unlinked.iter().chain(plan.deleted.iter()).map(|s| s.filename.clone()).collect();
    let listing: BTreeMap<String, u128> = shown(&merge_view(&base, &ups, &gone)).into_iter().collect();
    for name in ["a", "b", "c", "d"] {
        let mine: Vec<DirScatterInode> = all.iter().filter(|s| s.filename == name).map(|s| s.copy()).collect();
        let resolved = match resolve_step(&mine, name) {
            ResolveStep::Absent => None,
            ResolveStep::Fetch(s) => resolve_fetched(&s, Some(&body)).map(|e| e.uuid.bits),
            ResolveStep::PointLookup => base.iter().find(|e| e.name_eq(name.as_bytes())).map(|e| e.uuid.bits),
        };
        assert_eq!(resolved, listing.get(name).copied(), "{}", name);
    }
}

#[test]
fn modes() {
    assert_eq!(S_IFMT, libc::S_IFMT);
    assert_eq!(S_IFDIR, libc::S_IFDIR);
    assert!(is_dir_mode(0o040755));
    assert!(!is_dir_mode(0o100755));
    assert!(!is_dir_mode(0o060755));
    assert_eq!(chmod_mode(0o100644, 0o755), 0o100755);
    assert_eq!(chmod_mode(0o040755, 0o100600), 0o040600);
    assert_eq!(chmod_mode(0o040755, 0o7777), 0o047777);
}

#[test]
fn link_counts() {
    assert_eq!(adjusted_nlink(2, -1), 1);
    assert_eq!(adjusted_nlink(0, -1), 0);
    assert_eq!(adjusted_nlink(1, 1), 2);
    assert_eq!(adjusted_nlink(u64::MAX, 1), 0);
    let before = inode(0o100644, 2);
    let after = relink_inode(&before, 1).unwrap();
    assert_eq!(after.nlink, 3);
    assert_eq!(stored_nlink(&before), 2);
    assert_eq!(stored_nlink(&after.inode), 3);
    assert!(!stored_is_dir(&after.inode));
    assert!(stored_is_dir(&inode(0o040755, 1)));
    // nothing else of the inode changes
    assert_eq!(&after.inode[..64], &before[..64]);
    assert_eq!(&after.inode[72..], &before[72..]);
    assert_eq!(relink_inode(&after.inode, -1).unwrap().inode, before);
    assert!(relink_inode(&inode(0, i64::MAX as u64), 1).is_none());
    assert_eq!(relink_inode(&inode(0, 0), -1).unwrap().nlink, 0);
}

#[test]
fn link_count_retries() {
    assert_eq!(nlink_next(0, PutOutcome::Written), OccNext::Done);
    assert_eq!(nlink_next(3, PutOutcome::Retry), OccNext::Again);
    assert_eq!(nlink_next(4, PutOutcome::Retry), OccNext::Busy);
}

#[test]
fn hard_links() {
    assert!(link_precheck(false, false).is_ok());
    assert_eq!(link_precheck(true, true).unwrap_err().kind(), ErrorKind::AlreadyExists);
    assert_eq!(link_precheck(false, true).unwrap_err().kind(), ErrorKind::InvalidInput);
    let e = link_entry(&inode(0o100644, 1), 2, &Uuid::from_u128(8), "new");
    assert_eq!(e.name_bytes(), b"new".to_vec());
    assert_eq!(e.uuid, Uuid::from_u128(8));
    assert_eq!(e.inode.bytes.to_vec(), inode(0o100644, 2));
    assert_eq!(link_next(0, InsertReply::Committed), LinkNext::Done);
    assert_eq!(link_next(0, InsertReply::NameTaken), LinkNext::RollBack(Error::NameTaken));
    assert_eq!(link_next(3, InsertReply::Conflict), LinkNext::Again);
    assert_eq!(link_next(4, InsertReply::Conflict), LinkNext::RollBack(Error::TooManyConflicts));
    assert_eq!(link_next(0, InsertReply::Failed), LinkNext::RollBack(Error::StoreFailed));
    assert_eq!(Error::TooManyConflicts.kind(), ErrorKind::ResourceBusy);
}

#[test]
fn a_raced_link_leaves_no_over_count() {
    for replies in [
        vec![InsertReply::Committed],
        vec![InsertReply::Conflict, InsertReply::Committed],
        vec![InsertReply::Conflict, InsertReply::NameTaken],
        vec![InsertReply::Conflict; 5],
        vec![InsertReply::Failed],
    ] {
        let mut nlink = 2u64;
        let mut entries = 0;
        for (round, reply) in replies.iter().enumerate() {
            match link_next(round, *reply) {
                LinkNext::Done => entries += 1,
                LinkNext::Again => continue,
                LinkNext::RollBack(_) => nlink = adjusted_nlink(nlink, -1),
            }
        }
        assert_eq!(nlink, 1 + entries);
    }
}

#[test]
fn garbage_collection_of_a_tombstone() {
    let child = Uuid::from_u128(9);
    let file = build_tombstone_body(1, 500, &inode(0o100644, 0));
    let dir = build_tombstone_body(1, 0, &inode(0o040755, 1));
    assert!(gc_begin(DirScatterInodeOp::Delete).is_some());
    assert!(gc_begin(DirScatterInodeOp::PreDelete).is_none());
    // body
    assert!(matches!(gc_after_body(None, 0), GcState::Over(GcOutcome::Failed)));
    assert!(matches!(gc_after_body(Some(&vec![0; 15]), 0), GcState::Over(GcOutcome::Failed)));
    assert!(matches!(gc_after_body(Some(&file), 499), GcState::Over(GcOutcome::SkippedRetention)));
    let ino = match gc_after_body(Some(&file), 500) {
        GcState::CheckFold(i) => i,
        other => panic!("{:?}", other),
    };
    assert_eq!(ino, inode(0o100644, 0));
    // fold
    assert!(matches!(gc_after_fold(&ino, &child, FoldReply::Found(child)), GcState::Over(GcOutcome::SkippedUnfolded)));
    assert!(matches!(gc_after_fold(&ino, &child, FoldReply::Failed), GcState::Over(GcOutcome::Failed)));
    assert!(matches!(gc_after_fold(&ino, &child, FoldReply::NotFound), GcState::CheckLinks));
    assert!(matches!(gc_after_fold(&ino, &child, FoldReply::Found(Uuid::nil())), GcState::CheckLinks));
    assert!(matches!(gc_after_fold(&inode(0o040755, 1), &child, FoldReply::NotFound), GcState::Reclaim(true)));
    assert!(matches!(gc_after_fold(&vec![1], &child, FoldReply::NotFound), GcState::Over(GcOutcome::Failed)));
    // links
    assert!(matches!(gc_after_links(LinksReply::Links(0)), GcState::Reclaim(false)));
    assert!(matches!(gc_after_links(LinksReply::Links(1)), GcState::RemoveTombstone));
    assert!(matches!(gc_after_links(LinksReply::NotFound), GcState::Reclaim(false)));
    assert!(matches!(gc_after_links(LinksReply::Failed), GcState::Over(GcOutcome::Failed)));
    // end
    assert!(matches!(gc_after_reclaim(true), GcState::RemoveTombstone));
    assert!(matches!(gc_after_reclaim(false), GcState::Over(GcOutcome::Failed)));
    assert!(matches!(gc_after_removal(true), GcState::Over(GcOutcome::Reclaimed)));
    assert!(matches!(gc_after_removal(false), GcState::Over(GcOutcome::Failed)));
    // put together
    assert!(gc_would_reclaim(&file, 500, &child, FoldReply::NotFound, LinksReply::Links(0)));
    assert!(!gc_would_reclaim(&file, 499, &child, FoldReply::NotFound, LinksReply::Links(0)));
    assert!(!gc_would_reclaim(&file, 500, &child, FoldReply::NotFound, LinksReply::Links(2)));
    assert!(!gc_would_reclaim(&file, 500, &child, FoldReply::Found(child), LinksReply::Links(0)));
    assert!(gc_would_reclaim(&dir, 0, &child, FoldReply::NotFound, LinksReply::Links(7)));
}

#[test]
fn retention_is_honoured() {
    let m = unlink_marker(false, 1_000, Some(3_000));
    let t = build_tombstone_body(2_000, m.retention_until_unix_ms, &inode(0o100644, 0));
    assert!(matches!(gc_after_body(Some(&t), 3_999), GcState::Over(GcOutcome::SkippedRetention)));
    assert!(matches!(gc_after_body(Some(&t), 4_000), GcState::CheckFold(_)));
    let m = unlink_marker(false, 1_000, None);
    let t = build_tombstone_body(2_000, m.retention_until_unix_ms, &inode(0o100644, 0));
    assert!(matches!(gc_after_body(Some(&t), 0), GcState::CheckFold(_)));
}

#[test]
fn gc_statistics() {
    let mut s = GcStats::default();
    for o in [GcOutcome::SkippedRetention, GcOutcome::SkippedUnfolded, GcOutcome::Reclaimed, GcOutcome::Failed] {
        s.count(o);
    }
    s.count(GcOutcome::Reclaimed);
    assert_eq!(
        s,
        GcStats {
            tombstones_visited: 5,
            tombstones_skipped_retention: 1,
            tombstones_skipped_unfolded: 1,
            tombstones_reclaimed: 2,
            errors: 1,
        }
    );
}

#[test]
fn displaced_children() {
    assert!(displaced_is_reclaimed(true, None));
    assert!(displaced_is_reclaimed(true, Some(9)));
    assert!(displaced_is_reclaimed(false, Some(0)));
    assert!(displaced_is_reclaimed(false, Some(1)));
    assert!(!displaced_is_reclaimed(false, Some(2)));
    assert!(!displaced_is_reclaimed(false, None));
}

#[test]
fn removing_directories() {
    assert!(rmdir_check(0).is_ok());
    assert_eq!(rmdir_check(1).unwrap_err().kind(), ErrorKind::DirectoryNotEmpty);
}

#[test]
fn orphans() {
    let mut r = Referenced::none();
    let named = Uuid::from_u128(5);
    let nameless = Uuid::from_u128(6);
    r.mark(&vec![DirFileEntry::from_raw(&raw_entry("n", 5))]);
    r.mark(&Vec::new());
    assert!(r.contains(&named));
    assert!(!r.contains(&nameless));
    assert!(!r.orphan_file_due(&named, 0, 0, 1_000_000));
    assert!(r.orphan_file_due(&nameless, 10, 5_000, 15_000));
    // within the grace period
    assert!(!r.orphan_file_due(&nameless, 10, 5_001, 15_000));
    assert!(!r.orphan_file_due(&nameless, 10, u128::MAX, 15_000));
    assert!(r.orphan_file_due(&nameless, i64::MIN, 5, 0));
    assert!(!r.orphan_file_due(&nameless, i64::MAX, 5, i64::MAX));
    // directories
    assert!(r.orphan_dir_due(&nameless, true, 0, 0, 1));
    assert!(!r.orphan_dir_due(&nameless, false, 0, 0, 1));
    assert!(!r.orphan_dir_due(&named, true, 0, 0, 1));
    assert!(!r.orphan_dir_due(&Uuid::nil(), true, 0, 0, 1));
    assert!(!r.orphan_dir_due(&nameless, true, 10, 5_001, 15_000));
    // once a directory could not be listed, nothing is known to be an orphan
    r.mark_unlisted();
    assert!(!r.orphan_file_due(&nameless, 10, 5_000, 15_000));
    assert!(!r.orphan_dir_due(&nameless, true, 0, 0, 1));
    r.mark(&Vec::new());
    assert!(!r.complete);
}

#[test]
fn renames_inside_a_directory() {
    assert_eq!(rename_within_check("a", "a", false, true), Ok(RenameWithin::Nothing));
    assert_eq!(rename_within_check("a", "b", true, false), Ok(RenameWithin::Move));
    assert_eq!(rename_within_check("a", "b", false, false).unwrap_err().kind(), ErrorKind::NotFound);
    assert_eq!(rename_within_check("a", "b", true, true).unwrap_err().kind(), ErrorKind::AlreadyExists);
}

#[test]
fn rename_claims_name_the_source() {
    let a = Uuid::from_u128(1);
    let b = Uuid::from_u128(2);
    assert_eq!(rename_txn_id(&a, "foo"), "00000000-0000-0000-0000-000000000001_Xk7t");
    assert_eq!(rename_txn_id(&a, "x"), rename_txn_id(&a, "x"));
    assert_ne!(rename_txn_id(&a, "x"), rename_txn_id(&b, "x"));
    assert_ne!(rename_txn_id(&a, "x"), rename_txn_id(&a, "y"));
    assert!(rename_claim(&PutReply::Stored(None)).is_ok());
    assert_eq!(rename_claim(&PutReply::Failed(Some(412))), Err(Error::RenameClaimed));
    assert_eq!(rename_claim(&PutReply::Failed(Some(500))), Err(Error::StoreFailed));
}

fn apply(ns: &mut BTreeMap<(u128, String), u128>, c: &DirChange) {
    match c {
        DirChange::Upsert(dir, name, e) => {
            ns.insert((dir.bits, name.clone()), e.uuid.bits);
        },
        DirChange::Remove(dir, name) => {
            ns.remove(&(dir.bits, name.clone()));
        },
    }
}

#[test]
fn rename_across_is_a_move() {
    let src = Uuid::from_u128(1);
    let dst = Uuid::from_u128(2);
    let intent = RenameIntent::of_entry(&src, "s", &dst, "t", &raw_entry("s", 77));
    assert_eq!(intent.child, Uuid::from_u128(77));
    let e = intent.destination_entry();
    assert_eq!(e.name_bytes(), b"t".to_vec());
    assert_eq!(e.uuid, intent.child);
    let mut ns: BTreeMap<(u128, String), u128> = BTreeMap::new();
    ns.insert((1, "s".to_string()), 77);
    ns.insert((1, "other".to_string()), 5);
    ns.insert((2, "t".to_string()), 6);
    let mut want = ns.clone();
    want.remove(&(1, "s".to_string()));
    want.insert((2, "t".to_string()), 77);
    // broken off after any number of changes, and carried out again
    for n in 0..3usize {
        let mut now = ns.clone();
        for c in intent.changes().iter().take(n) {
            apply(&mut now, c);
        }
        assert!(now.values().any(|v| *v == 77));
        for c in intent.changes().iter() {
            apply(&mut now, c);
        }
        assert_eq!(now, want);
    }
}

#[test]
fn renames_confirm_their_source() {
    let intent = RenameIntent::of_entry(&Uuid::nil(), "s", &Uuid::nil(), "t", &raw_entry("s", 77));
    assert!(intent.confirm(Some(Uuid::from_u128(77))).is_ok());
    assert_eq!(intent.confirm(Some(Uuid::from_u128(78))).unwrap_err().kind(), ErrorKind::NotFound);
    assert_eq!(intent.confirm(None).unwrap_err().kind(), ErrorKind::NotFound);
}

#[test]
fn recovery_of_reclaim_intents() {
    assert_eq!(intent_kind("x/_TXN/a.intent"), IntentKind::Rename);
    assert_eq!(intent_kind("x/_TXN/a.reclaim"), IntentKind::Reclaim);
    assert_eq!(intent_kind("x/_TXN/a"), IntentKind::Other);
    let i = ReclaimIntent {
        dst_parent: Uuid::nil(),
        dst_name: "n".to_string(),
        displaced: Uuid::from_u128(3),
        displaced_is_dir: false,
    };
    let entries = |name: &str, id: u128| vec![DirFileEntry::from_raw(&raw_entry(name, id))];
    assert!(i.still_named(&entries("n", 3)));
    assert!(!i.still_named(&entries("n", 4)));
    assert!(!i.still_named(&entries("m", 3)));
    assert!(!i.still_named(&Vec::new()));
    assert_eq!(recover_reclaim(false, false), ReclaimStep::Reclaim);
    assert_eq!(recover_reclaim(false, true), ReclaimStep::Reclaim);
    assert_eq!(recover_reclaim(true, true), ReclaimStep::Drop);
    assert_eq!(recover_reclaim(true, false), ReclaimStep::Keep);
    // a directory that could not be listed says nothing: the child is kept
    for stale in [false, true] {
        assert_eq!(i.recover_step(None, stale), ReclaimStep::Keep);
        assert_eq!(i.recover_step(Some(&Vec::new()), stale), ReclaimStep::Reclaim);
        assert_eq!(i.recover_step(Some(&entries("n", 4)), stale), ReclaimStep::Reclaim);
    }
    assert_eq!(i.recover_step(Some(&entries("n", 3)), true), ReclaimStep::Drop);
    assert_eq!(i.recover_step(Some(&entries("n", 3)), false), ReclaimStep::Keep);
}

#[test]
fn displaced_children_with_over_long_names_count_as_named() {
    let long = "n".repeat(300);
    let i = ReclaimIntent {
        dst_parent: Uuid::from_u128(1),
        dst_name: long.clone(),
        displaced: Uuid::from_u128(3),
        displaced_is_dir: false,
    };
    assert_eq!(name_shown(&long), "n".repeat(255));
    assert_eq!(name_shown("short"), "short");
    let listing = merge_view(&vec![raw_entry(&long, 3)], &Vec::new(), &Vec::new());
    assert!(i.still_named(&listing));
    assert_eq!(i.recover_step(Some(&listing), false), ReclaimStep::Keep);
    let listing = merge_view(&vec![raw_entry(&long, 4)], &Vec::new(), &Vec::new());
    assert!(!i.still_named(&listing));
}

#[test]
fn verdicts_on_a_looked_up_tombstone() {
    let child = Uuid::from_u128(1);
    let other = FoldReply::Found(Uuid::from_u128(2));
    for reply in [other, FoldReply::NotFound] {
        assert!(matches!(gc_after_lookup(Some(true), &child, reply), GcState::Reclaim(true)));
        assert!(matches!(gc_after_lookup(Some(false), &child, reply), GcState::CheckLinks));
        assert!(matches!(gc_after_lookup(None, &child, reply), GcState::Over(GcOutcome::Failed)));
    }
    for kind in [None, Some(true), Some(false)] {
        assert!(matches!(
            gc_after_lookup(kind, &child, FoldReply::Found(child)),
            GcState::Over(GcOutcome::SkippedUnfolded)
        ));
        assert!(matches!(gc_after_lookup(kind, &child, FoldReply::Failed), GcState::Over(GcOutcome::Failed)));
    }
}

#[test]
fn link_counts_stay_in_range() {
    assert_eq!(checked_nlink(1, 1), Some(2));
    assert_eq!(checked_nlink(0, -1), Some(0));
    assert_eq!(checked_nlink(i64::MAX as u64, 1), None);
    assert_eq!(checked_nlink(1 << 63, -1), None);
    assert_eq!(checked_nlink(u64::MAX, 3), Some(2));
}

#[test]
fn a_rename_to_the_same_name_is_nothing() {
    assert!(rename_is_noop("a", "a"));
    assert!(!rename_is_noop("a", "b"));
    assert!(!rename_is_noop("a", "a "));
}

#[test]
fn flushes_become_commits() {
    let i = ScatterFirstInterceptor::new("DIR/p", "child", Uuid::from_u128(4));
    let l = Ulid { bits: 1 };
    let p = i.before_flush_inode(b"raw", FlushFlag::Create, &l).unwrap();
    let s = DirScatterInode::path_decode(&p.key, 0);
    assert_eq!(s.op, DirScatterInodeOp::Create);
    assert_eq!(s.filename, "child");
    assert_eq!(s.uuid, Uuid::from_u128(4));
    assert_eq!(p.body, b"raw".to_vec());
    let p = i.before_flush_inode(b"raw", FlushFlag::Update, &l).unwrap();
    assert_eq!(DirScatterInode::path_decode(&p.key, 0).op, DirScatterInodeOp::Update);
    for f in [FlushFlag::Delete, FlushFlag::Ignore, FlushFlag::Unknown] {
        assert!(i.before_flush_inode(b"raw", f, &l).is_none());
    }
}

#[test]
fn removal_in_batches() {
    let keys: Vec<String> = (0..2500).map(|i| format!("k{}", i)).collect();
    let b = key_batches(&keys);
    assert_eq!(b.iter().map(|x| x.len()).collect::<Vec<usize>>(), vec![1000, 1000, 500]);
    assert_eq!(b.concat(), keys);
    assert_eq!(key_batches(&keys[..1000].to_vec()).len(), 1);
    assert!(key_batches(&Vec::new()).is_empty());
    assert!(removal_outcome(&vec![true, true]).is_ok());
    assert!(removal_outcome(&Vec::new()).is_ok());
    assert_eq!(removal_outcome(&vec![true, false]).unwrap_err().kind(), ErrorKind::Interrupted);
}

#[test]
fn opening() {
    assert!(open_checkpoint_check(true).is_ok());
    assert_eq!(open_checkpoint_check(false).unwrap_err().kind(), ErrorKind::ReadOnlyFilesystem);
    assert!(create_after(ErrorKind::NotFound, true));
    assert!(!create_after(ErrorKind::NotFound, false));
    assert!(!create_after(ErrorKind::Other, true));
}

#[test]
fn block_pointers_are_shown() {
    assert_eq!(display_ptr(BlockPtrFormat::dummy_value(), PtrFormat::Flat), "[Dummy]");
    assert_eq!(display_ptr(BlockPtrFormat::invalid_value(), PtrFormat::Flat), "[Invalid]");
    assert_eq!(display_ptr(BlockPtrFormat::new_zero_block(), PtrFormat::Flat), "[Zero Block]");
    assert_eq!(display_ptr(0x8000_0000_0000_00af, PtrFormat::Flat), "[Unknown: 0x80000000000000af]");
    for (mine, theirs) in [
        (PtrFormat::Nop, BlockPtrFormat::Nop),
        (PtrFormat::Flat, BlockPtrFormat::Flat),
        (PtrFormat::MicroGroup, BlockPtrFormat::MicroGroup),
    ] {
        for (seg, off, seq) in [(0u64, 0usize, 0usize), (5, 8192, 48), (0x3fff_ffff, 0xffff_f000, 99)] {
            let ptr = BlockPtrFormat::encode(seg, off, seq, &BlockPtrFormat::MicroGroup);
            let (s, o) = BlockPtrFormat::decode(&ptr, &theirs);
            assert_eq!(decode_ptr(ptr, mine), (s, o as u64));
            assert!(BlockPtrFormat::is_on_staging(&ptr));
            assert_eq!(
                display_ptr(ptr, mine),
                format!(
                    "[Staging: id {} - offset {} - group {}]",
                    s,
                    o,
                    BlockPtrFormat::decode_micro_group_id(&ptr)
                )
            );
        }
    }
}

#[test]
fn a_committed_change_counts_at_once() {
    let mut v = vec![change("n", DirScatterInodeOp::Create, 1), change("m", DirScatterInodeOp::Create, 2)];
    assert!(matches!(resolve_step(&v, "n"), ResolveStep::Fetch(_)));
    v.push(change("n", DirScatterInodeOp::PreDelete, 3));
    assert!(matches!(resolve_step(&v, "n"), ResolveStep::Absent));
    assert!(matches!(resolve_step(&v, "m"), ResolveStep::Fetch(_)));
    v.push(change("n", DirScatterInodeOp::Create, 4));
    assert!(matches!(resolve_step(&v, "n"), ResolveStep::Fetch(_)));
}

#[test]
fn interleaved_links_add_up() {
    let mut nlink = 1u64;
    for up in [true, true, false, true, false, false] {
        nlink = adjusted_nlink(nlink, if up { 1 } else { -1 });
    }
    assert_eq!(nlink, 1);
}

#[test]
fn refolding_changes_nothing() {
    let base = vec![raw_entry("a", 1), raw_entry("b", 2)];
    let ups = vec![raw_entry("b", 3), raw_entry("c", 4)];
    let gone = vec!["a".to_string()];
    let once = merge_view(&base, &ups, &gone);
    let folded: Vec<DirFileEntryRaw> = once.iter().map(|e| raw_entry(&e.name, e.uuid.bits)).collect();
    let mut twice = shown(&merge_view(&folded, &ups, &gone));
    twice.sort();
    let mut first = shown(&once);
    first.sort();
    assert_eq!(first, twice);
    assert_eq!(first, vec![("b".to_string(), 3), ("c".to_string(), 4)]);
}

#[test]
fn concurrent_creations_converge() {
    let all = vec![change("same", DirScatterInodeOp::Create, 8), change("same", DirScatterInodeOp::Create, 9)];
    let plan = hyperdir::file::plan_changes(all);
    let ups: Vec<DirFileEntryRaw> =
        plan.to_fetch.iter().map(|s| hyperdir::file::upsert_entry(s, &inode(0o100644, 1))).collect();
    assert_eq!(shown(&merge_view(&Vec::new(), &ups, &Vec::new())), vec![("same".to_string(), 9)]);
}
