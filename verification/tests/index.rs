use hyperdir::compact::{
    compact_stats, finish_delete, keys_to_strip, phase_two, phase_two_due, phase_two_jobs, removals, unlink_marker_of,
    CompactAction, Compaction,
};
use hyperdir::file::{merge_view, plan_changes, upsert_entry, DirFileEntry, IndexWalk};
use hyperdir::index::{hash_filename, shifts_back, ProbeChain};
use hyperdir::ondisk::{name_in_index, DirFileEntryRaw, InodeRaw};
use hyperdir::tombstone::{parse_tombstone_body, TombstoneHeader, UnlinkMarker};
use hyperdir::{DirScatterInode, DirScatterInodeOp, ErrorKind, Ulid, Uuid};
use std::collections::BTreeMap;

// Two names with the same CRC-64.
const ONE: &str = "aaaaaaaaaaaaaaaaaaaaaaaaaaaaaaaaaaaaaaaaaaaaaaaaaaaaaaaaaaaaaaaaaa";
const TWO: &str = "ccaaaaaccacacccccacaaaaacacaaccacaaccaaacacaaccaaaacaacaacccaaacaa";

type Slots = BTreeMap<u64, DirFileEntryRaw>;

fn entry(name: &str, id: u128) -> DirFileEntryRaw {
    let mut inode = InodeRaw::default();
    inode.bytes[0] = id as u8;
    DirFileEntryRaw::from(&inode, &Uuid::from_u128(id), name.as_bytes())
}

fn run(slots: &Slots, name: &str) -> ProbeChain {
    let mut chain = ProbeChain::at_home(name);
    while let Some(slot) = chain.wanted() {
        chain.feed(slots.get(&slot).copied());
    }
    chain
}

fn upsert(slots: &mut Slots, name: &str, e: DirFileEntryRaw) {
    let slot = run(slots, name).probe_upsert(name);
    slots.insert(slot, e);
}

fn delete(slots: &mut Slots, name: &str) -> bool {
    match run(slots, name).probe_delete(name) {
        None => false,
        Some(plan) => {
            for w in &plan.moves {
                slots.insert(w.slot, w.entry);
            }
            slots.remove(&plan.clear);
            true
        },
    }
}

fn lookup(slots: &Slots, name: &str) -> Option<u128> {
    let mut chain = ProbeChain::at_home(name);
    while let Some(slot) = chain.wanted_for_lookup(name) {
        chain.feed(slots.get(&slot).copied());
    }
    let found = chain.probe_lookup(name).map(|e| e.uuid.bits);
    assert_eq!(found, run(slots, name).probe_lookup(name).map(|e| e.uuid.bits));
    found
}

fn walk(slots: &Slots) -> Vec<DirFileEntryRaw> {
    let last = match slots.keys().last() {
        Some(k) => *k,
        None => return Vec::new(),
    };
    let mut w = IndexWalk::begin(last);
    loop {
        let found = slots.range(w.next..).next().map(|(k, _)| *k);
        match w.slot_to_read(found) {
            None => break,
            Some(k) => {
                if !w.take(k, slots[&k]) {
                    break;
                }
            },
        }
    }
    w.entries
}

fn names(entries: &[DirFileEntry]) -> Vec<String> {
    let mut v: Vec<String> = entries.iter().map(|e| e.name.clone()).collect();
    v.sort();
    v
}

#[test]
fn home_slot_is_the_crc() {
    assert_eq!(hash_filename("hello world!"), 0x8483_c0fa_3260_7d61);
    assert_eq!(hash_filename(""), 0);
    assert_eq!(hash_filename(ONE), hash_filename(TWO));
    // of a name that an entry cannot hold, what the entry holds counts
    assert_eq!(hash_filename(&"n".repeat(300)), hash_filename(&"n".repeat(255)));
    assert_eq!(hash_filename("hello world!\0"), 0x8483_c0fa_3260_7d61);
}

#[test]
fn upsert_then_lookup() {
    let mut s = Slots::new();
    assert_eq!(lookup(&s, "x"), None);
    upsert(&mut s, "x", entry("x", 1));
    upsert(&mut s, "y", entry("y", 2));
    assert_eq!(lookup(&s, "x"), Some(1));
    assert_eq!(lookup(&s, "y"), Some(2));
    // an update takes the place of the entry
    upsert(&mut s, "x", entry("x", 3));
    assert_eq!(lookup(&s, "x"), Some(3));
    assert_eq!(s.len(), 2);
    assert!(run(&s, "x").found("x"));
    assert!(!run(&s, "x").found("y"));
}

#[test]
fn colliding_names_coexist() {
    let mut s = Slots::new();
    upsert(&mut s, ONE, entry(ONE, 1));
    upsert(&mut s, TWO, entry(TWO, 2));
    assert_eq!(s.len(), 2);
    assert_eq!(s[&hash_filename(ONE)].uuid.bits, 1);
    assert_eq!(s[&hash_filename(ONE).wrapping_add(1)].uuid.bits, 2);
    assert_eq!(lookup(&s, ONE), Some(1));
    assert_eq!(lookup(&s, TWO), Some(2));
    // the removal of the first moves the second into its home slot
    assert!(delete(&mut s, ONE));
    assert_eq!(lookup(&s, ONE), None);
    assert_eq!(lookup(&s, TWO), Some(2));
    assert_eq!(s.len(), 1);
    assert_eq!(s[&hash_filename(TWO)].uuid.bits, 2);
    // a second removal finds nothing
    assert!(!delete(&mut s, ONE));
    assert!(delete(&mut s, TWO));
    assert!(s.is_empty());
}

#[test]
fn removal_of_the_second_leaves_the_first() {
    let mut s = Slots::new();
    upsert(&mut s, ONE, entry(ONE, 1));
    upsert(&mut s, TWO, entry(TWO, 2));
    assert!(delete(&mut s, TWO));
    assert_eq!(lookup(&s, ONE), Some(1));
    assert_eq!(lookup(&s, TWO), None);
}

#[test]
fn backward_shift_respects_home_slots() {
    // c stands in its home slot right behind x: it must not move
    let c = entry("c", 3);
    let home = hash_filename("c").wrapping_sub(1);
    let chain = ProbeChain { home, entries: vec![entry("x", 1), c], ended: true };
    let plan = chain.probe_delete("x").unwrap();
    assert!(plan.moves.is_empty());
    assert_eq!(plan.clear, home);
    // a placeholder does not move either, but what is behind it may
    let chain = ProbeChain {
        home: hash_filename(ONE),
        entries: vec![entry(ONE, 1), DirFileEntryRaw::dummy_value(), entry(TWO, 2)],
        ended: true,
    };
    let plan = chain.probe_delete(ONE).unwrap();
    assert_eq!(plan.moves.len(), 1);
    assert_eq!(plan.moves[0].slot, hash_filename(ONE));
    assert_eq!(plan.moves[0].entry.uuid.bits, 2);
    assert_eq!(plan.clear, hash_filename(ONE).wrapping_add(2));
}

#[test]
fn probing_wraps_around() {
    let mut chain = ProbeChain { home: u64::MAX, entries: vec![entry("p", 1)], ended: false };
    assert_eq!(chain.wanted(), Some(0));
    assert_eq!(chain.wanted_for_lookup("p"), None);
    chain.feed(None);
    assert_eq!(chain.wanted(), None);
    assert_eq!(chain.probe_upsert("q"), 0);
    assert_eq!(chain.probe_upsert("p"), u64::MAX);
}

#[test]
fn exclusive_insert_refuses_a_taken_name() {
    let mut s = Slots::new();
    assert_eq!(run(&s, "n").probe_insert_excl("n"), Ok(hash_filename("n")));
    upsert(&mut s, "n", entry("n", 1));
    let e = run(&s, "n").probe_insert_excl("n").unwrap_err();
    assert_eq!(e.kind(), ErrorKind::AlreadyExists);
    // a colliding name goes to the next slot
    upsert(&mut s, ONE, entry(ONE, 1));
    assert_eq!(run(&s, TWO).probe_insert_excl(TWO), Ok(hash_filename(TWO).wrapping_add(1)));
}

#[test]
fn many_entries_survive_removals() {
    let mut s = Slots::new();
    for i in 0..50u128 {
        let n = format!("file-{}", i);
        upsert(&mut s, &n, entry(&n, i));
    }
    upsert(&mut s, ONE, entry(ONE, 100));
    upsert(&mut s, TWO, entry(TWO, 200));
    for i in (0..50u128).step_by(2) {
        assert!(delete(&mut s, &format!("file-{}", i)));
    }
    for i in 0..50u128 {
        let want = if i % 2 == 0 { None } else { Some(i) };
        assert_eq!(lookup(&s, &format!("file-{}", i)), want);
    }
    assert_eq!(lookup(&s, ONE), Some(100));
    assert_eq!(lookup(&s, TWO), Some(200));
    assert_eq!(walk(&s).len(), 27);
}

#[test]
fn walk_skips_placeholders_and_reaches_the_last_slot() {
    let mut s = Slots::new();
    assert!(walk(&s).is_empty());
    s.insert(3, entry("three", 3));
    s.insert(0, entry("zero", 0));
    s.insert(7, DirFileEntryRaw::dummy_value());
    s.insert(u64::MAX, entry("last", 9));
    let ids: Vec<u128> = walk(&s).iter().map(|e| e.uuid.bits).collect();
    assert_eq!(ids, vec![0, 3, 9]);
    // slots that appear behind the last one seen are not walked into
    assert_eq!(IndexWalk::begin(5).slot_to_read(Some(6)), None);
    assert_eq!(IndexWalk::begin(5).slot_to_read(Some(5)), Some(5));
}

fn scatter(name: &str, op: DirScatterInodeOp, ulid: u128, id: u128) -> DirScatterInode {
    let key = DirScatterInode::path_encode_with("DIR/d", name, &Uuid::from_u128(id), op.as_u8(), &Ulid { bits: ulid });
    DirScatterInode::path_decode(&key, 0)
}

#[test]
fn compaction_preserves_the_listing() {
    let mut s = Slots::new();
    for (n, id) in [("kept", 1u128), ("updated", 2), ("unlinked", 3), ("deleted", 4), (ONE, 5)] {
        upsert(&mut s, n, entry(n, id));
    }
    let scatters = vec![
        scatter("updated", DirScatterInodeOp::Update, 10, 2),
        scatter("unlinked", DirScatterInodeOp::PreDelete, 11, 3),
        scatter("deleted", DirScatterInodeOp::Delete, 12, 4),
        scatter("created", DirScatterInodeOp::Create, 13, 6),
        scatter(TWO, DirScatterInodeOp::Create, 14, 7),
        scatter("created", DirScatterInodeOp::Update, 15, 6),
        scatter("never-there", DirScatterInodeOp::PreDelete, 16, 8),
    ];
    let plan = plan_changes(scatters);
    assert_eq!(plan.all_keys.len(), 7);
    assert_eq!(plan.to_fetch.len(), 3);
    let body = vec![9u8; 160];
    let ups: Vec<DirFileEntryRaw> = plan.to_fetch.iter().map(|f| upsert_entry(f, &body)).collect();
    let gone: Vec<String> =
        plan.unlinked.iter().chain(plan.deleted.iter()).map(|f| f.filename.clone()).collect();
    let before = merge_view(&walk(&s), &ups, &gone);
    assert_eq!(
        names(&before),
        vec![ONE.to_string(), TWO.to_string(), "created".to_string(), "kept".to_string(), "updated".to_string()]
    );
    // fold
    for (f, e) in plan.to_fetch.iter().zip(ups.iter()) {
        upsert(&mut s, &f.filename, *e);
    }
    let rs = removals(&plan);
    let removed: Vec<bool> = rs.iter().map(|r| delete(&mut s, &r.filename)).collect();
    let due = phase_two_jobs(&rs, &removed);
    assert_eq!(due.iter().map(|d| d.filename.clone()).collect::<Vec<String>>(), vec!["unlinked".to_string()]);
    let stats = compact_stats(&plan, &removed);
    assert_eq!(stats.scatters_processed, 7);
    assert_eq!(stats.entries_added, 3);
    assert_eq!(stats.entries_removed, 2);
    assert_eq!(stats.tombstones_kept, 1);
    assert!(!stats.no_op);
    let strip = keys_to_strip(&plan);
    assert_eq!(strip.len(), 6);
    assert!(!strip.contains(&plan.deleted[0].key));
    // what is left over hides nothing that should be seen
    let after = merge_view(&walk(&s), &Vec::new(), &vec!["deleted".to_string()]);
    assert_eq!(names(&after), names(&before));
    // a second compaction with the kept tombstone counts nothing
    let again = plan_changes(vec![scatter("deleted", DirScatterInodeOp::Delete, 12, 4)]);
    let rs = removals(&again);
    let removed: Vec<bool> = rs.iter().map(|r| delete(&mut s, &r.filename)).collect();
    assert_eq!(removed, vec![false]);
    assert!(phase_two_jobs(&rs, &removed).is_empty());
}

#[test]
fn compaction_goes_its_course() {
    let mut s = Slots::new();
    upsert(&mut s, "x", entry("x", 1));
    let plan = plan_changes(vec![
        scatter("x", DirScatterInodeOp::PreDelete, 5, 1),
        scatter("y", DirScatterInodeOp::Create, 6, 2),
        scatter("z", DirScatterInodeOp::Delete, 7, 3),
    ]);
    let body = vec![1u8; 160];
    let ups: Vec<DirFileEntryRaw> = plan.to_fetch.iter().map(|f| upsert_entry(f, &body)).collect();
    let mut c = Compaction::begin(plan, ups);
    let mut course: Vec<String> = Vec::new();
    let stats = loop {
        let mut removed = false;
        match c.action() {
            CompactAction::Upsert(name, e) => {
                upsert(&mut s, &name, e);
                course.push(format!("write {}", name));
            },
            CompactAction::Remove(name) => {
                removed = delete(&mut s, &name);
                course.push(format!("remove {} {}", name, removed));
            },
            CompactAction::Flush => course.push("commit".to_string()),
            CompactAction::FinishDelete(d) => course.push(format!("finish {}", d.filename)),
            CompactAction::Strip(keys) => course.push(format!("strip {}", keys.len())),
            CompactAction::Done(stats) => break stats,
        }
        c.advance(removed);
    };
    assert_eq!(
        course,
        vec!["write y", "remove x true", "remove z false", "commit", "finish x", "strip 2"]
    );
    assert_eq!((stats.scatters_processed, stats.entries_added, stats.entries_removed), (3, 1, 1));
    assert_eq!(stats.tombstones_kept, 1);
    assert_eq!(lookup(&s, "x"), None);
    assert_eq!(lookup(&s, "y"), Some(2));
    // without changes it is over at once
    match Compaction::begin(plan_changes(Vec::new()), Vec::new()).action() {
        CompactAction::Done(stats) => assert!(stats.no_op),
        other => panic!("{:?}", other),
    }
}

#[test]
fn nothing_to_remove_asks_for_no_removal() {
    // the only change is a tombstone, which stays
    let plan = plan_changes(vec![scatter("z", DirScatterInodeOp::Delete, 7, 3)]);
    let mut c = Compaction::begin(plan, Vec::new());
    let mut course: Vec<String> = Vec::new();
    loop {
        match c.action() {
            CompactAction::Remove(name) => course.push(format!("remove {}", name)),
            CompactAction::Flush => course.push("commit".to_string()),
            CompactAction::Done(stats) => {
                assert!(!stats.no_op);
                assert_eq!((stats.scatters_processed, stats.tombstones_kept), (1, 1));
                break;
            },
            other => panic!("{:?}", other),
        }
        c.advance(false);
    }
    assert_eq!(course, vec!["remove z", "commit"]);
}

#[test]
fn deletes_are_finished_where_they_can_be() {
    let marker = UnlinkMarker { is_dir: false, retention_until_unix_ms: 77 }.to_body();
    let inode = vec![5u8; 160];
    let id = Uuid::from_u128(3);
    let ulid = Ulid { bits: 1 };
    let step = |m: Option<&Vec<u8>>, i: Option<&Vec<u8>>| finish_delete("DIR/d", "f", &id, m, i, 50, &ulid);
    assert!(step(None, Some(&inode)).is_none());
    assert!(step(Some(&marker), None).is_none());
    assert!(step(Some(&vec![9u8]), Some(&inode)).is_none());
    let p = step(Some(&marker), Some(&inode)).unwrap();
    assert!(p.decrement);
    assert_eq!(parse_tombstone_body(&p.body).unwrap().0.retention_until_unix_ms, 77);
    assert_eq!(unlink_marker_of(None), None);
    assert_eq!(unlink_marker_of(Some(&vec![9u8])), None);
    assert!(!unlink_marker_of(Some(&marker)).unwrap().is_dir);
}

#[test]
fn empty_compaction_is_a_no_op() {
    let plan = plan_changes(Vec::new());
    let stats = compact_stats(&plan, &Vec::new());
    assert!(stats.no_op);
    assert_eq!(stats.scatters_processed, 0);
    assert!(keys_to_strip(&plan).is_empty());
}

#[test]
fn duplicate_unlinks_decrement_once() {
    let mut s = Slots::new();
    upsert(&mut s, "l1", entry("l1", 1));
    let plan = plan_changes(vec![
        scatter("l1", DirScatterInodeOp::PreDelete, 10, 1),
        scatter("l1", DirScatterInodeOp::PreDelete, 11, 1),
    ]);
    let rs = removals(&plan);
    assert_eq!(rs.len(), 1);
    let removed: Vec<bool> = rs.iter().map(|r| delete(&mut s, &r.filename)).collect();
    assert_eq!(phase_two_jobs(&rs, &removed).len(), 1);
    // the same unlink seen by a later compaction
    let removed: Vec<bool> = rs.iter().map(|r| delete(&mut s, &r.filename)).collect();
    assert!(phase_two_jobs(&rs, &removed).is_empty());
}

#[test]
fn second_phase_writes_a_tombstone() {
    assert!(phase_two_due(DirScatterInodeOp::PreDelete, true));
    assert!(!phase_two_due(DirScatterInodeOp::PreDelete, false));
    assert!(!phase_two_due(DirScatterInodeOp::Delete, true));
    let inode = vec![5u8; 160];
    let marker = UnlinkMarker { is_dir: false, retention_until_unix_ms: 77 };
    let p = phase_two("DIR/d", "f", &Uuid::from_u128(3), &marker, &inode, 50, &Ulid { bits: 1 });
    assert!(p.decrement);
    let (header, rest) = parse_tombstone_body(&p.body).unwrap();
    assert_eq!(header, TombstoneHeader { deleted_at_unix_ms: 50, retention_until_unix_ms: 77 });
    assert_eq!(rest, &inode[..]);
    let s = DirScatterInode::path_decode(&p.key, 0);
    assert_eq!(s.op, DirScatterInodeOp::Delete);
    assert_eq!(s.filename, "f");
    let marker = UnlinkMarker { is_dir: true, retention_until_unix_ms: 0 };
    assert!(!phase_two("DIR/d", "f", &Uuid::nil(), &marker, &inode, 50, &Ulid { bits: 1 }).decrement);
}

#[test]
fn same_directory_rename_moves_one_entry() {
    let mut s = Slots::new();
    upsert(&mut s, ONE, entry(ONE, 1));
    upsert(&mut s, TWO, entry(TWO, 2));
    upsert(&mut s, "other", entry("other", 3));
    let e = run(&s, ONE).probe_lookup(ONE).unwrap();
    let moved = hyperdir::rename::renamed_entry(&e, "new");
    assert_eq!(moved.uuid, e.uuid);
    assert_eq!(moved.inode.bytes, e.inode.bytes);
    assert!(delete(&mut s, ONE));
    upsert(&mut s, "new", moved);
    assert_eq!(lookup(&s, ONE), None);
    assert_eq!(lookup(&s, "new"), Some(1));
    assert_eq!(lookup(&s, TWO), Some(2));
    assert_eq!(lookup(&s, "other"), Some(3));
}

#[test]
fn over_long_names_are_found_and_removed() {
    let long = "n".repeat(300);
    let mut s = Slots::new();
    upsert(&mut s, "other", entry("other", 7));
    upsert(&mut s, &long, entry(&long, 1));
    assert_eq!(lookup(&s, &long), Some(1));
    assert!(run(&s, &long).found(&long));
    assert_eq!(run(&s, &long).probe_insert_excl(&long).unwrap_err().kind(), ErrorKind::AlreadyExists);
    // its entry holds the first 255 bytes, and these decide where it is
    assert_eq!(s[&hash_filename(&"n".repeat(255))].uuid.bits, 1);
    assert_eq!(lookup(&s, &"n".repeat(255)), Some(1));
    assert_eq!(lookup(&s, &"n".repeat(254)), None);
    // an update takes the place of the entry
    upsert(&mut s, &long, entry(&long, 2));
    assert_eq!(s.len(), 2);
    assert_eq!(lookup(&s, &long), Some(2));
    assert!(delete(&mut s, &long));
    assert_eq!(lookup(&s, &long), None);
    assert!(!delete(&mut s, &long));
    assert_eq!(lookup(&s, "other"), Some(7));
    assert_eq!(s.len(), 1);
}

#[test]
fn names_with_a_nul_are_found_and_removed() {
    let mut s = Slots::new();
    upsert(&mut s, "a\0b", entry("a\0b", 1));
    assert_eq!(lookup(&s, "a\0b"), Some(1));
    // an entry holds the name up to the NUL
    assert_eq!(lookup(&s, "a"), Some(1));
    assert_eq!(s[&hash_filename("a")].uuid.bits, 1);
    assert!(delete(&mut s, "a\0b"));
    assert!(s.is_empty());
}

#[test]
fn names_as_entries_hold_them() {
    assert_eq!(name_in_index("name"), b"name".to_vec());
    assert_eq!(name_in_index(""), Vec::<u8>::new());
    assert_eq!(name_in_index("a\0b"), b"a".to_vec());
    assert_eq!(name_in_index(&"x".repeat(255)), vec![b'x'; 255]);
    assert_eq!(name_in_index(&"x".repeat(256)), vec![b'x'; 255]);
    // 0xc3 0xa9 each: the cut goes through the last character
    let cut = name_in_index(&"\u{e9}".repeat(128));
    assert_eq!(cut.len(), 255);
    assert_eq!(cut[254], 0xc3);
}

#[test]
fn over_long_names_go_through_compaction() {
    let cut = "\u{e9}".repeat(200);
    let other = "\u{e8}".repeat(200);
    let mut s = Slots::new();
    upsert(&mut s, &cut, entry(&cut, 1));
    upsert(&mut s, &other, entry(&other, 2));
    let ids = |v: &[DirFileEntry]| {
        let mut ids: Vec<u128> = v.iter().map(|e| e.uuid.bits).collect();
        ids.sort();
        ids
    };
    // both are cut inside a character and show as nothing, but are two files
    let both = merge_view(&walk(&s), &Vec::new(), &Vec::new());
    assert_eq!(ids(&both), vec![1, 2]);
    assert_eq!(names(&both), vec!["".to_string(), "".to_string()]);
    let plan = plan_changes(vec![
        scatter(&cut, DirScatterInodeOp::PreDelete, 5, 1),
        scatter(&other, DirScatterInodeOp::Update, 6, 3),
    ]);
    let body = vec![1u8; 160];
    let ups: Vec<DirFileEntryRaw> = plan.to_fetch.iter().map(|f| upsert_entry(f, &body)).collect();
    let before = merge_view(&walk(&s), &ups, &vec![cut.clone()]);
    assert_eq!(ids(&before), vec![3]);
    // fold
    for (f, e) in plan.to_fetch.iter().zip(ups.iter()) {
        upsert(&mut s, &f.filename, *e);
    }
    let removed: Vec<bool> = removals(&plan).iter().map(|r| delete(&mut s, &r.filename)).collect();
    assert_eq!(removed, vec![true]);
    assert_eq!(ids(&merge_view(&walk(&s), &Vec::new(), &Vec::new())), vec![3]);
    assert_eq!(lookup(&s, &cut), None);
    assert_eq!(lookup(&s, &other), Some(3));
}

#[test]
fn entries_shift_back_no_further_than_home() {
    assert!(shifts_back(5, 7, 2));
    assert!(!shifts_back(5, 7, 3));
    assert!(!shifts_back(7, 7, 1));
    // past the end of the slots
    assert!(shifts_back(u64::MAX, 1, 2));
    assert!(!shifts_back(u64::MAX, 1, 3));
}
