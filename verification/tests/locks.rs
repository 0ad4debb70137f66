use hyperdir::lock::{
    getlk_answer, lock_renew_step, occ_next, overlaps, put_failure, setlk_step, unlock_owner_step, OccNext, PutOutcome,
    SetLkStep, LOCK_OCC_RETRIES,
};
use hyperdir::{Conflict, LockKind, LockTable, SetLkOutcome, DEFAULT_LOCK_TTL_MS};

const FUTURE: i64 = i64::MAX;
const NOW: i64 = 1_000;

fn set(t: &mut LockTable, owner: &str, kind: LockKind, s: u64, e: u64) -> Result<(), Conflict> {
    t.set(owner, kind, s, e, 0, FUTURE, NOW)
}

fn ranges(t: &LockTable, owner: &str) -> Vec<(u64, u64, LockKind)> {
    t.entries.iter().filter(|e| e.owner == owner).map(|e| (e.start, e.end, e.kind)).collect()
}

#[test]
fn read_read_compatible_write_excludes() {
    let mut t = LockTable::default();
    set(&mut t, "a", LockKind::Read, 0, 10).unwrap();
    // another reader on overlapping range is fine
    set(&mut t, "b", LockKind::Read, 5, 20).unwrap();
    // a writer overlapping a reader conflicts
    let c = set(&mut t, "c", LockKind::Write, 8, 9).unwrap_err();
    assert_eq!(c.kind, LockKind::Read);
    // a writer on a disjoint range is fine
    set(&mut t, "c", LockKind::Write, 100, 200).unwrap();
}

#[test]
fn write_write_overlap_conflicts_disjoint_ok() {
    let mut t = LockTable::default();
    set(&mut t, "a", LockKind::Write, 0, 10).unwrap();
    assert!(set(&mut t, "b", LockKind::Write, 10, 10).is_err()); // touch at 10
    set(&mut t, "b", LockKind::Write, 11, 20).unwrap(); // adjacent, disjoint
}

#[test]
fn same_owner_replaces_and_upgrades() {
    let mut t = LockTable::default();
    set(&mut t, "a", LockKind::Read, 0, 10).unwrap();
    // same owner upgrading its own range to write must not self-conflict
    set(&mut t, "a", LockKind::Write, 0, 10).unwrap();
    // and now another writer is excluded by the upgraded lock
    assert!(set(&mut t, "b", LockKind::Write, 0, 0).is_err());
}

#[test]
fn unlock_splits_middle() {
    let mut t = LockTable::default();
    set(&mut t, "a", LockKind::Write, 0, 100).unwrap();
    // punch out the middle
    set(&mut t, "a", LockKind::Unlock, 40, 60).unwrap();
    // left and right remain locked, middle is free
    assert!(set(&mut t, "b", LockKind::Write, 50, 50).is_ok());
    assert!(set(&mut t, "c", LockKind::Write, 0, 0).is_err());
    assert!(set(&mut t, "d", LockKind::Write, 100, 100).is_err());
}

#[test]
fn release_owner_and_renew() {
    let mut t = LockTable::default();
    set(&mut t, "a", LockKind::Write, 0, 10).unwrap();
    set(&mut t, "a", LockKind::Write, 20, 30).unwrap();
    assert!(t.renew("a", FUTURE));
    assert!(!t.renew("nobody", FUTURE));
    assert!(t.release_owner("a"));
    assert!(t.entries.is_empty());
    assert!(set(&mut t, "b", LockKind::Write, 0, 30).is_ok());
}

#[test]
fn expired_locks_are_ignored() {
    let mut t = LockTable::default();
    // a's lock already expired (expire <= now)
    t.set("a", LockKind::Write, 0, 10, 0, NOW - 1, NOW).unwrap();
    // b can take it; the expired entry is pruned on this set
    t.set("b", LockKind::Write, 0, 10, 0, FUTURE, NOW).unwrap();
    assert!(t.test("c", LockKind::Read, 5, 5, NOW).is_some());
}

#[test]
fn encode_decode_roundtrip() {
    let mut t = LockTable::default();
    set(&mut t, "client-1:42", LockKind::Read, 0, 10).unwrap();
    set(&mut t, "client-2:7", LockKind::Write, 100, u64::MAX).unwrap();
    let back = LockTable::decode(&t.encode());
    // semantics preserved: read region shared, write region exclusive
    assert!(back.test("x", LockKind::Read, 0, 10, NOW).is_none());
    assert!(back.test("x", LockKind::Write, 0, 0, NOW).is_some());
    assert!(back.test("x", LockKind::Read, 200, 200, NOW).is_some());
}

#[test]
fn decode_tolerates_garbage() {
    assert!(LockTable::decode(b"").entries.is_empty());
    assert!(LockTable::decode(b"v1\ngarbage line\n\tbad\t\t\t\t").entries.is_empty());
}

#[test]
fn letters_of_lock_kinds() {
    assert_eq!(LockKind::Read.as_char(), 'R');
    assert_eq!(LockKind::Write.as_char(), 'W');
    assert_eq!(LockKind::Unlock.as_char(), 'U');
    assert_eq!(LockKind::from_char('R'), Some(LockKind::Read));
    assert_eq!(LockKind::from_char('W'), Some(LockKind::Write));
    assert_eq!(LockKind::from_char('U'), None);
}

#[test]
fn inclusive_ranges_overlap() {
    assert!(overlaps(0, 10, 10, 20));
    assert!(overlaps(5, 6, 0, 100));
    assert!(!overlaps(0, 9, 10, 20));
    assert!(overlaps(0, u64::MAX, u64::MAX, u64::MAX));
}

#[test]
fn conflict_reports_the_first_blocking_lock() {
    let mut t = LockTable::default();
    t.set("a", LockKind::Read, 3, 7, 11, FUTURE, NOW).unwrap();
    t.set("b", LockKind::Read, 5, 9, 22, FUTURE, NOW).unwrap();
    let c = t.set("c", LockKind::Write, 6, 6, 33, FUTURE, NOW).unwrap_err();
    assert_eq!(c, Conflict { start: 3, end: 7, kind: LockKind::Read, pid: 11 });
    assert_eq!(t.test("a", LockKind::Write, 6, 6, NOW), Some(Conflict { start: 5, end: 9, kind: LockKind::Read, pid: 22 }));
    assert_eq!(t.test("a", LockKind::Read, 6, 6, NOW), None);
}

#[test]
fn a_refused_request_only_purges() {
    let mut t = LockTable::default();
    t.set("a", LockKind::Write, 0, 10, 0, FUTURE, NOW).unwrap();
    t.set("old", LockKind::Write, 50, 60, 0, NOW + 5, NOW).unwrap();
    assert!(t.set("b", LockKind::Read, 5, 5, 0, FUTURE, NOW + 5).is_err());
    assert_eq!(ranges(&t, "a"), vec![(0, 10, LockKind::Write)]);
    assert!(ranges(&t, "old").is_empty());
    assert!(ranges(&t, "b").is_empty());
}

#[test]
fn splitting_leaves_both_sides() {
    let mut t = LockTable::default();
    set(&mut t, "a", LockKind::Read, 0, u64::MAX).unwrap();
    set(&mut t, "a", LockKind::Write, 10, 19).unwrap();
    assert_eq!(
        ranges(&t, "a"),
        vec![(0, 9, LockKind::Read), (20, u64::MAX, LockKind::Read), (10, 19, LockKind::Write)]
    );
    set(&mut t, "a", LockKind::Unlock, 0, u64::MAX).unwrap();
    assert!(t.entries.is_empty());
}

#[test]
fn purge_and_remove_range_work_alone() {
    let mut t = LockTable::default();
    t.set("a", LockKind::Write, 0, 10, 0, 2_000, NOW).unwrap();
    t.set("b", LockKind::Write, 20, 30, 0, 3_000, NOW).unwrap();
    t.purge_expired(2_000);
    assert_eq!(t.entries.len(), 1);
    t.remove_range("b", 25, 25);
    assert_eq!(ranges(&t, "b"), vec![(20, 24, LockKind::Write), (26, 30, LockKind::Write)]);
    t.remove_range("a", 0, 100);
    assert_eq!(t.entries.len(), 2);
}

#[test]
fn renewing_moves_the_expiry() {
    let mut t = LockTable::default();
    t.set("a", LockKind::Write, 0, 10, 0, 1_500, NOW).unwrap();
    assert!(t.test("b", LockKind::Read, 5, 5, 1_500).is_none());
    assert!(t.renew("a", 9_000));
    assert!(t.test("b", LockKind::Read, 5, 5, 8_999).is_some());
    assert!(t.test("b", LockKind::Read, 5, 5, 9_000).is_none());
}

#[test]
fn stored_form_of_a_table() {
    let mut t = LockTable::default();
    t.set("me", LockKind::Write, 7, 12, 42, -5, -6).unwrap();
    assert_eq!(t.encode(), b"v1\nme\tW\t7\t12\t42\t-5\n".to_vec());
    assert_eq!(LockTable::default().encode(), b"v1\n".to_vec());
}

#[test]
fn decoding_skips_what_it_cannot_read() {
    let body = b"v1\na\tR\t1\t2\t3\t4\nb\tU\t1\t2\t3\t4\nc\tW\t1\t2\t3\nd\tWx\t+1\t18446744073709551615\t4294967295\t-9223372036854775808\ne\tW\t1\t18446744073709551616\t3\t4\nf\tW\t-1\t2\t3\t4\r\n";
    let t = LockTable::decode(body);
    let got: Vec<(String, LockKind, u64, u64, u32, i64)> =
        t.entries.iter().map(|e| (e.owner.clone(), e.kind, e.start, e.end, e.pid, e.expire_ms)).collect();
    assert_eq!(
        got,
        vec![
            ("a".to_string(), LockKind::Read, 1, 2, 3, 4),
            ("d".to_string(), LockKind::Write, 1, u64::MAX, u32::MAX, i64::MIN),
        ]
    );
    // a line that ends in a carriage return and newline
    let t = LockTable::decode(b"v1\r\ng\tW\t1\t2\t3\t4\r\n");
    assert_eq!(t.entries.len(), 1);
    // the first line is the header whatever it holds, and bytes that are not text hold no locks
    assert!(LockTable::decode(b"a\tR\t1\t2\t3\t4\n").entries.is_empty());
    assert!(LockTable::decode(&[0x76, 0x31, 0x0a, 0xff, 0xfe]).entries.is_empty());
}

#[test]
fn tables_read_back_as_they_were() {
    let mut t = LockTable::default();
    t.set("grün \u{6587}", LockKind::Read, 0, 10, 1, 77, NOW - 2_000).unwrap();
    t.set("b", LockKind::Write, 100, u64::MAX, u32::MAX, i64::MIN, i64::MIN).unwrap();
    let back = LockTable::decode(&t.encode());
    assert_eq!(back.encode(), t.encode());
    assert_eq!(back.entries.len(), 2);
    assert_eq!(back.entries[0].owner, "grün \u{6587}");
    assert_eq!(back.entries[1].expire_ms, i64::MIN);
}

#[test]
fn contended_write_lock_has_one_owner() {
    let first = match setlk_step(None, "a", LockKind::Write, 0, 9, 1, DEFAULT_LOCK_TTL_MS, NOW) {
        SetLkStep::Put(body) => body,
        SetLkStep::Done(_) => panic!("nothing blocks the first"),
    };
    match setlk_step(Some(&first), "b", LockKind::Write, 9, 20, 2, DEFAULT_LOCK_TTL_MS, NOW) {
        SetLkStep::Done(SetLkOutcome::Conflict(c)) => assert_eq!(c.pid, 1),
        _ => panic!("the second is blocked"),
    }
    // once the first has expired, the second gets it
    let late = NOW + DEFAULT_LOCK_TTL_MS as i64;
    assert!(matches!(
        setlk_step(Some(&first), "b", LockKind::Write, 9, 20, 2, DEFAULT_LOCK_TTL_MS, late),
        SetLkStep::Put(_)
    ));
    assert!(getlk_answer(Some(&first), "b", LockKind::Read, 0, 0, late - 1).is_some());
    assert!(getlk_answer(Some(&first), "b", LockKind::Read, 0, 0, late).is_none());
    assert!(getlk_answer(None, "b", LockKind::Write, 0, 0, NOW).is_none());
}

#[test]
fn unlock_without_object_is_granted() {
    assert!(matches!(
        setlk_step(None, "a", LockKind::Unlock, 0, 9, 1, 5, NOW),
        SetLkStep::Done(SetLkOutcome::Granted)
    ));
    let empty = LockTable::default().encode();
    match setlk_step(Some(&empty), "a", LockKind::Unlock, 0, 9, 1, 5, NOW) {
        SetLkStep::Put(body) => assert_eq!(body, empty),
        SetLkStep::Done(_) => panic!("an existing object is written"),
    }
}

#[test]
fn lock_expiry_saturates() {
    match setlk_step(None, "a", LockKind::Write, 0, 9, 1, i64::MAX as u64, i64::MAX - 1) {
        SetLkStep::Put(body) => assert_eq!(LockTable::decode(&body).entries[0].expire_ms, i64::MAX),
        SetLkStep::Done(_) => panic!("granted"),
    }
}

#[test]
fn owner_release_and_renewal_steps() {
    let mut t = LockTable::default();
    t.set("a", LockKind::Write, 0, 9, 1, FUTURE, NOW).unwrap();
    t.set("b", LockKind::Write, 10, 19, 2, FUTURE, NOW).unwrap();
    let body = t.encode();
    assert!(unlock_owner_step(None, "a").is_none());
    assert!(unlock_owner_step(Some(&body), "nobody").is_none());
    let left = LockTable::decode(&unlock_owner_step(Some(&body), "a").unwrap());
    assert!(ranges(&left, "a").is_empty());
    assert_eq!(ranges(&left, "b"), vec![(10, 19, LockKind::Write)]);
    assert!(lock_renew_step(None, "a", 10, NOW).is_none());
    assert!(lock_renew_step(Some(&body), "nobody", 10, NOW).is_none());
    let renewed = LockTable::decode(&lock_renew_step(Some(&body), "a", 10, NOW).unwrap());
    assert_eq!(renewed.entries[0].expire_ms, NOW + 10);
    assert_eq!(renewed.entries[1].expire_ms, FUTURE);
}

#[test]
fn lost_races_are_retried_eight_times() {
    assert_eq!(put_failure(Some(412)), Some(PutOutcome::Retry));
    assert_eq!(put_failure(Some(409)), Some(PutOutcome::Retry));
    assert_eq!(put_failure(Some(500)), None);
    assert_eq!(put_failure(None), None);
    assert_eq!(occ_next(0, LOCK_OCC_RETRIES, PutOutcome::Written), OccNext::Done);
    assert_eq!(occ_next(6, LOCK_OCC_RETRIES, PutOutcome::Retry), OccNext::Again);
    assert_eq!(occ_next(7, LOCK_OCC_RETRIES, PutOutcome::Retry), OccNext::Busy);
}

#[test]
fn own_locks_do_not_block_and_release_frees_them() {
    let mut t = LockTable::default();
    for (s, e) in [(0, 100), (50, 60), (55, 200)] {
        set(&mut t, "a", LockKind::Write, s, e).unwrap();
    }
    set(&mut t, "b", LockKind::Read, 300, 400).unwrap();
    assert!(t.release_owner("a"));
    assert!(!t.release_owner("a"));
    assert!(ranges(&t, "a").is_empty());
    assert_eq!(ranges(&t, "b"), vec![(300, 400, LockKind::Read)]);
    assert!(t.test("c", LockKind::Write, 0, 299, NOW).is_none());
}

#[test]
fn tables_stay_as_they_should_be() {
    let mut t = LockTable::default();
    for (o, k, s, e) in [
        ("a", LockKind::Read, 0, 100),
        ("b", LockKind::Read, 50, 150),
        ("a", LockKind::Write, 10, 20),
        ("a", LockKind::Unlock, 15, 15),
        ("b", LockKind::Write, 60, 70),
        ("b", LockKind::Write, 120, 130),
        ("a", LockKind::Read, 5, 12),
    ] {
        let _ = set(&mut t, o, k, s, e);
        for (i, x) in t.entries.iter().enumerate() {
            assert!(x.kind != LockKind::Unlock && x.start <= x.end);
            for (j, y) in t.entries.iter().enumerate() {
                if i != j && overlaps(x.start, x.end, y.start, y.end) {
                    assert!(x.owner != y.owner);
                    assert!(x.kind == LockKind::Read && y.kind == LockKind::Read);
                }
            }
        }
    }
}
