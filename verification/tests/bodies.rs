use hyperdir::clock::{expires_at, saturating_sum, signed_bits, time_of_reading};
use hyperdir::intent::{field_in, reclaim_intent_stale, stale_id, Field, FieldValue, ReclaimIntent, RenameIntent};
use hyperdir::lease::{
    clean_etag, format_lease_body, parse_lease_body, LeaseBid, LeaseReply, LeaseStep, PutReply,
};
use hyperdir::ondisk::{DirFileEntryRaw, DirFileInodeRaw, InodeRaw, DIR_FILE_ENTRY_RAW_SIZE};
use hyperdir::text::{chars_of, lines_of, parse_i64, parse_u32, parse_u64, push_i64, split_on, string_of};
use hyperdir::tombstone::{
    build_tombstone_body, parse_tombstone_body, retention_deadline, unlink_marker, UnlinkMarker,
};
use hyperdir::{unix_now_ms, Error, ErrorKind, TombstoneHeader, Ulid, Uuid, DEFAULT_COMPACT_LEASE_TTL_MS};

#[test]
fn lease_body_round_trip() {
    let s = format_lease_body("01ARZ3NDEKTSV4RRFFQ69G5FAV", -12);
    assert_eq!(s, "holder=01ARZ3NDEKTSV4RRFFQ69G5FAV\nexpires_at_unix_ms=-12\n");
    let (h, e) = parse_lease_body(s.as_bytes()).unwrap();
    assert_eq!(h, "01ARZ3NDEKTSV4RRFFQ69G5FAV");
    assert_eq!(e, -12);
}

#[test]
fn lease_holders_may_hold_carriage_returns() {
    let (h, e) = parse_lease_body(format_lease_body("a\rb", 5).as_bytes()).unwrap();
    assert_eq!((h.as_str(), e), ("a\rb", 5));
    // one at the end counts as part of the line break
    let (h, _) = parse_lease_body(format_lease_body("a\r", 5).as_bytes()).unwrap();
    assert_eq!(h, "a");
}

#[test]
fn lease_body_details() {
    // the last line of a kind counts, others are passed over, carriage returns at line ends too
    let (h, e) = parse_lease_body(b"x=1\r\nholder=a\r\nexpires_at_unix_ms=+7\r\nholder=b").unwrap();
    assert_eq!((h.as_str(), e), ("b", 7));
    assert_eq!(parse_lease_body(&[0xc3]).unwrap_err(), Error::LeaseNotText);
    assert_eq!(parse_lease_body(b"expires_at_unix_ms=1\n").unwrap_err(), Error::LeaseWithoutHolder);
    assert_eq!(parse_lease_body(b"holder=a\n").unwrap_err(), Error::LeaseWithoutExpiry);
    assert_eq!(parse_lease_body(b"holder=a\nexpires_at_unix_ms=x\n").unwrap_err(), Error::LeaseWithoutExpiry);
    assert_eq!(
        parse_lease_body(b"holder=a\nexpires_at_unix_ms=5\nexpires_at_unix_ms=\n").unwrap_err().kind(),
        ErrorKind::InvalidData
    );
}

fn bid(now_ms: i64) -> LeaseBid {
    LeaseBid { holder_id: "me".to_string(), lease_key: "DIR/d/_compact.lease".to_string(), now_ms, ttl_ms: 100 }
}

#[test]
fn lease_is_acquired_when_free() {
    let b = bid(50);
    assert_eq!(b.body(), "holder=me\nexpires_at_unix_ms=150\n");
    match b.after_create(&PutReply::Stored(Some("\"abc\"".to_string()))) {
        LeaseStep::Acquired(g) => {
            assert_eq!(g.etag, "abc");
            assert_eq!(g.holder_id, "me");
            assert_eq!(g.lease_key, "DIR/d/_compact.lease");
            assert_eq!(g.expires_at_unix_ms, 150);
        },
        other => panic!("{:?}", other),
    }
    assert!(matches!(b.after_create(&PutReply::Failed(Some(412))), LeaseStep::Inspect));
    assert!(matches!(b.after_create(&PutReply::Failed(Some(409))), LeaseStep::Inspect));
    assert!(matches!(b.after_create(&PutReply::Failed(Some(500))), LeaseStep::Refused(Error::StoreFailed)));
    assert!(matches!(b.after_create(&PutReply::Failed(None)), LeaseStep::Refused(Error::StoreFailed)));
}

#[test]
fn fresh_lease_is_not_taken_over() {
    let held = format_lease_body("other", 151).into_bytes();
    let found = LeaseReply::Found(Some("\"e1\"".to_string()), held);
    match bid(150).after_inspect(&found) {
        LeaseStep::Refused(e) => assert_eq!(e.kind(), ErrorKind::ResourceBusy),
        other => panic!("{:?}", other),
    }
    // at its expiry it is free
    match bid(151).after_inspect(&found) {
        LeaseStep::TakeOver(etag, body) => {
            assert_eq!(etag, "e1");
            assert_eq!(body, "holder=me\nexpires_at_unix_ms=251\n");
        },
        other => panic!("{:?}", other),
    }
}

#[test]
fn lease_take_over_can_fail() {
    let b = bid(1);
    assert!(matches!(b.after_inspect(&LeaseReply::Failed), LeaseStep::Refused(Error::LeaseGone)));
    assert!(matches!(b.after_inspect(&LeaseReply::Broken), LeaseStep::Refused(Error::StoreFailed)));
    assert!(matches!(
        b.after_inspect(&LeaseReply::Found(None, b"junk".to_vec())),
        LeaseStep::Refused(Error::LeaseWithoutHolder)
    ));
    assert!(matches!(b.after_take_over(&PutReply::Failed(Some(412))), LeaseStep::Refused(Error::LeaseRaceLost)));
    assert!(matches!(b.after_take_over(&PutReply::Failed(Some(400))), LeaseStep::Refused(Error::StoreFailed)));
    assert!(matches!(b.after_take_over(&PutReply::Stored(None)), LeaseStep::Acquired(_)));
    assert_eq!(Error::LeaseGone.kind(), ErrorKind::ResourceBusy);
    assert_eq!(Error::LeaseRaceLost.kind(), ErrorKind::ResourceBusy);
}

#[test]
fn lease_bids_have_holders_of_their_own() {
    let a = LeaseBid::begin("k", 5, DEFAULT_COMPACT_LEASE_TTL_MS);
    let b = LeaseBid::begin("k", 5, DEFAULT_COMPACT_LEASE_TTL_MS);
    assert_ne!(a.holder_id, b.holder_id);
    assert!(Ulid::from_string(&a.holder_id).is_some());
    assert_eq!(clean_etag(&None), "");
    assert_eq!(clean_etag(&Some("W/\"x\"y".to_string())), "W/xy");
}

#[test]
fn tombstone_round_trip() {
    let inode = vec![7u8; 160];
    let body = build_tombstone_body(258, -2, &inode);
    assert_eq!(body.len(), 176);
    assert_eq!(&body[0..8], &[2, 1, 0, 0, 0, 0, 0, 0]);
    assert_eq!(&body[8..16], &[254, 255, 255, 255, 255, 255, 255, 255]);
    let (h, rest) = parse_tombstone_body(&body).unwrap();
    assert_eq!(h, TombstoneHeader { deleted_at_unix_ms: 258, retention_until_unix_ms: -2 });
    assert_eq!(rest, &inode[..]);
    assert_eq!(TombstoneHeader::SIZE, 16);
    assert_eq!(parse_tombstone_body(&body[..15]).unwrap_err().kind(), ErrorKind::InvalidData);
    let bare = build_tombstone_body(i64::MIN, i64::MAX, &[]);
    let (h, rest) = parse_tombstone_body(&bare).unwrap();
    assert_eq!(h, TombstoneHeader { deleted_at_unix_ms: i64::MIN, retention_until_unix_ms: i64::MAX });
    assert!(rest.is_empty());
}

#[test]
fn unlink_markers_round_trip() {
    for m in [
        UnlinkMarker { is_dir: true, retention_until_unix_ms: 0 },
        UnlinkMarker { is_dir: false, retention_until_unix_ms: i64::MAX },
    ] {
        assert_eq!(UnlinkMarker::from_body(&m.to_body()), Ok(m));
    }
    assert_eq!(unlink_marker(false, 10, Some(5)).to_body(), vec![0, 15, 0, 0, 0, 0, 0, 0, 0]);
    assert_eq!(UnlinkMarker::from_body(&[]).unwrap_err(), Error::MalformedMarker);
    assert_eq!(UnlinkMarker::from_body(&[2, 0, 0, 0, 0, 0, 0, 0, 0]).unwrap_err().kind(), ErrorKind::InvalidData);
}

#[test]
fn retention_deadlines() {
    assert_eq!(retention_deadline(1_000, None), 0);
    assert_eq!(retention_deadline(1_000, Some(0)), 1_000);
    assert_eq!(retention_deadline(1_000, Some(60_000)), 61_000);
    assert_eq!(retention_deadline(1_000, Some(u128::MAX)), i64::MAX);
}

#[test]
fn times_saturate() {
    assert_eq!(saturating_sum(i64::MAX, 1), i64::MAX);
    assert_eq!(saturating_sum(i64::MIN, -1), i64::MIN);
    assert_eq!(saturating_sum(3, -5), -2);
    assert_eq!(signed_bits(u64::MAX), -1);
    assert_eq!(expires_at(10, 5), 15);
    assert_eq!(time_of_reading(None), 0);
    assert_eq!(time_of_reading(Some(7)), 7);
    assert_eq!(time_of_reading(Some(u128::MAX)), i64::MAX);
    // some time after 2020
    assert!(unix_now_ms() > 1_577_836_800_000);
}

fn rename_intent() -> RenameIntent {
    RenameIntent {
        src_parent: Uuid::nil(),
        src_name: "a\nb".to_string(),
        dst_parent: Uuid::from_u128(1),
        dst_name: "\u{6587}".to_string(),
        child: Uuid::from_u128(2),
        inode: vec![0xfb; 160],
    }
}

#[test]
fn rename_intent_round_trip() {
    let i = rename_intent();
    let s = i.serialize();
    assert!(s.starts_with("src_parent=00000000-0000-0000-0000-000000000000\nsrc_name=YQpi\ndst_parent="));
    let b = RenameIntent::parse(s.as_bytes()).unwrap();
    assert_eq!(b.src_parent, i.src_parent);
    assert_eq!(b.src_name, i.src_name);
    assert_eq!(b.dst_parent, i.dst_parent);
    assert_eq!(b.dst_name, i.dst_name);
    assert_eq!(b.child, i.child);
    assert_eq!(b.inode, i.inode);
}

#[test]
fn rename_intent_errors() {
    let s = rename_intent().serialize();
    assert_eq!(RenameIntent::parse(&[0xff]).unwrap_err(), Error::IntentNotText);
    assert_eq!(RenameIntent::parse(b"child=x\n").unwrap_err(), Error::IntentBadUuid);
    assert_eq!(RenameIntent::parse(b"src_name=*\n").unwrap_err(), Error::IntentBadBase64);
    assert_eq!(RenameIntent::parse(b"dst_name=/w==\n").unwrap_err(), Error::IntentBadName);
    assert_eq!(RenameIntent::parse(b"inode=YQ\n").unwrap_err(), Error::IntentBadBase64);
    for field in ["src_parent=", "src_name=", "dst_parent=", "dst_name=", "child=", "inode="] {
        let cut: String = s.lines().filter(|l| !l.starts_with(field)).map(|l| format!("{}\n", l)).collect();
        assert_eq!(RenameIntent::parse(cut.as_bytes()).unwrap_err(), Error::IntentIncomplete);
    }
    assert_eq!(Error::IntentIncomplete.kind(), ErrorKind::InvalidData);
    // unknown lines are passed over
    assert!(RenameIntent::parse(format!("{}note=1\nis_dir=1\n", s).as_bytes()).is_ok());
}

#[test]
fn reclaim_intent_round_trip() {
    for is_dir in [false, true] {
        let i = ReclaimIntent {
            dst_parent: Uuid::from_u128(3),
            dst_name: "x".to_string(),
            displaced: Uuid::from_u128(4),
            displaced_is_dir: is_dir,
        };
        let s = i.serialize();
        assert_eq!(
            s,
            format!(
                "dst_parent=00000000-0000-0000-0000-000000000003\ndst_name=eA==\ndisplaced=00000000-0000-0000-0000-000000000004\nis_dir={}\n",
                if is_dir { 1 } else { 0 }
            )
        );
        let b = ReclaimIntent::parse(s.as_bytes()).unwrap();
        assert_eq!(b.dst_parent, i.dst_parent);
        assert_eq!(b.dst_name, i.dst_name);
        assert_eq!(b.displaced, i.displaced);
        assert_eq!(b.displaced_is_dir, is_dir);
    }
}

#[test]
fn reclaim_intent_errors() {
    assert_eq!(ReclaimIntent::parse(&[0xff]).unwrap_err(), Error::IntentNotText);
    assert_eq!(ReclaimIntent::parse(b"").unwrap_err(), Error::IntentIncomplete);
    assert_eq!(ReclaimIntent::parse(b"displaced=no\n").unwrap_err(), Error::IntentBadUuid);
    assert_eq!(ReclaimIntent::parse(b"dst_name=no!\n").unwrap_err(), Error::IntentBadBase64);
    assert_eq!(ReclaimIntent::parse(b"dst_name=/w==\n").unwrap_err(), Error::IntentBadName);
    // without a flag it is a file
    let u = Uuid::nil().to_text();
    let b = ReclaimIntent::parse(format!("dst_parent={}\ndst_name=\ndisplaced={}\n", u, u).as_bytes()).unwrap();
    assert!(!b.displaced_is_dir);
    assert_eq!(b.dst_name, "");
}

fn rename_parts() -> Vec<FieldValue> {
    vec![
        FieldValue::SrcParent(Some(Uuid::from_u128(1))),
        FieldValue::SrcName(Some(b"s".to_vec())),
        FieldValue::DstParent(Some(Uuid::from_u128(2))),
        FieldValue::DstName(Some(b"d".to_vec())),
        FieldValue::Child(Some(Uuid::from_u128(3))),
        FieldValue::Inode(Some(vec![0xff, 0])),
    ]
}

#[test]
fn rename_intents_from_fields() {
    let i = RenameIntent::from_fields(&rename_parts()).unwrap();
    assert_eq!((i.src_parent.bits, i.dst_parent.bits, i.child.bits), (1, 2, 3));
    assert_eq!((i.src_name.as_str(), i.dst_name.as_str()), ("s", "d"));
    assert_eq!(i.inode, vec![0xff, 0]);
    // each field has to be there
    for n in 0..6 {
        let mut parts = rename_parts();
        parts.remove(n);
        assert_eq!(RenameIntent::from_fields(&parts).unwrap_err(), Error::IntentIncomplete);
    }
    // the last value of a field counts; fields of other intents are passed over
    let mut parts = rename_parts();
    parts.push(FieldValue::DstName(Some(b"later".to_vec())));
    parts.push(FieldValue::Displaced(None));
    parts.push(FieldValue::IsDir(true));
    assert_eq!(RenameIntent::from_fields(&parts).unwrap().dst_name, "later");
    // the first malformed value is the error
    for (bad, e) in [
        (FieldValue::SrcParent(None), Error::IntentBadUuid),
        (FieldValue::DstParent(None), Error::IntentBadUuid),
        (FieldValue::Child(None), Error::IntentBadUuid),
        (FieldValue::SrcName(None), Error::IntentBadBase64),
        (FieldValue::DstName(None), Error::IntentBadBase64),
        (FieldValue::Inode(None), Error::IntentBadBase64),
        (FieldValue::SrcName(Some(vec![0xff])), Error::IntentBadName),
        (FieldValue::DstName(Some(vec![0xff])), Error::IntentBadName),
    ] {
        let mut parts = rename_parts();
        parts.push(bad);
        parts.push(FieldValue::Child(None));
        assert_eq!(RenameIntent::from_fields(&parts).unwrap_err(), e);
    }
}

#[test]
fn reclaim_intents_from_fields() {
    let parts = || {
        vec![
            FieldValue::DstParent(Some(Uuid::from_u128(1))),
            FieldValue::DstName(Some(b"d".to_vec())),
            FieldValue::Displaced(Some(Uuid::from_u128(2))),
        ]
    };
    let i = ReclaimIntent::from_fields(&parts()).unwrap();
    assert_eq!((i.dst_parent.bits, i.dst_name.as_str(), i.displaced.bits), (1, "d", 2));
    assert!(!i.displaced_is_dir);
    let mut with_flag = parts();
    with_flag.push(FieldValue::IsDir(true));
    with_flag.push(FieldValue::SrcParent(None));
    with_flag.push(FieldValue::Inode(None));
    assert!(ReclaimIntent::from_fields(&with_flag).unwrap().displaced_is_dir);
    with_flag.push(FieldValue::IsDir(false));
    assert!(!ReclaimIntent::from_fields(&with_flag).unwrap().displaced_is_dir);
    for n in 0..3 {
        let mut parts = parts();
        parts.remove(n);
        assert_eq!(ReclaimIntent::from_fields(&parts).unwrap_err(), Error::IntentIncomplete);
    }
    for (bad, e) in [
        (FieldValue::DstParent(None), Error::IntentBadUuid),
        (FieldValue::Displaced(None), Error::IntentBadUuid),
        (FieldValue::DstName(None), Error::IntentBadBase64),
        (FieldValue::DstName(Some(vec![0x80])), Error::IntentBadName),
    ] {
        let mut parts = parts();
        parts.insert(0, bad);
        assert_eq!(ReclaimIntent::from_fields(&parts).unwrap_err(), e);
    }
}

#[test]
fn fields_of_intent_lines() {
    let field = |s: &str| field_in(&chars_of(s)).map(|(f, v)| (f, string_of(&v)));
    for (line, f) in [
        ("src_parent=x=", Field::SrcParent),
        ("src_name=x=", Field::SrcName),
        ("dst_parent=x=", Field::DstParent),
        ("dst_name=x=", Field::DstName),
        ("child=x=", Field::Child),
        ("inode=x=", Field::Inode),
        ("displaced=x=", Field::Displaced),
        ("is_dir=x=", Field::IsDir),
    ] {
        assert_eq!(field(line), Some((f, "x=".to_string())));
    }
    for line in ["", "child", " child=x", "Child=x", "other=x"] {
        assert_eq!(field(line), None);
    }
}

#[test]
fn ages_of_reclaim_intents() {
    let made = Ulid { bits: 1000 << 80 };
    assert!(!stale_id(Some(made), 61_000));
    assert!(stale_id(Some(made), 61_001));
    assert!(!stale_id(Some(made), i64::MIN));
    assert!(stale_id(None, 0));
}

#[test]
fn stale_reclaim_intents() {
    let id = Ulid { bits: 1_000u128 << 80 }.to_text();
    let key = format!("fs/_TXN/{}.reclaim", id);
    assert!(!reclaim_intent_stale(&key, 61_000));
    assert!(reclaim_intent_stale(&key, 61_001));
    assert!(!reclaim_intent_stale(&key, 0));
    assert!(!reclaim_intent_stale(&id, 61_000));
    assert!(reclaim_intent_stale("fs/_TXN/junk.reclaim", 0));
}

#[test]
fn entries_in_bytes() {
    let mut inode = InodeRaw::default();
    inode.bytes[159] = 9;
    let e = DirFileEntryRaw::from(&inode, &Uuid::from_u128(0x0102), b"name");
    let bytes = e.as_u8_slice();
    assert_eq!(bytes.len(), DIR_FILE_ENTRY_RAW_SIZE);
    assert_eq!(bytes[159], 9);
    assert_eq!(&bytes[174..176], &[1, 2]);
    assert_eq!(&bytes[176..181], b"name\0");
    let b = DirFileEntryRaw::from_slice(&bytes);
    assert_eq!(b.inode.bytes, e.inode.bytes);
    assert_eq!(b.uuid, e.uuid);
    assert_eq!(b.name, e.name);
    assert_eq!(InodeRaw::from_u8_slice(&inode.as_u8_slice()).bytes, inode.bytes);
    let mut d = DirFileInodeRaw { inode };
    assert_eq!(d.inode.bytes[159], 9);
    d.as_mut_u8_slice()[0] = 3;
    assert_eq!(d.inode.bytes[0], 3);
    assert_eq!(d.as_mut_u8_slice().len(), 160);
    let zero = DirFileEntryRaw::default();
    assert!(zero.as_u8_slice().iter().all(|x| *x == 0));
    // the longer of two slices is read from its beginning
    let mut longer = bytes.clone();
    longer.push(1);
    assert_eq!(DirFileEntryRaw::from_slice(&longer).name, e.name);
}

#[test]
fn entry_names() {
    let inode = InodeRaw::default();
    let e = DirFileEntryRaw::from(&inode, &Uuid::nil(), b"abc");
    assert_eq!(e.name_bytes(), b"abc".to_vec());
    assert!(e.name_eq(b"abc"));
    assert!(!e.name_eq(b"ab"));
    assert!(!e.is_dummy());
    let long = vec![b'x'; 300];
    let e = DirFileEntryRaw::from(&inode, &Uuid::nil(), &long);
    assert_eq!(e.name_bytes(), vec![b'x'; 255]);
    assert_eq!(e.name[255], 0);
    let d = DirFileEntryRaw::dummy_value();
    assert!(d.is_dummy());
    assert_eq!(d.name_bytes(), vec![0xff; 255]);
    assert_eq!(d.to_text(), "[DUMMRY VALUE ENTRY]");
    let short = DirFileEntryRaw::from(&inode, &Uuid::nil(), "f\u{6587}".as_bytes());
    assert_eq!(short.to_text(), format!("f\u{6587}{}", "\0".repeat(252)));
    let mut full = e;
    full.name = [b'y'; 256];
    assert_eq!(full.name_bytes().len(), 256);
}

#[test]
fn numbers_in_text() {
    let p = |s: &str| parse_i64(&chars_of(s));
    assert_eq!(p("-9223372036854775808"), Some(i64::MIN));
    assert_eq!(p("9223372036854775807"), Some(i64::MAX));
    assert_eq!(p("9223372036854775808"), None);
    assert_eq!(p("-9223372036854775809"), None);
    assert_eq!(p("+5"), Some(5));
    assert_eq!(p("-0"), Some(0));
    assert_eq!(p("00000000000000000000000000007"), Some(7));
    for bad in ["", "+", "-", "+-1", "1 ", "0x1", "\u{0661}"] {
        assert_eq!(p(bad), None);
    }
    assert_eq!(parse_u64(&chars_of("18446744073709551615")), Some(u64::MAX));
    assert_eq!(parse_u64(&chars_of("18446744073709551616")), None);
    assert_eq!(parse_u64(&chars_of("-0")), None);
    assert_eq!(parse_u32(&chars_of("4294967295")), Some(u32::MAX));
    assert_eq!(parse_u32(&chars_of("4294967296")), None);
    let mut s = String::new();
    push_i64(&mut s, i64::MIN);
    push_i64(&mut s, 0);
    assert_eq!(s, "-92233720368547758080");
}

#[test]
fn lines_as_std_splits_them() {
    for t in ["", "a", "a\n", "a\r\nb\r", "\n\n", "x\ny\n\r\n", "\r"] {
        let got: Vec<String> = lines_of(&chars_of(t)).iter().map(|l| string_of(l)).collect();
        let want: Vec<String> = t.lines().map(|l| l.to_string()).collect();
        assert_eq!(got, want, "{:?}", t);
        let got: Vec<String> = split_on(&chars_of(t), '\n').iter().map(|l| string_of(l)).collect();
        let want: Vec<String> = t.split('\n').map(|l| l.to_string()).collect();
        assert_eq!(got, want, "{:?}", t);
    }
}
