use hyperdir::scatter::{decode_listing, ListedObject, ScatterKeyParts};
use hyperdir::store::{
    compact_lease_path, dir_inode_uri, scatter_event, scatter_inodes_path, scatter_name_path, scatter_put_outcome,
};
use hyperdir::lease::PutReply;
use hyperdir::{
    DirScatterInode, DirScatterInodeOp, ErrorKind, Ulid, Uuid, DEFAULT_DIR_INODE_SCATTER_FOLDER,
    DEFAULT_DIR_INODE_SUFFIX, DEFAULT_DIR_TOMBSTONE_SUFFIX,
};

const UNIX_EPOCH: i128 = 0;

fn roundtrip(name: &str, op: DirScatterInodeOp) {
    let uuid = Uuid::new_v4();
    let op_u8 = op.as_u8();
    let key = DirScatterInode::path_encode("DIR/parent-uuid", name, &uuid, op_u8);
    let decoded = DirScatterInode::path_decode(&key, UNIX_EPOCH);
    assert_eq!(decoded.filename, name);
    assert_eq!(decoded.uuid, uuid);
    assert_eq!(decoded.op.as_u8(), op_u8);
}

#[test]
fn inode_suffix_for_non_delete() {
    let key = DirScatterInode::path_encode(
        "DIR/p", "foo", &Uuid::nil(), DirScatterInodeOp::Create.as_u8());
    assert!(key.ends_with(DEFAULT_DIR_INODE_SUFFIX));
    assert!(!key.ends_with(DEFAULT_DIR_TOMBSTONE_SUFFIX));
}

#[test]
fn tombstone_suffix_for_delete() {
    let key = DirScatterInode::path_encode(
        "DIR/p", "foo", &Uuid::nil(), DirScatterInodeOp::Delete.as_u8());
    assert!(key.ends_with(DEFAULT_DIR_TOMBSTONE_SUFFIX));
}

#[test]
fn roundtrip_ops_and_names() {
    roundtrip("hello.txt", DirScatterInodeOp::Create);
    roundtrip("with space", DirScatterInodeOp::Update);
    roundtrip("a/weird\\name", DirScatterInodeOp::Delete);
    roundtrip("unicode-\u{6587}\u{4ef6}", DirScatterInodeOp::Create);
}

#[test]
fn numbers_of_ops() {
    for (op, n) in [
        (DirScatterInodeOp::Create, 1u8),
        (DirScatterInodeOp::Update, 2),
        (DirScatterInodeOp::PreDelete, 3),
        (DirScatterInodeOp::Delete, 4),
        (DirScatterInodeOp::Unknown, 255),
    ] {
        assert_eq!(op.as_u8(), n);
        assert_eq!(DirScatterInodeOp::from_u8(n), op);
    }
    assert_eq!(DirScatterInodeOp::from_u8(0), DirScatterInodeOp::Unknown);
    assert_eq!(DirScatterInodeOp::from_u8(5), DirScatterInodeOp::Unknown);
}

#[test]
fn keys_put_the_name_first() {
    let u = Uuid::from_u128(0xff);
    let l = Ulid { bits: 33 };
    let key = DirScatterInode::path_encode_with("DIR/p", "foo", &u, 3, &l);
    // "foo" is 011001 100110 111101 101111: symbols 25, 38, 61, 47 of the alphabet
    assert_eq!(DirScatterInode::encode_filename("foo"), "Xk7t");
    assert_eq!(key, "DIR/p/!/Xk7t/00000000000000000000000011_00000000-0000-0000-0000-0000000000ff_3.inode");
    assert!(key.starts_with(&scatter_name_path("DIR/p", "foo")));
    assert!(key.starts_with(&scatter_inodes_path("DIR/p")));
    assert_eq!(scatter_inodes_path("DIR/p"), format!("DIR/p/{}/", DEFAULT_DIR_INODE_SCATTER_FOLDER));
    assert_eq!(scatter_name_path("DIR/p", "foo"), "DIR/p/!/Xk7t/");
    assert_eq!(compact_lease_path("DIR/p"), "DIR/p/_compact.lease");
    assert_eq!(dir_inode_uri("s3://b/DIR/p"), "s3://b/DIR/p/inode");
    let s = DirScatterInode::path_decode(&key, 12);
    assert_eq!(s.key, key);
    assert_eq!(s.ulid, l);
    assert_eq!(s.last_modified, 12);
    assert_eq!(s.op, DirScatterInodeOp::PreDelete);
}

#[test]
fn names_are_encoded_without_separators() {
    for n in ["", "a", "ab", "abc", "???>>>", "\u{10ffff}", "_/!."] {
        let e = DirScatterInode::encode_filename(n);
        assert!(!e.contains('_') && !e.contains('/') && !e.contains('!') && !e.contains('.') && !e.contains('='));
        let key = DirScatterInode::path_encode("DIR/p", n, &Uuid::nil(), 1);
        assert_eq!(DirScatterInode::path_decode(&key, 0).filename, n);
    }
}

#[test]
fn other_keys_are_not_scatter_keys() {
    let good = DirScatterInode::path_encode_with("DIR/p", "foo", &Uuid::nil(), 1, &Ulid { bits: 1 });
    assert!(DirScatterInode::is_scatter_key(&good));
    for bad in [
        "DIR/p/inode",
        "DIR/p/!/x.inode",
        "DIR/p/!/Xk7t/00000000000000000000000001_00000000-0000-0000-0000-000000000000_1.other",
        "DIR/p/!/Xk7t/00000000000000000000000001_00000000-0000-0000-0000-000000000000_256.inode",
        "DIR/p/!/Xk7t/0000000000000000000000000_00000000-0000-0000-0000-000000000000_1.inode",
        "DIR/p/!/Xk7t/00000000000000000000000001_0000-0000_1.inode",
        "DIR/p/!/X=7t/00000000000000000000000001_00000000-0000-0000-0000-000000000000_1.inode",
        "DIR/!/!/Xk7t/00000000000000000000000001_00000000-0000-0000-0000-000000000000_1.inode",
    ] {
        assert!(!DirScatterInode::is_scatter_key(bad), "{}", bad);
        assert!(DirScatterInode::try_path_decode(bad, 0).is_none());
    }
}

#[test]
fn listings_pick_out_scatter_objects() {
    let key = DirScatterInode::path_encode("DIR/p", "foo", &Uuid::nil(), 4);
    let objects = vec![
        ListedObject { key: "DIR/p/!/other".to_string(), last_modified: 1 },
        ListedObject { key: key.clone(), last_modified: 2 },
    ];
    let v = decode_listing(&objects).unwrap();
    assert_eq!(v.len(), 1);
    assert_eq!(v[0].key, key);
    assert_eq!(v[0].last_modified, 2);
    let broken = vec![ListedObject { key: "DIR/p/!/junk.inode".to_string(), last_modified: 1 }];
    assert!(decode_listing(&broken).is_none());
}

fn change(name: &str, op: DirScatterInodeOp, modified: i128, ulid: u128) -> DirScatterInode {
    let key = DirScatterInode::path_encode_with("DIR/p", name, &Uuid::nil(), op.as_u8(), &Ulid { bits: ulid });
    DirScatterInode::path_decode(&key, modified)
}

#[test]
fn the_latest_change_of_a_name_counts() {
    let v = vec![
        change("a", DirScatterInodeOp::Create, 5, 1),
        change("b", DirScatterInodeOp::Create, 9, 9),
        change("a", DirScatterInodeOp::Delete, 7, 0),
        change("a", DirScatterInodeOp::Update, 6, 99),
        change("b", DirScatterInodeOp::Delete, 9, 8),
    ];
    let mut last = DirScatterInode::filter_last_view(v);
    last.sort_by(|x, y| x.filename.cmp(&y.filename));
    assert_eq!(last.len(), 2);
    // the store's time decides for a, the ULID for b
    assert_eq!(last[0].op, DirScatterInodeOp::Delete);
    assert_eq!(last[0].last_modified, 7);
    assert_eq!(last[1].op, DirScatterInodeOp::Create);
    assert!(DirScatterInode::filter_last_view(Vec::new()).is_empty());
}

#[test]
fn the_key_breaks_ties() {
    // same time and ULID: op 4 has the greater key
    let a = change("a", DirScatterInodeOp::Create, 1, 1);
    let b = change("a", DirScatterInodeOp::Delete, 1, 1);
    assert!(a.is_older(&b));
    assert!(!b.is_older(&a));
    let one = DirScatterInode::filter_last_view(vec![a.copy(), b.copy()]);
    let two = DirScatterInode::filter_last_view(vec![b, a]);
    assert_eq!(one[0].op, DirScatterInodeOp::Delete);
    assert_eq!(two[0].op, DirScatterInodeOp::Delete);
}

#[test]
fn events_carry_key_and_body() {
    let l = Ulid { bits: 7 };
    let p = scatter_event("DIR/p", "n", &Uuid::nil(), b"body", DirScatterInodeOp::Update, &l).unwrap();
    assert_eq!(p.body, b"body".to_vec());
    assert_eq!(DirScatterInode::path_decode(&p.key, 0).op, DirScatterInodeOp::Update);
    let e = scatter_event("DIR/p", "n", &Uuid::nil(), b"", DirScatterInodeOp::Unknown, &l).unwrap_err();
    assert_eq!(e.kind(), ErrorKind::InvalidInput);
}

#[test]
fn an_existing_scatter_object_was_committed() {
    assert!(scatter_put_outcome(&PutReply::Stored(None)).is_ok());
    assert!(scatter_put_outcome(&PutReply::Failed(Some(412))).is_ok());
    assert!(scatter_put_outcome(&PutReply::Failed(Some(409))).is_ok());
    assert_eq!(scatter_put_outcome(&PutReply::Failed(Some(503))).unwrap_err().kind(), ErrorKind::Other);
    assert_eq!(scatter_put_outcome(&PutReply::Failed(None)).unwrap_err().kind(), ErrorKind::Other);
}

#[test]
fn identifiers_read_back() {
    let u = Uuid::new_v4();
    assert_eq!(Uuid::parse_str(&u.to_text()), Some(u));
    assert_ne!(Uuid::new_v4(), u);
    assert_ne!(u, Uuid::nil());
    // version 4 in the 15th place of the text, the variant in the 20th
    let text: Vec<char> = u.to_text().chars().collect();
    assert_eq!(text[14], '4');
    assert!(matches!(text[19], '8' | '9' | 'a' | 'b'));
    let l = Ulid::fresh();
    assert_eq!(Ulid::from_string(&l.to_text()), Some(l));
    assert_eq!(Ulid::from_string("short"), None);
    assert_eq!(Ulid { bits: u128::MAX }.to_text(), "7ZZZZZZZZZZZZZZZZZZZZZZZZZ");
    assert_eq!(Ulid { bits: 5u128 << 80 }.timestamp_ms(), 5);
    assert_eq!(Ulid { bits: u128::MAX }.timestamp_ms(), 0xffff_ffff_ffff);
}

#[test]
fn keys_are_taken_apart() {
    let parts = |k: &str| ScatterKeyParts::of(k).map(|p| (p.name, p.ulid, p.uuid, p.op));
    let texts = |a: &str, b: &str, c: &str, d: &str| {
        Some((a.to_string(), b.to_string(), c.to_string(), d.to_string()))
    };
    assert_eq!(parts("DIR/p/!/n/a_b_c.inode"), texts("n", "a", "b", "c"));
    assert_eq!(parts("!/n/a_b_c.tombstone"), texts("n", "a", "b", "c"));
    assert_eq!(parts("x!//__.inode"), texts("", "", "", ""));
    assert_eq!(parts("!/n/a_b_c_d.inode"), texts("n", "a", "b", "c"));
    for k in ["", "n/a_b_c.inode", "!!/n/a_b_c.inode", "!x/n/a_b_c.inode", "!/n/m/a_b_c.inode", "!/n/a_b.inode",
        "!/n/a_b_c", "!/n/a_b_c.inode.x"] {
        assert_eq!(parts(k), None);
    }
}

#[test]
fn scatter_objects_from_decoded_parts() {
    let ulid = Some(Ulid { bits: 5 });
    let uuid = Some(Uuid::from_u128(6));
    let s = DirScatterInode::from_fields("key", Some(b"name".to_vec()), ulid, uuid, Some(3), 7).unwrap();
    assert_eq!((s.key.as_str(), s.filename.as_str()), ("key", "name"));
    assert_eq!((s.ulid.bits, s.uuid.bits, s.last_modified), (5, 6, 7));
    assert_eq!(s.op, DirScatterInodeOp::PreDelete);
    let s = DirScatterInode::from_fields("key", Some(Vec::new()), ulid, uuid, Some(9), 7).unwrap();
    assert_eq!(s.op, DirScatterInodeOp::Unknown);
    let name = || Some(b"name".to_vec());
    assert!(DirScatterInode::from_fields("key", None, ulid, uuid, Some(3), 7).is_none());
    assert!(DirScatterInode::from_fields("key", Some(vec![0xff]), ulid, uuid, Some(3), 7).is_none());
    assert!(DirScatterInode::from_fields("key", name(), None, uuid, Some(3), 7).is_none());
    assert!(DirScatterInode::from_fields("key", name(), ulid, None, Some(3), 7).is_none());
    assert!(DirScatterInode::from_fields("key", name(), ulid, uuid, None, 7).is_none());
}
