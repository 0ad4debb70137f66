use hyperdir::layout::{namespace_segment, namespace_uuids, xattr_names, xattr_segment, xattr_text};
use hyperdir::{HyperDirLayout, Uuid, ROOT_DIR_UUID};

#[test]
fn keys_without_base() {
    let l = HyperDirLayout::new();
    let u = Uuid::nil();
    assert_eq!(l.dir_key(&u), "DIR/00000000-0000-0000-0000-000000000000");
    assert_eq!(l.file_key(&u), "FILE/00000000-0000-0000-0000-000000000000");
    assert_eq!(l.dir_uri("b", &u), "s3://b/DIR/00000000-0000-0000-0000-000000000000");
    assert_eq!(l.root_dir_uri("b"), "s3://b/DIR/00000000-0000-0000-0000-000000000000");
}

#[test]
fn base_is_normalized() {
    assert_eq!(HyperDirLayout::with_base("fs1").dir_key(&Uuid::nil()),
               "fs1/DIR/00000000-0000-0000-0000-000000000000");
    assert_eq!(HyperDirLayout::with_base("fs1/").dir_key(&Uuid::nil()),
               "fs1/DIR/00000000-0000-0000-0000-000000000000");
    assert_eq!(HyperDirLayout::with_base("").dir_key(&Uuid::nil()),
               "DIR/00000000-0000-0000-0000-000000000000");
}

#[test]
fn more_slashes_make_no_difference() {
    assert_eq!(HyperDirLayout::with_base("a/b///").dir_prefix(), "a/b/DIR/");
    assert_eq!(HyperDirLayout::with_base("///").dir_prefix(), "DIR/");
    assert_eq!(HyperDirLayout::default().file_prefix(), "FILE/");
}

#[test]
fn keys_of_children_and_intents() {
    let l = HyperDirLayout::with_base("fs");
    let u = Uuid::from_u128(0xa1a2a3a4b1b2c1c2d1d2d3d4d5d6d7d8);
    assert_eq!(l.file_key(&u), "fs/FILE/a1a2a3a4-b1b2-c1c2-d1d2-d3d4d5d6d7d8");
    assert_eq!(l.file_uri("bkt", &u), "s3://bkt/fs/FILE/a1a2a3a4-b1b2-c1c2-d1d2-d3d4d5d6d7d8");
    assert_eq!(l.child_uri("bkt", true, &u), l.dir_uri("bkt", &u));
    assert_eq!(l.key_of(false, &u), l.file_key(&u));
    assert_eq!(l.txn_key("id"), "fs/_TXN/id.intent");
    assert_eq!(l.reclaim_key("id"), "fs/_TXN/id.reclaim");
    assert_eq!(l.txn_prefix(), "fs/_TXN/");
    assert_eq!(l.file_prefix(), "fs/FILE/");
    assert_eq!(l.lock_key(&u, true), "fs/DIR/a1a2a3a4-b1b2-c1c2-d1d2-d3d4d5d6d7d8/_lock");
    assert_eq!(l.lock_key(&u, false), "fs/FILE/a1a2a3a4-b1b2-c1c2-d1d2-d3d4d5d6d7d8/_lock");
    assert_eq!(Uuid::from_u128(ROOT_DIR_UUID), Uuid::nil());
}

#[test]
fn keys_of_attributes() {
    let l = HyperDirLayout::new();
    let u = Uuid::nil();
    let prefix = l.xattr_prefix(&u, false);
    assert_eq!(prefix, "FILE/00000000-0000-0000-0000-000000000000/_xattr/");
    // ">>>?" has symbols in which the URL-safe alphabet differs
    assert_eq!(l.xattr_key(&u, false, "user.>>>?"), format!("{}dXNlci4-Pj4_", prefix));
    let keys = vec![
        l.xattr_key(&u, false, "user.a"),
        prefix.clone(),
        "elsewhere/dXNlcg".to_string(),
        format!("{}!!", prefix),
        l.xattr_key(&u, false, "user.\u{6587}"),
    ];
    assert_eq!(xattr_names(&prefix, &keys), vec!["user.a".to_string(), "user.\u{6587}".to_string()]);
}

#[test]
fn namespace_listing_keeps_uuids() {
    let a = Uuid::from_u128(1);
    let b = Uuid::from_u128(u128::MAX);
    let commons = vec![
        format!("fs/DIR/{}/", a.to_text()),
        "fs/DIR/not-a-uuid/".to_string(),
        format!("fs/DIR/{}", b.to_text()),
        "fs/DIR/".to_string(),
    ];
    assert_eq!(namespace_uuids("fs/DIR/", &commons), vec![a, b]);
}

#[test]
fn keys_tell_children_apart() {
    let l = HyperDirLayout::with_base("x");
    let a = Uuid::from_u128(7);
    let b = Uuid::from_u128(8);
    assert_ne!(l.dir_key(&a), l.dir_key(&b));
    assert_ne!(l.dir_key(&a), l.file_key(&a));
    assert_eq!(a.to_text(), "00000000-0000-0000-0000-000000000007");
    assert_eq!(Uuid::parse_str("00000000-0000-0000-0000-000000000007"), Some(a));
    assert_eq!(Uuid::parse_str("00000000000000000000000000000007"), Some(a));
    assert_eq!(Uuid::parse_str("nonsense"), None);
    assert_eq!(a.as_u128(), 7);
}

#[test]
fn directory_keys_tell_the_layout() {
    let u = Uuid::from_u128(12);
    for base in ["", "fs1", "a/b/"] {
        let l = HyperDirLayout::with_base(base);
        let back = HyperDirLayout::of_dir_key(&l.dir_key(&u)).unwrap();
        assert_eq!(back.file_key(&u), l.file_key(&u));
        assert!(HyperDirLayout::of_dir_key(&l.file_key(&u)).is_none());
    }
    assert!(HyperDirLayout::of_dir_key("DIR/short").is_none());
    assert!(HyperDirLayout::of_dir_key(&format!("xDIR/{}", u.to_text())).is_none());
}

#[test]
fn sidecars_live_under_the_child() {
    let l = HyperDirLayout::with_base("b");
    let u = Uuid::from_u128(3);
    for is_dir in [true, false] {
        let prefix = format!("{}/", l.key_of(is_dir, &u));
        assert!(l.lock_key(&u, is_dir).starts_with(&prefix));
        assert!(l.xattr_key(&u, is_dir, "user.x").starts_with(&prefix));
    }
}

#[test]
fn what_stands_behind_a_prefix() {
    assert_eq!(xattr_segment("p/", "p/x"), Some("x".to_string()));
    assert_eq!(xattr_segment("p/", "p/"), None);
    assert_eq!(xattr_segment("p/", "q/x"), None);
    assert_eq!(xattr_text(Some(b"user.a".to_vec())), Some("user.a".to_string()));
    assert_eq!(xattr_text(Some(vec![0xff])), None);
    assert_eq!(xattr_text(None), None);
    assert_eq!(namespace_segment("DIR/", "DIR/abc/"), "abc");
    assert_eq!(namespace_segment("DIR/", "abc//"), "abc");
    assert_eq!(namespace_segment("DIR/", "DIR/"), "");
}
