//! Physical layout of directories and files in the object store.
//!
//! Every directory and every file is stored under a UUID-named prefix, with
//! directories and files segregated into two top-level namespaces:
//!
//! ```text
//! s3://<bucket>/[<base>]DIR/<uuid>/      a directory's hyperfile
//! s3://<bucket>/[<base>]FILE/<uuid>/     a file's hyperfile
//! ```
//!
//! The root directory is the directory whose UUID is the nil UUID
//! ([`ROOT_DIR_UUID`]), i.e. `.../DIR/00000000-0000-0000-0000-000000000000/`.
//!
//! Because identity is a UUID rather than a path, a rename never moves any
//! object: only the name->uuid mapping held in the parent directory changes.
//! A child's prefix carries no information about its parent, so the parent
//! must always be supplied explicitly.
//!
//! `base` is an opaque prefix placed before `DIR/` and `FILE/`. It is empty by
//! default. A higher layer may set it to keep several independent trees in one
//! bucket.
use vstd::prelude::*;
use vstd::utf8::{decode_utf8, encode_utf8, valid_utf8};
use crate::bytes::opt_bytes;
use crate::ident::{lemma_uuid_text, lemma_uuid_text_injective, uuid_text, Uuid};
use crate::lock::LOCK_OBJECT;
use crate::outside::{
    decode_url, encode_url, url_base64, url_base64_decoded, utf8_text, uuid_parsed,
};
use crate::text::{
    chars_from, chars_of, chars_upto, has_prefix, push_text, same_text, starts_with, string_of, string_views,
};

verus! {

/// The bits of the UUID of the root directory. The root has no parent and
/// therefore no scatter notification path.
pub const ROOT_DIR_UUID: u128 = 0;

/// Builds the keys and URIs for directories and files in a single tree.
#[derive(Debug, Clone)]
pub struct HyperDirLayout {
    /// Opaque prefix prepended to every key, either empty or ending with a
    /// single `/`.
    base: String,
}

/// `s` without the slashes at its end.
pub open spec fn without_slashes(s: Seq<char>) -> Seq<char>
    decreases s.len(),
{
    if s.len() > 0 && s.last() == '/' {
        without_slashes(s.drop_last())
    } else {
        s
    }
}

/// A prefix as it is prepended to keys.
pub open spec fn normal_base(base: Seq<char>) -> Seq<char> {
    let t = without_slashes(base);
    if t.len() == 0 {
        t
    } else {
        t.push('/')
    }
}

/// The number of characters before the slashes at the end of `s`.
fn trimmed_len(s: &[char]) -> (r: usize)
    ensures
        r <= s.len(),
        s@.take(r as int) == without_slashes(s@),
{
    let mut n: usize = s.len();
    assert(s@.take(n as int) =~= s@);
    while n > 0 && s[n - 1] == '/'
        invariant
            n <= s.len(),
            without_slashes(s@.take(n as int)) == without_slashes(s@),
        decreases n,
    {
        assert(s@.take(n as int).drop_last() =~= s@.take(n - 1));
        n -= 1;
    }
    n
}

impl View for HyperDirLayout {
    type V = Seq<char>;

    closed spec fn view(&self) -> Seq<char> {
        self.base@
    }
}

impl Default for HyperDirLayout {
    /// Layout rooted directly at the bucket.
    fn default() -> (r: HyperDirLayout)
        ensures
            r@ == Seq::<char>::empty(),
    {
        let r: HyperDirLayout = HyperDirLayout { base: String::new() };
        assert(r@ =~= Seq::<char>::empty());
        r
    }
}

/// Key of a child's prefix under a base.
pub open spec fn child_key(base: Seq<char>, is_dir: bool, uuid: Uuid) -> Seq<char> {
    base + (if is_dir {
        "DIR/"@
    } else {
        "FILE/"@
    }) + uuid_text(uuid.bits)
}

/// The base under which a directory has the given key: what is before the
/// namespace and the 36 characters of the UUID.
pub open spec fn base_of_dir(key: Seq<char>) -> Option<Seq<char>> {
    let n = key.len() - 40;
    if n >= 0 && key.subrange(n, n + 4) == "DIR/"@ && (n > 0 ==> key[n - 1] == '/') {
        Some(key.take(n))
    } else {
        None
    }
}

/// URI of a key.
pub open spec fn uri_of(bucket: Seq<char>, key: Seq<char>) -> Seq<char> {
    "s3://"@ + bucket + "/"@ + key
}

/// LIST prefix of a child's extended attributes.
pub open spec fn xattr_dir(base: Seq<char>, is_dir: bool, uuid: Uuid) -> Seq<char> {
    child_key(base, is_dir, uuid) + "/_xattr/"@
}

impl HyperDirLayout {
    /// Layout rooted directly at the bucket: keys are `DIR/<uuid>` etc.
    pub fn new() -> (r: HyperDirLayout)
        ensures
            r@ == Seq::<char>::empty(),
    {
        HyperDirLayout::default()
    }

    /// Layout under an opaque prefix. A trailing `/` is added if missing; an
    /// empty `base` is equivalent to [`HyperDirLayout::new`].
    pub fn with_base(base: &str) -> (r: HyperDirLayout)
        ensures
            r@ == normal_base(base@),
    {
        let cs: Vec<char> = chars_of(base);
        let n: usize = trimmed_len(cs.as_slice());
        let mut b: String = string_of(chars_upto(cs.as_slice(), n).as_slice());
        if n > 0 {
            b.push('/');
        }
        HyperDirLayout { base: b }
    }

    /// The layout in which a directory has the given key; `None` where the
    /// key is not that of a directory.
    pub fn of_dir_key(key: &str) -> (r: Option<HyperDirLayout>)
        ensures
            match base_of_dir(key@) {
                Some(base) => r matches Some(l) && l@ == base,
                None => r is None,
            },
    {
        let cs: Vec<char> = chars_of(key);
        if cs.len() < 40 {
            return None;
        }
        let n: usize = cs.len() - 40;
        let namespace: Vec<char> = chars_upto(chars_from(cs.as_slice(), n).as_slice(), 4);
        assert(namespace@ =~= key@.subrange(n as int, n + 4));
        if !same_text(string_of(namespace.as_slice()).as_str(), "DIR/") {
            return None;
        }
        if n > 0 && cs[n - 1] != '/' {
            return None;
        }
        Some(HyperDirLayout { base: string_of(chars_upto(cs.as_slice(), n).as_slice()) })
    }

    /// `base`, then a namespace and what is in it.
    fn under(&self, namespace: &str, rest: &str) -> (r: String)
        ensures
            r@ == self@ + namespace@ + rest@,
    {
        let mut key: String = self.base.clone();
        push_text(&mut key, namespace);
        push_text(&mut key, rest);
        key
    }

    /// Key (no bucket, no scheme) of a child's prefix.
    pub fn key_of(&self, is_dir: bool, uuid: &Uuid) -> (r: String)
        ensures
            r@ == child_key(self@, is_dir, *uuid),
    {
        let id: String = uuid.to_text();
        if is_dir {
            self.under("DIR/", id.as_str())
        } else {
            self.under("FILE/", id.as_str())
        }
    }

    /// Key (no bucket, no scheme) of a directory's prefix.
    pub fn dir_key(&self, uuid: &Uuid) -> (r: String)
        ensures
            r@ == child_key(self@, true, *uuid),
    {
        self.key_of(true, uuid)
    }

    /// Key (no bucket, no scheme) of a file's prefix.
    pub fn file_key(&self, uuid: &Uuid) -> (r: String)
        ensures
            r@ == child_key(self@, false, *uuid),
    {
        self.key_of(false, uuid)
    }

    /// Full `s3://` URI of a child's prefix.
    pub fn child_uri(&self, bucket: &str, is_dir: bool, uuid: &Uuid) -> (r: String)
        ensures
            r@ == uri_of(bucket@, child_key(self@, is_dir, *uuid)),
    {
        let key: String = self.key_of(is_dir, uuid);
        let mut uri: String = "s3://".to_string();
        push_text(&mut uri, bucket);
        push_text(&mut uri, "/");
        push_text(&mut uri, key.as_str());
        uri
    }

    /// Full `s3://` URI of a directory's prefix.
    pub fn dir_uri(&self, bucket: &str, uuid: &Uuid) -> (r: String)
        ensures
            r@ == uri_of(bucket@, child_key(self@, true, *uuid)),
    {
        self.child_uri(bucket, true, uuid)
    }

    /// Full `s3://` URI of a file's prefix.
    pub fn file_uri(&self, bucket: &str, uuid: &Uuid) -> (r: String)
        ensures
            r@ == uri_of(bucket@, child_key(self@, false, *uuid)),
    {
        self.child_uri(bucket, false, uuid)
    }

    /// Full `s3://` URI of the root directory's prefix.
    pub fn root_dir_uri(&self, bucket: &str) -> (r: String)
        ensures
            r@ == uri_of(bucket@, child_key(self@, true, Uuid { bits: ROOT_DIR_UUID })),
    {
        self.dir_uri(bucket, &Uuid::from_u128(ROOT_DIR_UUID))
    }

    /// Key of a cross-directory rename intent object, identified by `txn_id`.
    pub fn txn_key(&self, txn_id: &str) -> (r: String)
        ensures
            r@ == self@ + "_TXN/"@ + txn_id@ + ".intent"@,
    {
        let mut key: String = self.under("_TXN/", txn_id);
        push_text(&mut key, ".intent");
        key
    }

    /// Key of a displaced-child reclaim intent object (rename replace-over-
    /// existing), identified by `txn_id`.
    pub fn reclaim_key(&self, txn_id: &str) -> (r: String)
        ensures
            r@ == self@ + "_TXN/"@ + txn_id@ + ".reclaim"@,
    {
        let mut key: String = self.under("_TXN/", txn_id);
        push_text(&mut key, ".reclaim");
        key
    }

    /// LIST prefix covering all rename intent objects.
    pub fn txn_prefix(&self) -> (r: String)
        ensures
            r@ == self@ + "_TXN/"@,
    {
        let mut key: String = self.base.clone();
        push_text(&mut key, "_TXN/");
        key
    }

    /// LIST prefix covering every directory's prefix (use with delimiter `/`
    /// to enumerate `DIR/<uuid>/` common prefixes).
    pub fn dir_prefix(&self) -> (r: String)
        ensures
            r@ == self@ + "DIR/"@,
    {
        let mut key: String = self.base.clone();
        push_text(&mut key, "DIR/");
        key
    }

    /// LIST prefix covering every file's prefix (use with delimiter `/`
    /// to enumerate `FILE/<uuid>/` common prefixes).
    pub fn file_prefix(&self) -> (r: String)
        ensures
            r@ == self@ + "FILE/"@,
    {
        let mut key: String = self.base.clone();
        push_text(&mut key, "FILE/");
        key
    }

    /// Key of a child's lock-table object.
    pub fn lock_key(&self, uuid: &Uuid, is_dir: bool) -> (r: String)
        ensures
            r@ == child_key(self@, is_dir, *uuid) + "/"@ + LOCK_OBJECT@,
    {
        let mut key: String = self.key_of(is_dir, uuid);
        push_text(&mut key, "/");
        push_text(&mut key, LOCK_OBJECT);
        key
    }

    /// LIST prefix covering a child's extended-attribute sidecar objects.
    pub fn xattr_prefix(&self, uuid: &Uuid, is_dir: bool) -> (r: String)
        ensures
            r@ == xattr_dir(self@, is_dir, *uuid),
    {
        let mut key: String = self.key_of(is_dir, uuid);
        push_text(&mut key, "/_xattr/");
        key
    }

    /// Key of one extended-attribute sidecar object under the child's prefix.
    /// It tells the attribute's name.
    pub fn xattr_key(&self, uuid: &Uuid, is_dir: bool, name: &str) -> (r: String)
        ensures
            r@ == xattr_dir(self@, is_dir, *uuid) + url_base64(encode_utf8(name@)),
            name@.len() > 0 ==> xattr_name_of(xattr_dir(self@, is_dir, *uuid), r@) == Some(name@),
    {
        let mut key: String = self.xattr_prefix(uuid, is_dir);
        let ghost prefix = key@;
        let seg: String = encode_url(name.as_bytes());
        push_text(&mut key, seg.as_str());
        proof {
            if name@.len() > 0 {
                vstd::utf8::encode_utf8_valid_utf8(name@);
                vstd::utf8::encode_utf8_decode_utf8(name@);
                assert(key@.take(prefix.len() as int) =~= prefix);
                assert(key@.skip(prefix.len() as int) =~= seg@);
                vstd::utf8::encode_utf8_first_scalar(name@);
                assert(encode_utf8(name@).len() > 0);
            }
        }
        key
    }
}

/// What stands behind the prefix in the key of a sidecar object.
pub open spec fn behind_prefix(prefix: Seq<char>, key: Seq<char>) -> Option<Seq<char>> {
    if starts_with(key, prefix) && key.len() > prefix.len() {
        Some(key.skip(prefix.len() as int))
    } else {
        None
    }
}

/// The text that decoded bytes are, where they are text.
pub open spec fn text_in(decoded: Option<Seq<u8>>) -> Option<Seq<char>> {
    match decoded {
        Some(b) => if valid_utf8(b) {
            Some(decode_utf8(b))
        } else {
            None
        },
        None => None,
    }
}

/// The attribute name that the key of a sidecar object tells: the base64 text
/// behind the prefix.
pub open spec fn xattr_name_of(prefix: Seq<char>, key: Seq<char>) -> Option<Seq<char>> {
    match behind_prefix(prefix, key) {
        Some(seg) => text_in(url_base64_decoded(seg)),
        None => None,
    }
}

/// The attribute names that some keys tell, in order.
pub open spec fn xattr_names_of(prefix: Seq<char>, keys: Seq<Seq<char>>) -> Seq<Seq<char>>
    decreases keys.len(),
{
    if keys.len() == 0 {
        seq![]
    } else {
        let before = xattr_names_of(prefix, keys.drop_last());
        match xattr_name_of(prefix, keys.last()) {
            Some(n) => before.push(n),
            None => before,
        }
    }
}

/// What stands behind the prefix in the key of a sidecar object.
pub fn xattr_segment(prefix: &str, key: &str) -> (r: Option<String>)
    ensures
        match behind_prefix(prefix@, key@) {
            Some(seg) => r matches Some(s) && s@ == seg,
            None => r is None,
        },
{
    let cs: Vec<char> = chars_of(key);
    let n: usize = chars_of(prefix).len();
    if !has_prefix(cs.as_slice(), prefix) || cs.len() == n {
        None
    } else {
        Some(string_of(chars_from(cs.as_slice(), n).as_slice()))
    }
}

/// The attribute name that decoded bytes are; `None` where they are malformed
/// or no text.
pub fn xattr_text(decoded: Option<Vec<u8>>) -> (r: Option<String>)
    ensures
        match text_in(opt_bytes(decoded)) {
            Some(n) => r matches Some(s) && s@ == n,
            None => r is None,
        },
{
    match decoded {
        Some(b) => utf8_text(b),
        None => None,
    }
}

/// The attribute name that the key of a sidecar object tells.
fn xattr_name(prefix: &str, key: &str) -> (r: Option<String>)
    ensures
        match xattr_name_of(prefix@, key@) {
            Some(n) => r matches Some(s) && s@ == n,
            None => r is None,
        },
{
    match xattr_segment(prefix, key) {
        Some(seg) => xattr_text(decode_url(seg.as_str())),
        None => None,
    }
}

/// The names of the attributes whose sidecar objects have the given keys. Keys
/// that are not those of sidecar objects are passed over.
pub fn xattr_names(prefix: &str, keys: &Vec<String>) -> (r: Vec<String>)
    ensures
        string_views(r@) == xattr_names_of(prefix@, string_views(keys@)),
{
    let ghost all = string_views(keys@);
    let mut out: Vec<String> = Vec::new();
    assert(string_views(out@) =~= xattr_names_of(prefix@, all.take(0)));
    for i in 0..keys.len()
        invariant
            all == string_views(keys@),
            string_views(out@) == xattr_names_of(prefix@, all.take(i as int)),
    {
        let ghost now = string_views(out@);
        assert(all.take(i + 1).drop_last() =~= all.take(i as int));
        assert(all.take(i + 1).last() == keys@[i as int]@);
        match xattr_name(prefix, keys[i].as_str()) {
            Some(s) => {
                out.push(s);
                assert(string_views(out@) =~= now.push(s@));
            },
            None => {},
        }
    }
    assert(all.take(all.len() as int) =~= all);
    out
}

/// What is behind the listed prefix in a common prefix of a listing, without
/// slashes at its end.
pub open spec fn child_text(prefix: Seq<char>, p: Seq<char>) -> Seq<char> {
    without_slashes(
        if starts_with(p, prefix) {
            p.skip(prefix.len() as int)
        } else {
            p
        },
    )
}

pub fn namespace_segment(prefix: &str, common: &str) -> (r: String)
    ensures
        r@ == child_text(prefix@, common@),
{
    let cs: Vec<char> = chars_of(common);
    let rest: Vec<char> = if has_prefix(cs.as_slice(), prefix) {
        chars_from(cs.as_slice(), chars_of(prefix).len())
    } else {
        cs
    };
    let len: usize = trimmed_len(rest.as_slice());
    string_of(chars_upto(rest.as_slice(), len).as_slice())
}

/// The child that a common prefix of a listing stands for, where what it tells
/// is a UUID.
pub open spec fn child_of(prefix: Seq<char>, p: Seq<char>) -> Option<u128> {
    uuid_parsed(child_text(prefix, p))
}

/// The children that some common prefixes stand for, in order.
pub open spec fn children_of(prefix: Seq<char>, ps: Seq<Seq<char>>) -> Seq<Uuid>
    decreases ps.len(),
{
    if ps.len() == 0 {
        seq![]
    } else {
        let before = children_of(prefix, ps.drop_last());
        match child_of(prefix, ps.last()) {
            Some(bits) => before.push(Uuid { bits }),
            None => before,
        }
    }
}

/// The children in a namespace, given the common prefixes that a listing of it
/// with a `/` delimiter gives. What is not a UUID is passed over.
pub fn namespace_uuids(prefix: &str, commons: &Vec<String>) -> (r: Vec<Uuid>)
    ensures
        r@ == children_of(prefix@, string_views(commons@)),
{
    let ghost all = string_views(commons@);
    let mut out: Vec<Uuid> = Vec::new();
    for i in 0..commons.len()
        invariant
            all == string_views(commons@),
            out@ == children_of(prefix@, all.take(i as int)),
    {
        assert(all.take(i + 1).drop_last() =~= all.take(i as int));
        assert(all.take(i + 1).last() == commons@[i as int]@);
        match Uuid::parse_str(namespace_segment(prefix, commons[i].as_str()).as_str()) {
            Some(u) => {
                out.push(u);
            },
            None => {},
        }
    }
    assert(all.take(all.len() as int) =~= all);
    out
}

// ---------------------------------------------------------------------------
// Laws
// ---------------------------------------------------------------------------

/// A base means the same with and without slashes at its end, and an empty one
/// is no base.
pub proof fn law_base_is_normalized(base: Seq<char>)
    ensures
        normal_base(base.push('/')) == normal_base(base),
        normal_base(Seq::<char>::empty()) == Seq::<char>::empty(),
        normal_base(base).len() > 0 ==> normal_base(base).last() == '/' && normal_base(normal_base(base))
            == normal_base(base),
{
    assert(base.push('/').drop_last() =~= base);
    lemma_without_slashes(base);
    let t = without_slashes(base);
    assert(t.push('/').drop_last() =~= t);
}

proof fn lemma_without_slashes(s: Seq<char>)
    ensures
        without_slashes(without_slashes(s)) == without_slashes(s),
    decreases s.len(),
{
    if s.len() > 0 && s.last() == '/' {
        lemma_without_slashes(s.drop_last());
    }
}

/// A child's lock table and extended attributes live under the child's own
/// prefix, so they go when the prefix does.
pub proof fn law_sidecars_live_under_the_child(base: Seq<char>, is_dir: bool, uuid: Uuid, name: Seq<char>)
    ensures
        starts_with(child_key(base, is_dir, uuid) + "/"@ + LOCK_OBJECT@, child_key(base, is_dir, uuid) + "/"@),
        starts_with(
            xattr_dir(base, is_dir, uuid) + url_base64(encode_utf8(name)),
            child_key(base, is_dir, uuid) + "/"@,
        ),
{
    reveal_strlit("/");
    reveal_strlit("/_xattr/");
    let p = child_key(base, is_dir, uuid) + "/"@;
    let a = p + LOCK_OBJECT@;
    let b = xattr_dir(base, is_dir, uuid) + url_base64(encode_utf8(name));
    assert(a.take(p.len() as int) =~= p);
    assert(b.take(p.len() as int) =~= p);
}

/// A directory's key tells the base of its layout.
pub proof fn law_directory_key_tells_the_base(base: Seq<char>, uuid: Uuid)
    ensures
        base_of_dir(child_key(normal_base(base), true, uuid)) == Some(normal_base(base)),
{
    reveal_strlit("DIR/");
    law_base_is_normalized(base);
    lemma_uuid_text(uuid.bits);
    let b = normal_base(base);
    let key = child_key(b, true, uuid);
    let n = key.len() - 40;
    assert(key.subrange(n, n + 4) =~= "DIR/"@);
    assert(key.take(n) =~= b);
}

/// Under one base no two children share a key: the key tells the namespace and
/// the UUID.
pub proof fn law_keys_tell_children_apart(base: Seq<char>, a_is_dir: bool, a: Uuid, b_is_dir: bool, b: Uuid)
    requires
        child_key(base, a_is_dir, a) == child_key(base, b_is_dir, b),
    ensures
        a_is_dir == b_is_dir,
        a == b,
{
    reveal_strlit("DIR/");
    reveal_strlit("FILE/");
    lemma_uuid_text(a.bits);
    lemma_uuid_text(b.bits);
    let x = child_key(base, a_is_dir, a);
    let y = child_key(base, b_is_dir, b);
    assert(x.len() == base.len() + if a_is_dir {
        40int
    } else {
        41int
    });
    assert(y.len() == base.len() + if b_is_dir {
        40int
    } else {
        41int
    });
    let n = base.len() + if a_is_dir {
        4int
    } else {
        5int
    };
    assert(x.skip(n) =~= uuid_text(a.bits));
    assert(y.skip(n) =~= uuid_text(b.bits));
    lemma_uuid_text_injective(a.bits, b.bits);
}

/// Slashes at the end of a text go, and nothing else does. A base that is not
/// made of slashes alone gets one slash at its end.
pub proof fn law_slashes_at_the_end(s: Seq<char>)
    ensures
        without_slashes(s.push('/')) == without_slashes(s),
        s.len() == 0 || s.last() != '/' ==> without_slashes(s) == s,
        s.len() > 0 && s.last() != '/' ==> normal_base(s) == s.push('/'),
        normal_base(s.push('/')) == normal_base(s),
        normal_base(Seq::<char>::empty()) == Seq::<char>::empty(),
{
    assert(s.push('/').drop_last() =~= s);
}

/// The keys of children: directories and files have a namespace each, and in it
/// their UUID.
pub proof fn law_keys_of_children(base: Seq<char>, uuid: Uuid, bucket: Seq<char>, key: Seq<char>)
    ensures
        child_key(base, true, uuid) == base + "DIR/"@ + uuid_text(uuid.bits),
        child_key(base, false, uuid) == base + "FILE/"@ + uuid_text(uuid.bits),
        uri_of(bucket, key) == "s3://"@ + bucket + "/"@ + key,
        xattr_dir(base, true, uuid) == base + "DIR/"@ + uuid_text(uuid.bits) + "/_xattr/"@,
        xattr_dir(base, false, uuid) == base + "FILE/"@ + uuid_text(uuid.bits) + "/_xattr/"@,
{
}

/// A key is that of a directory exactly where it is a base, the namespace of
/// directories and 36 characters, and the base is empty or ends with a slash;
/// then it tells the base.
pub proof fn law_which_keys_are_of_directories(key: Seq<char>, base: Seq<char>, id: Seq<char>)
    ensures
        base_of_dir(key) matches Some(b) ==> {
            &&& key.len() == b.len() + 40
            &&& key.take(b.len() as int + 4) == b + "DIR/"@
            &&& b.len() == 0 || b.last() == '/'
        },
        id.len() == 36 && key == base + "DIR/"@ + id && (base.len() == 0 || base.last() == '/') ==> base_of_dir(key)
            == Some(base),
{
    reveal_strlit("DIR/");
    let n = key.len() - 40;
    if base_of_dir(key) is Some {
        let b = base_of_dir(key).unwrap();
        assert(b.len() == n);
        assert(key.subrange(n, n + 4) =~= "DIR/"@);
        assert forall|i: int| 0 <= i < n + 4 implies key.take(n + 4)[i] == (b + "DIR/"@)[i] by {
            if i >= n {
                assert(key.subrange(n, n + 4)[i - n] == "DIR/"@[i - n]);
            }
        }
        assert(key.take(n + 4) =~= b + "DIR/"@);
        if n > 0 {
            assert(b.last() == key[n - 1]);
        }
    }
    if id.len() == 36 && key == base + "DIR/"@ + id {
        assert(key.subrange(n, n + 4) =~= "DIR/"@);
        assert(key.take(n) =~= base);
        if n > 0 {
            assert(key[n - 1] == base.last());
        }
    }
}

/// What stands behind a prefix is what was put there, where it is something;
/// a text that does not begin with the prefix has nothing behind it.
pub proof fn law_what_stands_behind_a_prefix(prefix: Seq<char>, rest: Seq<char>, key: Seq<char>)
    ensures
        rest.len() > 0 ==> behind_prefix(prefix, prefix + rest) == Some(rest),
        behind_prefix(prefix, prefix) is None,
        behind_prefix(prefix, key) matches Some(r) ==> key == prefix + r && r.len() > 0,
{
    assert((prefix + rest).take(prefix.len() as int) =~= prefix);
    assert((prefix + rest).skip(prefix.len() as int) =~= rest);
    if behind_prefix(prefix, key) is Some {
        assert(key =~= prefix + key.skip(prefix.len() as int));
    }
}

/// Decoded bytes are a text where they are one.
pub proof fn law_decoded_texts(b: Seq<u8>)
    ensures
        valid_utf8(b) ==> text_in(Some(b)) == Some(decode_utf8(b)),
        !valid_utf8(b) ==> text_in(Some(b)) is None,
        text_in(None) is None,
{
}

/// The keys of sidecar objects are gone through one by one: each that tells an
/// attribute's name adds it, any other is passed over. A key tells a name where
/// what stands behind the prefix is base64 of a text.
pub proof fn law_attribute_names_key_by_key(prefix: Seq<char>, keys: Seq<Seq<char>>, key: Seq<char>, seg: Seq<char>)
    requires
        seg.len() > 0,
    ensures
        xattr_names_of(prefix, Seq::<Seq<char>>::empty()) == Seq::<Seq<char>>::empty(),
        xattr_names_of(prefix, keys.push(prefix + seg)) == match url_base64_decoded(seg) {
            Some(b) => if valid_utf8(b) {
                xattr_names_of(prefix, keys).push(decode_utf8(b))
            } else {
                xattr_names_of(prefix, keys)
            },
            None => xattr_names_of(prefix, keys),
        },
        !starts_with(key, prefix) || key == prefix ==> xattr_names_of(prefix, keys.push(key)) == xattr_names_of(
            prefix,
            keys,
        ),
{
    assert(keys.push(prefix + seg).drop_last() =~= keys);
    assert(keys.push(key).drop_last() =~= keys);
    law_what_stands_behind_a_prefix(prefix, seg, key);
}

/// The common prefixes of a listing are gone through one by one: each whose part
/// behind the listed prefix, without slashes at its end, is a UUID adds that
/// child, any other is passed over.
pub proof fn law_children_prefix_by_prefix(prefix: Seq<char>, ps: Seq<Seq<char>>, rest: Seq<char>, p: Seq<char>)
    ensures
        children_of(prefix, Seq::<Seq<char>>::empty()) == Seq::<Uuid>::empty(),
        children_of(prefix, ps.push(prefix + rest)) == match uuid_parsed(without_slashes(rest)) {
            Some(bits) => children_of(prefix, ps).push(Uuid { bits }),
            None => children_of(prefix, ps),
        },
        !starts_with(p, prefix) ==> children_of(prefix, ps.push(p)) == match uuid_parsed(without_slashes(p)) {
            Some(bits) => children_of(prefix, ps).push(Uuid { bits }),
            None => children_of(prefix, ps),
        },
        child_text(prefix, prefix + rest) == without_slashes(rest),
        !starts_with(p, prefix) ==> child_text(prefix, p) == without_slashes(p),
{
    assert(ps.push(prefix + rest).drop_last() =~= ps);
    assert(ps.push(p).drop_last() =~= ps);
    assert((prefix + rest).take(prefix.len() as int) =~= prefix);
    assert((prefix + rest).skip(prefix.len() as int) =~= rest);
}

} // verus!
