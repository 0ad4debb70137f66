//! Scatter objects: one small object per change of a directory, named so that
//! a listing alone tells what changed.
//!
//! ```text
//! <parent>/!/{base64(name)}/{ulid}_{uuid}_{op}.inode       Create / Update / PreDelete
//! <parent>/!/{base64(name)}/{ulid}_{uuid}_{op}.tombstone   Delete
//! ```
//!
//! The name stands in a path segment of its own, so that the changes of one
//! name can be listed by prefix. The ULID orders the changes of a name. The
//! base64 alphabet has no `_` and no `/`, and a UUID is hyphenated, so `_` is
//! an unambiguous separator.
use vstd::hash_map::StringHashMap;
use vstd::prelude::*;
use vstd::utf8::{decode_utf8, encode_utf8, valid_utf8};
use crate::bytes::opt_bytes;
use crate::ident::{key_char, key_text, lemma_ulid_text, lemma_uuid_text, ulid_text, uuid_text, Ulid, Uuid};
use crate::outside::{
    decode_name, encode_name, is_alphabet, name_base64, name_base64_decoded, ulid_parsed, utf8_text, uuid_parsed,
};
use crate::text::{
    chars_of, chars_upto, decimal, ends_with, has_suffix, is_digit, lemma_decimal, lemma_parse_decimal,
    lemma_split_first, lemma_split_none, no_char, parse_nat, parse_u64, push_text, push_u64, split, split_on,
    string_of, texts,
};

verus! {

/// Path segment, under a directory's prefix, that holds its scatter objects.
pub const DEFAULT_DIR_INODE_SCATTER_FOLDER: &'static str = "!";

/// Suffix of a live (Create/Update) inode scatter object.
pub const DEFAULT_DIR_INODE_SUFFIX: &'static str = ".inode";

/// Suffix of a tombstone (Delete) scatter object.
pub const DEFAULT_DIR_TOMBSTONE_SUFFIX: &'static str = ".tombstone";

/// The base64 alphabet of file names in object keys: no `_`, `/`, `!` or `.`.
pub const NAME_ALPHABET: &'static str = "*-ABCDEFGHIJKLMNOPQRSTUVWXYZabcdefghijklmnopqrstuvwxyz0123456789";

/// What a scatter object says happened to a name.
#[derive(Clone, Copy, Debug, PartialEq, Eq, Structural)]
pub enum DirScatterInodeOp {
    /// The name was created (1).
    Create,
    /// The child's inode changed (2).
    Update,
    /// The name was unlinked; the first phase of a delete (3).
    PreDelete,
    /// The name was removed from the index; the second phase of a delete (4).
    Delete,
    /// Any other number.
    Unknown,
}

impl DirScatterInodeOp {
    /// The number that stands for the op in an object key.
    pub open spec fn code(self) -> u8 {
        match self {
            DirScatterInodeOp::Create => 1,
            DirScatterInodeOp::Update => 2,
            DirScatterInodeOp::PreDelete => 3,
            DirScatterInodeOp::Delete => 4,
            DirScatterInodeOp::Unknown => 255,
        }
    }

    /// The op that a number stands for.
    pub open spec fn of_code(n: u8) -> DirScatterInodeOp {
        if n == 1 {
            DirScatterInodeOp::Create
        } else if n == 2 {
            DirScatterInodeOp::Update
        } else if n == 3 {
            DirScatterInodeOp::PreDelete
        } else if n == 4 {
            DirScatterInodeOp::Delete
        } else {
            DirScatterInodeOp::Unknown
        }
    }

    /// The op that a number stands for.
    pub fn from_u8(n: u8) -> (r: DirScatterInodeOp)
        ensures
            r == DirScatterInodeOp::of_code(n),
    {
        match n {
            1 => DirScatterInodeOp::Create,
            2 => DirScatterInodeOp::Update,
            3 => DirScatterInodeOp::PreDelete,
            4 => DirScatterInodeOp::Delete,
            _ => DirScatterInodeOp::Unknown,
        }
    }

    /// The number that stands for the op in an object key.
    pub fn as_u8(self) -> (r: u8)
        ensures
            r == self.code(),
            DirScatterInodeOp::of_code(r) == self,
    {
        match self {
            DirScatterInodeOp::Create => 1,
            DirScatterInodeOp::Update => 2,
            DirScatterInodeOp::PreDelete => 3,
            DirScatterInodeOp::Delete => 4,
            DirScatterInodeOp::Unknown => 255,
        }
    }
}

/// A scatter object, as its key tells it. `last_modified` is the store's time
/// of the object, in nanoseconds since the Unix epoch.
#[derive(Clone, Debug)]
pub struct DirScatterInode {
    pub key: String,
    pub op: DirScatterInodeOp,
    pub ulid: Ulid,
    pub uuid: Uuid,
    pub filename: String,
    pub last_modified: i128,
}

/// The mathematical value of a [`DirScatterInode`].
pub struct Scatter {
    pub key: Seq<char>,
    pub op: DirScatterInodeOp,
    pub ulid: Ulid,
    pub uuid: Uuid,
    pub filename: Seq<char>,
    pub last_modified: i128,
}

impl View for DirScatterInode {
    type V = Scatter;

    open spec fn view(&self) -> Scatter {
        Scatter {
            key: self.key@,
            op: self.op,
            ulid: self.ulid,
            uuid: self.uuid,
            filename: self.filename@,
            last_modified: self.last_modified,
        }
    }
}

/// The values of several scatter objects.
pub open spec fn scatter_views(v: Seq<DirScatterInode>) -> Seq<Scatter> {
    v.map_values(|s: DirScatterInode| s@)
}

// ---------------------------------------------------------------------------
// Object keys
// ---------------------------------------------------------------------------

/// Suffix of the key of a scatter object whose op has the number `op`.
pub open spec fn suffix_of(op: u8) -> Seq<char> {
    if op == 4 {
        ".tombstone"@
    } else {
        ".inode"@
    }
}

/// A file name as it stands in a key.
pub open spec fn name_segment(filename: Seq<char>) -> Seq<char> {
    name_base64(NAME_ALPHABET@, encode_utf8(filename))
}

/// The key of a scatter object.
pub open spec fn scatter_key(dir: Seq<char>, filename: Seq<char>, ulid: Ulid, uuid: Uuid, op: u8) -> Seq<char> {
    dir + "/!/"@ + name_segment(filename) + "/"@ + ulid_text(ulid.bits) + "_"@ + uuid_text(uuid.bits) + "_"@
        + decimal(op as nat) + suffix_of(op)
}

/// What a key says beside the directory.
pub struct KeyFields {
    pub filename: Seq<char>,
    pub ulid: Ulid,
    pub uuid: Uuid,
    pub op: u8,
}

/// The last segment of a key without its suffix.
pub open spec fn stem_of(last: Seq<char>) -> Option<Seq<char>> {
    if ends_with(last, ".inode"@) {
        Some(last.take(last.len() - 6))
    } else if ends_with(last, ".tombstone"@) {
        Some(last.take(last.len() - 10))
    } else {
        None
    }
}

/// The texts in a key that say something beside the directory.
pub struct KeyParts {
    pub name: Seq<char>,
    pub ulid: Seq<char>,
    pub uuid: Seq<char>,
    pub op: Seq<char>,
}

/// Takes a key apart: one `!`, then a segment with the name and a segment with
/// ULID, UUID and op. What follows the op behind a further `_` is passed over.
pub open spec fn key_parts(key: Seq<char>) -> Option<KeyParts> {
    let halves = split(key, '!');
    if halves.len() != 2 {
        None
    } else {
        let segs = split(halves[1], '/');
        if segs.len() != 3 || segs[0].len() != 0 {
            None
        } else {
            match stem_of(segs[2]) {
                None => None,
                Some(stem) => {
                    let parts = split(stem, '_');
                    if parts.len() < 3 {
                        None
                    } else {
                        Some(KeyParts { name: segs[1], ulid: parts[0], uuid: parts[1], op: parts[2] })
                    }
                },
            }
        }
    }
}

/// What the decoded parts of a key say: something where each is well-formed
/// and the name is text.
pub open spec fn key_fields(
    name: Option<Seq<u8>>,
    ulid: Option<Ulid>,
    uuid: Option<Uuid>,
    op: Option<u8>,
) -> Option<KeyFields> {
    match (name, ulid, uuid, op) {
        (Some(name), Some(ulid), Some(uuid), Some(op)) => if valid_utf8(name) {
            Some(KeyFields { filename: decode_utf8(name), ulid, uuid, op })
        } else {
            None
        },
        _ => None,
    }
}

/// What a key says, where it is the key of a scatter object.
pub open spec fn decode_key(key: Seq<char>) -> Option<KeyFields> {
    match key_parts(key) {
        None => None,
        Some(p) => key_fields(
            name_base64_decoded(NAME_ALPHABET@, p.name),
            match ulid_parsed(p.ulid) {
                Some(bits) => Some(Ulid { bits }),
                None => None,
            },
            match uuid_parsed(p.uuid) {
                Some(bits) => Some(Uuid { bits }),
                None => None,
            },
            match parse_nat(p.op, 255) {
                Some(n) => Some(n as u8),
                None => None,
            },
        ),
    }
}

/// The scatter object that a key and a time stand for.
pub open spec fn scatter_of(key: Seq<char>, f: KeyFields, last_modified: i128) -> Scatter {
    Scatter {
        key,
        op: DirScatterInodeOp::of_code(f.op),
        ulid: f.ulid,
        uuid: f.uuid,
        filename: f.filename,
        last_modified,
    }
}

/// The code point of each symbol of the alphabet.
spec fn symbol_code(i: int) -> int {
    if i == 0 {
        42
    } else if i == 1 {
        45
    } else if i < 28 {
        63 + i
    } else if i < 54 {
        69 + i
    } else {
        i - 6
    }
}

/// The alphabet of file names is an alphabet, and none of its symbols
/// separates anything.
proof fn lemma_name_alphabet()
    ensures
        is_alphabet(NAME_ALPHABET@),
        forall|c: char| #[trigger] NAME_ALPHABET@.contains(c) ==> key_char(c),
{
    reveal_strlit("*-ABCDEFGHIJKLMNOPQRSTUVWXYZabcdefghijklmnopqrstuvwxyz0123456789");
    let a = NAME_ALPHABET@;
    assert(a.len() == 64);
    assert forall|i: int| 0 <= i < 64 implies (#[trigger] a[i]) as u32 == symbol_code(i) by {}
    assert forall|i: int, j: int| 0 <= i < j < 64 implies #[trigger] a[i] != #[trigger] a[j] by {
        assert(a[i] as u32 == symbol_code(i));
        assert(a[j] as u32 == symbol_code(j));
    }
    assert forall|c: char| #[trigger] a.contains(c) implies key_char(c) by {
        let i = choose|i: int| 0 <= i < a.len() && a[i] == c;
        assert(a[i] as u32 == symbol_code(i));
    }
}

proof fn lemma_no_char_of_key_text(s: Seq<char>)
    requires
        key_text(s),
    ensures
        no_char(s, '_'),
        no_char(s, '/'),
        no_char(s, '!'),
{
    assert forall|i: int| 0 <= i < s.len() implies s[i] != '_' && s[i] != '/' && s[i] != '!' by {
        assert(key_char(s[i]));
    }
}

/// A key that was made for a change says what the change was.
proof fn lemma_key_round_trip(dir: Seq<char>, filename: Seq<char>, ulid: Ulid, uuid: Uuid, op: u8)
    requires
        no_char(dir, '!'),
        key_text(name_segment(filename)),
        name_base64_decoded(NAME_ALPHABET@, name_segment(filename)) == Some(encode_utf8(filename)),
        ulid_parsed(ulid_text(ulid.bits)) == Some(ulid.bits),
        uuid_parsed(uuid_text(uuid.bits)) == Some(uuid.bits),
    ensures
        decode_key(scatter_key(dir, filename, ulid, uuid, op)) == Some(KeyFields { filename, ulid, uuid, op }),
{
    reveal_strlit("/!/");
    reveal_strlit("/");
    reveal_strlit("_");
    reveal_strlit(".inode");
    reveal_strlit(".tombstone");
    let name = name_segment(filename);
    let u = ulid_text(ulid.bits);
    let w = uuid_text(uuid.bits);
    let d = decimal(op as nat);
    let suffix = suffix_of(op);
    lemma_ulid_text(ulid.bits);
    lemma_uuid_text(uuid.bits);
    lemma_decimal(op as nat);
    assert(key_text(d)) by {
        assert forall|i: int| 0 <= i < d.len() implies key_char(#[trigger] d[i]) by {
            assert(is_digit(d[i]));
        }
    }
    lemma_no_char_of_key_text(name);
    lemma_no_char_of_key_text(u);
    lemma_no_char_of_key_text(w);
    lemma_no_char_of_key_text(d);
    let stem = u.push('_') + (w.push('_') + d);
    let last = stem + suffix;
    assert(no_char(suffix, '/') && no_char(suffix, '!'));
    assert(no_char(last, '/') && no_char(last, '!'));
    let tail = seq!['/'] + (name.push('/') + last);
    let key = scatter_key(dir, filename, ulid, uuid, op);
    assert(key =~= (dir.push('/')).push('!') + tail);
    assert(no_char(dir.push('/'), '!'));
    assert(no_char(tail, '!'));
    lemma_split_none(tail, '!');
    lemma_split_first(dir.push('/'), '!', tail);
    assert(split(key, '!') =~= seq![dir.push('/'), tail]);
    lemma_split_none(last, '/');
    lemma_split_first(name, '/', last);
    assert(tail =~= Seq::<char>::empty().push('/') + (name.push('/') + last));
    lemma_split_first(Seq::<char>::empty(), '/', name.push('/') + last);
    assert(split(tail, '/') =~= seq![Seq::<char>::empty(), name, last]);
    // the suffix
    assert(last.skip(last.len() - suffix.len()) =~= suffix);
    assert(last.take(last.len() - suffix.len()) =~= stem);
    if op == 4 {
        assert(last.last() == 'e' && last[last.len() - 6] == 'b');
        assert(last.skip(last.len() - 6)[0] == 'b');
        assert(!ends_with(last, ".inode"@));
    }
    assert(stem_of(last) == Some(stem));
    lemma_split_none(d, '_');
    lemma_split_first(w, '_', d);
    lemma_split_first(u, '_', w.push('_') + d);
    assert(split(stem, '_') =~= seq![u, w, d]);
    lemma_parse_decimal(op as nat, 255);
    vstd::utf8::encode_utf8_valid_utf8(filename);
    vstd::utf8::encode_utf8_decode_utf8(filename);
}

/// The texts in the key of a scatter object that say something beside the
/// directory, not yet decoded.
#[derive(Debug)]
pub struct ScatterKeyParts {
    pub name: String,
    pub ulid: String,
    pub uuid: String,
    pub op: String,
}

impl View for ScatterKeyParts {
    type V = KeyParts;

    open spec fn view(&self) -> KeyParts {
        KeyParts { name: self.name@, ulid: self.ulid@, uuid: self.uuid@, op: self.op@ }
    }
}

impl ScatterKeyParts {
    /// Takes a key apart; `None` where it does not have the parts of a scatter
    /// object's key.
    pub fn of(key: &str) -> (r: Option<ScatterKeyParts>)
        ensures
            match key_parts(key@) {
                None => r is None,
                Some(p) => r matches Some(w) && w@ == p,
            },
    {
        let chars: Vec<char> = chars_of(key);
        let halves: Vec<Vec<char>> = split_on(chars.as_slice(), '!');
        if halves.len() != 2 {
            return None;
        }
        assert(texts(halves@)[1] == halves@[1]@);
        let segs: Vec<Vec<char>> = split_on(halves[1].as_slice(), '/');
        if segs.len() != 3 {
            return None;
        }
        assert(texts(segs@)[0] == segs@[0]@ && texts(segs@)[1] == segs@[1]@ && texts(segs@)[2] == segs@[2]@);
        if segs[0].len() != 0 {
            return None;
        }
        proof {
            reveal_strlit(".inode");
            reveal_strlit(".tombstone");
        }
        let stem: Vec<char> = if has_suffix(segs[2].as_slice(), DEFAULT_DIR_INODE_SUFFIX) {
            chars_upto(segs[2].as_slice(), segs[2].len() - 6)
        } else if has_suffix(segs[2].as_slice(), DEFAULT_DIR_TOMBSTONE_SUFFIX) {
            chars_upto(segs[2].as_slice(), segs[2].len() - 10)
        } else {
            return None;
        };
        let parts: Vec<Vec<char>> = split_on(stem.as_slice(), '_');
        if parts.len() < 3 {
            return None;
        }
        assert(texts(parts@)[0] == parts@[0]@ && texts(parts@)[1] == parts@[1]@ && texts(parts@)[2] == parts@[2]@);
        Some(
            ScatterKeyParts {
                name: string_of(segs[1].as_slice()),
                ulid: string_of(parts[0].as_slice()),
                uuid: string_of(parts[1].as_slice()),
                op: string_of(parts[2].as_slice()),
            },
        )
    }
}

impl DirScatterInode {
    /// A file name as it stands in a key: unpadded base64 over an alphabet
    /// without `_`, `/`, `!` and `.`.
    pub fn encode_filename(filename: &str) -> (r: String)
        ensures
            r@ == name_segment(filename@),
            key_text(r@),
            name_base64_decoded(NAME_ALPHABET@, r@) == Some(encode_utf8(filename@)),
    {
        proof {
            lemma_name_alphabet();
        }
        let r: String = encode_name(NAME_ALPHABET, filename.as_bytes());
        assert forall|i: int| 0 <= i < r@.len() implies key_char(#[trigger] r@[i]) by {
            assert(NAME_ALPHABET@.contains(r@[i]));
        }
        r
    }

    /// The key of the scatter object of a change, with the given ULID. It says
    /// what it was made of, provided the directory's path has no `!`.
    pub fn path_encode_with(dir_staging_path: &str, filename: &str, uuid: &Uuid, op: u8, ulid: &Ulid) -> (r: String)
        requires
            !ends_with(dir_staging_path@, "/"@),
        ensures
            r@ == scatter_key(dir_staging_path@, filename@, *ulid, *uuid, op),
            no_char(dir_staging_path@, '!') ==> decode_key(r@) == Some(
                KeyFields { filename: filename@, ulid: *ulid, uuid: *uuid, op },
            ),
    {
        let name: String = DirScatterInode::encode_filename(filename);
        let id: String = ulid.to_text();
        let child: String = uuid.to_text();
        let mut key: String = dir_staging_path.to_string();
        push_text(&mut key, "/!/");
        push_text(&mut key, name.as_str());
        push_text(&mut key, "/");
        push_text(&mut key, id.as_str());
        push_text(&mut key, "_");
        push_text(&mut key, child.as_str());
        push_text(&mut key, "_");
        push_u64(&mut key, op as u64);
        if op == DirScatterInodeOp::Delete.as_u8() {
            push_text(&mut key, DEFAULT_DIR_TOMBSTONE_SUFFIX);
        } else {
            push_text(&mut key, DEFAULT_DIR_INODE_SUFFIX);
        }
        proof {
            if no_char(dir_staging_path@, '!') {
                lemma_key_round_trip(dir_staging_path@, filename@, *ulid, *uuid, op);
            }
        }
        key
    }

    /// The key of the scatter object of a change, with a fresh ULID. It says
    /// what it was made of, provided the directory's path has no `!`.
    pub fn path_encode(dir_staging_path: &str, filename: &str, uuid: &Uuid, op: u8) -> (r: String)
        requires
            !ends_with(dir_staging_path@, "/"@),
        ensures
            exists|ulid: Ulid|
                r@ == #[trigger] scatter_key(dir_staging_path@, filename@, ulid, *uuid, op) && (no_char(
                    dir_staging_path@,
                    '!',
                ) ==> decode_key(r@) == Some(KeyFields { filename: filename@, ulid, uuid: *uuid, op })),
    {
        let ulid: Ulid = Ulid::fresh();
        DirScatterInode::path_encode_with(dir_staging_path, filename, uuid, op, &ulid)
    }

    /// The scatter object of a key whose parts have been decoded; `None` where
    /// one is malformed, so that the key is not that of a scatter object.
    pub fn from_fields(
        key: &str,
        name: Option<Vec<u8>>,
        ulid: Option<Ulid>,
        uuid: Option<Uuid>,
        op: Option<u8>,
        last_modified: i128,
    ) -> (r: Option<DirScatterInode>)
        ensures
            match key_fields(opt_bytes(name), ulid, uuid, op) {
                None => r is None,
                Some(f) => r matches Some(s) && s@ == scatter_of(key@, f, last_modified),
            },
    {
        match (name, ulid, uuid, op) {
            (Some(name), Some(ulid), Some(uuid), Some(op)) => match utf8_text(name) {
                Some(filename) => Some(
                    DirScatterInode {
                        key: key.to_string(),
                        op: DirScatterInodeOp::from_u8(op),
                        ulid,
                        uuid,
                        filename,
                        last_modified,
                    },
                ),
                None => None,
            },
            _ => None,
        }
    }

    /// What a key says; `None` where it is not the key of a scatter object.
    pub fn try_path_decode(scatter_inode: &str, last_modified: i128) -> (r: Option<DirScatterInode>)
        ensures
            match decode_key(scatter_inode@) {
                None => r is None,
                Some(f) => r matches Some(s) && s@ == scatter_of(scatter_inode@, f, last_modified),
            },
    {
        let parts: ScatterKeyParts = match ScatterKeyParts::of(scatter_inode) {
            Some(p) => p,
            None => {
                return None;
            },
        };
        proof {
            lemma_name_alphabet();
        }
        DirScatterInode::from_fields(
            scatter_inode,
            decode_name(NAME_ALPHABET, parts.name.as_str()),
            Ulid::from_string(parts.ulid.as_str()),
            Uuid::parse_str(parts.uuid.as_str()),
            parse_u8(chars_of(parts.op.as_str()).as_slice()),
            last_modified,
        )
    }

    /// True iff the key is that of a scatter object.
    pub fn is_scatter_key(key: &str) -> (r: bool)
        ensures
            r == (decode_key(key@) is Some),
    {
        DirScatterInode::try_path_decode(key, 0).is_some()
    }

    /// What the key of a scatter object says.
    pub fn path_decode(scatter_inode: &str, last_modified: i128) -> (r: DirScatterInode)
        requires
            decode_key(scatter_inode@) is Some,
        ensures
            r@ == scatter_of(scatter_inode@, decode_key(scatter_inode@).unwrap(), last_modified),
    {
        DirScatterInode::try_path_decode(scatter_inode, last_modified).unwrap()
    }

    /// A copy with the same value.
    pub fn copy(&self) -> (r: DirScatterInode)
        ensures
            r@ == self@,
    {
        DirScatterInode {
            key: self.key.clone(),
            op: self.op,
            ulid: self.ulid,
            uuid: self.uuid,
            filename: self.filename.clone(),
            last_modified: self.last_modified,
        }
    }
}

/// Reads a `u8` written in decimal, with or without a plus sign.
fn parse_u8(s: &[char]) -> (r: Option<u8>)
    ensures
        r is Some <==> parse_nat(s@, 255) is Some,
        r matches Some(v) ==> parse_nat(s@, 255) == Some(v as nat),
{
    match parse_u64(s) {
        Some(v) => if v <= 255 {
            Some(v as u8)
        } else {
            None
        },
        None => None,
    }
}

// ---------------------------------------------------------------------------
// Listings
// ---------------------------------------------------------------------------

/// An object of a listing: its key and the store's time of it, in nanoseconds
/// since the Unix epoch.
#[derive(Clone, Debug)]
pub struct ListedObject {
    pub key: String,
    pub last_modified: i128,
}

/// The object's suffix says that it is a scatter object.
pub open spec fn has_scatter_suffix(key: Seq<char>) -> bool {
    ends_with(key, ".inode"@) || ends_with(key, ".tombstone"@)
}

/// The scatter objects of a listing, in order: those objects that have the
/// suffix of one.
pub open spec fn listed_scatters(objects: Seq<ListedObject>) -> Seq<Scatter>
    decreases objects.len(),
{
    if objects.len() == 0 {
        seq![]
    } else {
        let before = listed_scatters(objects.drop_last());
        let o = objects.last();
        if has_scatter_suffix(o.key@) {
            before.push(scatter_of(o.key@, decode_key(o.key@).unwrap(), o.last_modified))
        } else {
            before
        }
    }
}

/// Every object that has the suffix of a scatter object has the key of one.
pub open spec fn listing_decodes(objects: Seq<ListedObject>) -> bool {
    forall|i: int|
        0 <= i < objects.len() && has_scatter_suffix((#[trigger] objects[i]).key@) ==> decode_key(objects[i].key@)
            is Some
}

/// The scatter objects of a listing; `None` where an object has the suffix of
/// one and not the key.
pub fn decode_listing(objects: &Vec<ListedObject>) -> (r: Option<Vec<DirScatterInode>>)
    ensures
        r is Some <==> listing_decodes(objects@),
        r matches Some(v) ==> scatter_views(v@) == listed_scatters(objects@),
{
    let mut out: Vec<DirScatterInode> = Vec::new();
    let ghost all = objects@;
    assert(scatter_views(out@) =~= listed_scatters(all.take(0)));
    for i in 0..objects.len()
        invariant
            all == objects@,
            forall|j: int|
                0 <= j < i && has_scatter_suffix((#[trigger] all[j]).key@) ==> decode_key(all[j].key@) is Some,
            scatter_views(out@) == listed_scatters(all.take(i as int)),
    {
        let o: &ListedObject = &objects[i];
        assert(all.take(i + 1).drop_last() =~= all.take(i as int));
        assert(all.take(i + 1).last() == *o);
        let chars: Vec<char> = chars_of(o.key.as_str());
        if has_suffix(chars.as_slice(), DEFAULT_DIR_INODE_SUFFIX) || has_suffix(
            chars.as_slice(),
            DEFAULT_DIR_TOMBSTONE_SUFFIX,
        ) {
            if !DirScatterInode::is_scatter_key(o.key.as_str()) {
                assert(has_scatter_suffix(all[i as int].key@));
                return None;
            }
            let ghost before = scatter_views(out@);
            let s: DirScatterInode = DirScatterInode::path_decode(o.key.as_str(), o.last_modified);
            out.push(s);
            assert(scatter_views(out@) =~= before.push(s@));
        }
    }
    assert(all.take(all.len() as int) =~= all);
    Some(out)
}

// ---------------------------------------------------------------------------
// The latest change of every name
// ---------------------------------------------------------------------------

/// `a` comes before `b` in byte order.
pub open spec fn bytes_before(a: Seq<u8>, b: Seq<u8>) -> bool
    decreases a.len(),
{
    if b.len() == 0 {
        false
    } else if a.len() == 0 {
        true
    } else if a[0] != b[0] {
        a[0] < b[0]
    } else {
        bytes_before(a.skip(1), b.skip(1))
    }
}

/// `a` is older than `b`: by the store's time, then by ULID, then by key.
pub open spec fn older(a: Scatter, b: Scatter) -> bool {
    if a.last_modified != b.last_modified {
        a.last_modified < b.last_modified
    } else if a.ulid != b.ulid {
        a.ulid.bits < b.ulid.bits
    } else {
        bytes_before(encode_utf8(a.key), encode_utf8(b.key))
    }
}

/// Position `i` holds the latest change of its name; of changes that the
/// order does not tell apart, the last one listed.
pub open spec fn is_latest(v: Seq<Scatter>, i: int) -> bool {
    forall|j: int|
        0 <= j < v.len() && (#[trigger] v[j]).filename == v[i].filename && i != j ==> older(v[j], v[i]) || (!older(
            v[i],
            v[j],
        ) && j < i)
}

/// `x` is the latest change of its name in `v`.
pub open spec fn is_a_latest(v: Seq<Scatter>, x: Scatter) -> bool {
    exists|i: int| 0 <= i < v.len() && #[trigger] v[i] == x && is_latest(v, i)
}

/// `last` holds the latest change of every name of `all`, once each.
pub open spec fn is_last_view(all: Seq<Scatter>, last: Seq<Scatter>) -> bool {
    &&& forall|k: int| 0 <= k < last.len() ==> is_a_latest(all, #[trigger] last[k])
    &&& forall|i: int| 0 <= i < all.len() && is_latest(all, i) ==> last.contains(#[trigger] all[i])
    &&& forall|j: int, k: int|
        0 <= j < last.len() && 0 <= k < last.len() && (#[trigger] last[j]).filename == (#[trigger] last[k]).filename
            ==> j == k
    &&& forall|i: int|
        #![trigger all[i]]
        0 <= i < all.len() ==> exists|k: int| 0 <= k < last.len() && (#[trigger] last[k]).filename == all[i].filename
}

/// True iff `a` comes before `b` in byte order.
fn bytes_less(a: &[u8], b: &[u8]) -> (r: bool)
    ensures
        r == bytes_before(a@, b@),
{
    let mut i: usize = 0;
    assert(a@.skip(0) =~= a@);
    assert(b@.skip(0) =~= b@);
    loop
        invariant
            i <= a.len(),
            i <= b.len(),
            bytes_before(a@, b@) == bytes_before(a@.skip(i as int), b@.skip(i as int)),
        decreases a.len() - i,
    {
        if i >= b.len() {
            return false;
        }
        if i >= a.len() {
            return true;
        }
        if a[i] != b[i] {
            return a[i] < b[i];
        }
        assert(a@.skip(i as int).skip(1) =~= a@.skip(i + 1));
        assert(b@.skip(i as int).skip(1) =~= b@.skip(i + 1));
        i += 1;
    }
}

proof fn lemma_bytes_before_total(a: Seq<u8>, b: Seq<u8>)
    ensures
        bytes_before(a, b) || bytes_before(b, a) || a == b,
        !(bytes_before(a, b) && bytes_before(b, a)),
        !bytes_before(a, a),
    decreases a.len(),
{
    if a.len() > 0 {
        lemma_bytes_before_total(a.skip(1), if b.len() > 0 {
            b.skip(1)
        } else {
            a.skip(1)
        });
        if b.len() > 0 && a[0] == b[0] && a.skip(1) == b.skip(1) {
            assert(a =~= seq![a[0]] + a.skip(1));
            assert(b =~= seq![b[0]] + b.skip(1));
        }
    } else if b.len() == 0 {
        assert(a =~= b);
    }
}

proof fn lemma_bytes_before_transitive(a: Seq<u8>, b: Seq<u8>, c: Seq<u8>)
    requires
        bytes_before(a, b),
        bytes_before(b, c),
    ensures
        bytes_before(a, c),
    decreases a.len(),
{
    if a.len() > 0 && a[0] == b[0] && b[0] == c[0] {
        lemma_bytes_before_transitive(a.skip(1), b.skip(1), c.skip(1));
    }
}

/// The order of changes is a strict order, total up to changes that agree in
/// time, ULID and key: which change of a name is the latest does not depend on
/// the order in which a listing gives them.
pub proof fn law_changes_are_ordered(a: Scatter, b: Scatter, c: Scatter)
    ensures
        !older(a, a),
        older(a, b) ==> !older(b, a),
        older(a, b) && older(b, c) ==> older(a, c),
        !older(a, b) && !older(b, a) ==> a.last_modified == b.last_modified && a.ulid == b.ulid && a.key == b.key,
{
    let x = encode_utf8(a.key);
    let y = encode_utf8(b.key);
    let z = encode_utf8(c.key);
    lemma_bytes_before_total(x, y);
    lemma_bytes_before_total(x, x);
    if bytes_before(x, y) && bytes_before(y, z) {
        lemma_bytes_before_transitive(x, y, z);
    }
    if x == y {
        vstd::utf8::encode_utf8_decode_utf8(a.key);
        vstd::utf8::encode_utf8_decode_utf8(b.key);
    }
}

/// `best` holds, for every name among the first `n` changes, the position of
/// its latest one, and `place` says where in `best`.
spec fn tracks(all: Seq<Scatter>, n: int, best: Seq<usize>, place: Map<Seq<char>, usize>) -> bool {
    &&& 0 <= n <= all.len()
    &&& best.len() <= n
    &&& forall|p: int|
        0 <= p < best.len() ==> (#[trigger] best[p]) < n && place.contains_key(all[best[p] as int].filename)
            && place[all[best[p] as int].filename] == p && is_latest(all.take(n), best[p] as int)
    &&& forall|name: Seq<char>| #[trigger]
        place.contains_key(name) ==> place[name] < best.len() && all[best[place[name] as int] as int].filename == name
    &&& forall|j: int| 0 <= j < n ==> place.contains_key((#[trigger] all[j]).filename)
}

/// A change of a name not seen before is that name's latest so far.
proof fn lemma_track_new(all: Seq<Scatter>, n: int, best: Seq<usize>, place: Map<Seq<char>, usize>)
    requires
        tracks(all, n, best, place),
        n < all.len() <= usize::MAX,
        !place.contains_key(all[n].filename),
    ensures
        tracks(all, n + 1, best.push(n as usize), place.insert(all[n].filename, best.len() as usize)),
{
    let b = best.push(n as usize);
    let pl = place.insert(all[n].filename, best.len() as usize);
    let t = all.take(n);
    let u = all.take(n + 1);
    assert forall|p: int| 0 <= p < b.len() implies (#[trigger] b[p]) < n + 1 && pl.contains_key(
        all[b[p] as int].filename,
    ) && pl[all[b[p] as int].filename] == p && is_latest(u, b[p] as int) by {
        if p < best.len() {
            assert(b[p] == best[p]);
            assert forall|j: int|
                0 <= j < u.len() && (#[trigger] u[j]).filename == u[b[p] as int].filename && b[p] as int
                    != j implies older(u[j], u[b[p] as int]) || (!older(u[b[p] as int], u[j]) && j < b[p]) by {
                assert(j < n);
                assert(t[j] == u[j] && t[b[p] as int] == u[b[p] as int]);
            }
        } else {
            assert forall|j: int|
                0 <= j < u.len() && (#[trigger] u[j]).filename == u[n].filename && n != j implies older(u[j], u[n])
                || (!older(u[n], u[j]) && j < n) by {
                assert(place.contains_key(all[j].filename));
            }
        }
    }
    assert forall|name: Seq<char>| #[trigger] pl.contains_key(name) implies pl[name] < b.len()
        && all[b[pl[name] as int] as int].filename == name by {
        if name != all[n].filename {
            assert(place.contains_key(name));
        }
    }
    assert forall|j: int| 0 <= j < n + 1 implies pl.contains_key((#[trigger] all[j]).filename) by {
        if j < n {
            assert(place.contains_key(all[j].filename));
        }
    }
}

/// A change that is older than the latest of its name changes nothing.
proof fn lemma_track_older(all: Seq<Scatter>, n: int, best: Seq<usize>, place: Map<Seq<char>, usize>)
    requires
        tracks(all, n, best, place),
        n < all.len(),
        place.contains_key(all[n].filename),
        older(all[n], all[best[place[all[n].filename] as int] as int]),
    ensures
        tracks(all, n + 1, best, place),
{
    let t = all.take(n);
    let u = all.take(n + 1);
    assert forall|p: int| 0 <= p < best.len() implies (#[trigger] best[p]) < n + 1 && place.contains_key(
        all[best[p] as int].filename,
    ) && place[all[best[p] as int].filename] == p && is_latest(u, best[p] as int) by {
        let i = best[p] as int;
        assert forall|j: int| 0 <= j < u.len() && (#[trigger] u[j]).filename == u[i].filename && i != j implies older(
            u[j],
            u[i],
        ) || (!older(u[i], u[j]) && j < i) by {
            assert(t[i] == u[i]);
            if j < n {
                assert(t[j] == u[j]);
            } else {
                assert(place[all[n].filename] == p);
            }
        }
    }
    assert forall|j: int| 0 <= j < n + 1 implies place.contains_key((#[trigger] all[j]).filename) by {}
}

/// A change that is not older than the latest of its name takes its place.
proof fn lemma_track_newer(all: Seq<Scatter>, n: int, best: Seq<usize>, place: Map<Seq<char>, usize>)
    requires
        tracks(all, n, best, place),
        n < all.len() <= usize::MAX,
        place.contains_key(all[n].filename),
        !older(all[n], all[best[place[all[n].filename] as int] as int]),
    ensures
        tracks(all, n + 1, best.update(place[all[n].filename] as int, n as usize), place),
{
    let q = place[all[n].filename] as int;
    let b = best.update(q, n as usize);
    let old = best[q] as int;
    let t = all.take(n);
    let u = all.take(n + 1);
    assert forall|p: int| 0 <= p < b.len() implies (#[trigger] b[p]) < n + 1 && place.contains_key(
        all[b[p] as int].filename,
    ) && place[all[b[p] as int].filename] == p && is_latest(u, b[p] as int) by {
        if p == q {
            assert forall|j: int|
                0 <= j < u.len() && (#[trigger] u[j]).filename == u[n].filename && n != j implies older(u[j], u[n])
                || (!older(u[n], u[j]) && j < n) by {
                assert(t[j] == u[j]);
                assert(t[old] == all[old]);
                assert(is_latest(t, best[q] as int));
                if j != old {
                    assert(older(t[j], t[old]) || !older(t[old], t[j]));
                    lemma_not_older_step(all[j], all[old], all[n]);
                }
            }
        } else {
            let i = best[p] as int;
            assert(b[p] == best[p]);
            assert forall|j: int|
                0 <= j < u.len() && (#[trigger] u[j]).filename == u[i].filename && i != j implies older(u[j], u[i])
                || (!older(u[i], u[j]) && j < i) by {
                assert(t[i] == u[i]);
                if j < n {
                    assert(t[j] == u[j]);
                } else {
                    assert(place[all[i].filename] == p);
                }
            }
        }
    }
    assert forall|name: Seq<char>| #[trigger] place.contains_key(name) implies place[name] < b.len()
        && all[b[place[name] as int] as int].filename == name by {
        if place[name] == q {
            assert(all[best[q] as int].filename == name);
        }
    }
    assert forall|j: int| 0 <= j < n + 1 implies place.contains_key((#[trigger] all[j]).filename) by {}
}

/// What is not newer than `b` is not newer than a `c` that is not older.
pub proof fn lemma_not_older_step(a: Scatter, b: Scatter, c: Scatter)
    requires
        older(a, b) || !older(b, a),
        !older(c, b),
    ensures
        older(a, c) || !older(c, a),
{
    law_changes_are_ordered(c, a, b);
    law_changes_are_ordered(a, b, c);
    law_changes_are_ordered(b, a, c);
    law_changes_are_ordered(b, c, a);
    law_changes_are_ordered(c, b, a);
}

/// Once all changes are tracked, the tracked ones are the last view.
proof fn lemma_tracked(
    all: Seq<Scatter>,
    best: Seq<usize>,
    place: Map<Seq<char>, usize>,
    last: Seq<Scatter>,
)
    requires
        tracks(all, all.len() as int, best, place),
        last.len() == best.len(),
        forall|q: int| 0 <= q < last.len() ==> #[trigger] last[q] == all[best[q] as int],
    ensures
        is_last_view(all, last),
{
    assert(all.take(all.len() as int) =~= all);
    assert forall|k: int| 0 <= k < last.len() implies is_a_latest(all, #[trigger] last[k]) by {
        let i = best[k] as int;
        assert(all[i] == last[k]);
    }
    assert forall|i: int| #![trigger all[i]] 0 <= i < all.len() implies exists|k: int|
        0 <= k < last.len() && (#[trigger] last[k]).filename == all[i].filename by {
        assert(place.contains_key(all[i].filename));
        let k = place[all[i].filename] as int;
        assert(last[k].filename == all[i].filename);
    }
    assert forall|i: int| 0 <= i < all.len() && is_latest(all, i) implies last.contains(#[trigger] all[i]) by {
        assert(place.contains_key(all[i].filename));
        let k = place[all[i].filename] as int;
        let b = best[k] as int;
        assert(last[k] == all[b]);
        if b != i {
            assert(is_latest(all, b));
            assert(older(all[b], all[i]) || (!older(all[i], all[b]) && b < i));
            assert(older(all[i], all[b]) || (!older(all[b], all[i]) && i < b));
            law_changes_are_ordered(all[i], all[b], all[i]);
        }
    }
    assert forall|j: int, k: int|
        0 <= j < last.len() && 0 <= k < last.len() && (#[trigger] last[j]).filename == (#[trigger] last[k]).filename implies j
        == k by {
        assert(place[all[best[j] as int].filename] == j);
        assert(place[all[best[k] as int].filename] == k);
    }
}

impl DirScatterInode {
    /// True iff this change is older than `other`.
    pub fn is_older(&self, other: &DirScatterInode) -> (r: bool)
        ensures
            r == older(self@, other@),
    {
        if self.last_modified != other.last_modified {
            self.last_modified < other.last_modified
        } else if self.ulid.bits != other.ulid.bits {
            self.ulid.bits < other.ulid.bits
        } else {
            bytes_less(self.key.as_str().as_bytes(), other.key.as_str().as_bytes())
        }
    }

    /// The latest change of every name, out of a full list of scatter objects.
    pub fn filter_last_view(scatters: Vec<DirScatterInode>) -> (r: Vec<DirScatterInode>)
        ensures
            is_last_view(scatter_views(scatters@), scatter_views(r@)),
    {
        let ghost all = scatter_views(scatters@);
        let mut best: Vec<usize> = Vec::new();
        let mut place: StringHashMap<usize> = StringHashMap::new();
        for n in 0..scatters.len()
            invariant
                all == scatter_views(scatters@),
                tracks(all, n as int, best@, place@),
        {
            let s: &DirScatterInode = &scatters[n];
            assert(all[n as int] == s@);
            let at: Option<usize> = match place.get(s.filename.as_str()) {
                Some(p) => Some(*p),
                None => None,
            };
            match at {
                Some(p) => {
                    let b: usize = best[p];
                    assert(all[b as int] == scatters@[b as int]@);
                    if s.is_older(&scatters[b]) {
                        proof {
                            lemma_track_older(all, n as int, best@, place@);
                        }
                    } else {
                        proof {
                            lemma_track_newer(all, n as int, best@, place@);
                        }
                        best.set(p, n);
                    }
                },
                None => {
                    proof {
                        lemma_track_new(all, n as int, best@, place@);
                    }
                    place.insert(s.filename.clone(), best.len());
                    best.push(n);
                },
            }
        }
        let mut out: Vec<DirScatterInode> = Vec::new();
        for p in 0..best.len()
            invariant
                all == scatter_views(scatters@),
                tracks(all, all.len() as int, best@, place@),
                out.len() == p,
                forall|q: int| 0 <= q < p ==> (#[trigger] out@[q])@ == all[best@[q] as int],
        {
            let i: usize = best[p];
            assert(all[i as int] == scatters@[i as int]@);
            out.push(scatters[i].copy());
        }
        proof {
            lemma_tracked(all, best@, place@, scatter_views(out@));
        }
        out
    }
}

// ---------------------------------------------------------------------------
// Laws of keys and changes
// ---------------------------------------------------------------------------

/// Ops and their numbers.
pub proof fn law_numbers_of_ops(n: u8)
    ensures
        DirScatterInodeOp::of_code(1) == DirScatterInodeOp::Create,
        DirScatterInodeOp::of_code(2) == DirScatterInodeOp::Update,
        DirScatterInodeOp::of_code(3) == DirScatterInodeOp::PreDelete,
        DirScatterInodeOp::of_code(4) == DirScatterInodeOp::Delete,
        n == 0 || n > 4 ==> DirScatterInodeOp::of_code(n) == DirScatterInodeOp::Unknown,
        1 <= n <= 4 ==> DirScatterInodeOp::of_code(n).code() == n,
        DirScatterInodeOp::Unknown.code() == 255,
{
}

/// The value of a scatter object is what it holds, field by field; that of
/// several is theirs one by one, in order.
pub proof fn law_scatter_objects_are_their_fields(v: Seq<DirScatterInode>, i: int)
    requires
        0 <= i < v.len(),
    ensures
        scatter_views(v).len() == v.len(),
        scatter_views(v)[i].key == v[i].key@,
        scatter_views(v)[i].op == v[i].op,
        scatter_views(v)[i].ulid == v[i].ulid,
        scatter_views(v)[i].uuid == v[i].uuid,
        scatter_views(v)[i].filename == v[i].filename@,
        scatter_views(v)[i].last_modified == v[i].last_modified,
{
}

/// The texts of a key's parts are those that were found in it.
pub proof fn law_key_parts_are_their_texts(p: ScatterKeyParts)
    ensures
        p@.name == p.name@,
        p@.ulid == p.ulid@,
        p@.uuid == p.uuid@,
        p@.op == p.op@,
{
}

/// A tombstone's key ends in `.tombstone`, that of any other change in
/// `.inode`; behind the directory stand the name, the ULID, the UUID and the
/// op's number.
pub proof fn law_scatter_keys(dir: Seq<char>, filename: Seq<char>, ulid: Ulid, uuid: Uuid, op: u8)
    ensures
        scatter_key(dir, filename, ulid, uuid, 4) == dir + "/!/"@ + name_base64(NAME_ALPHABET@, encode_utf8(filename))
            + "/"@ + ulid_text(ulid.bits) + "_"@ + uuid_text(uuid.bits) + "_"@ + decimal(4) + ".tombstone"@,
        op != 4 ==> scatter_key(dir, filename, ulid, uuid, op) == dir + "/!/"@ + name_base64(
            NAME_ALPHABET@,
            encode_utf8(filename),
        ) + "/"@ + ulid_text(ulid.bits) + "_"@ + uuid_text(uuid.bits) + "_"@ + decimal(op as nat) + ".inode"@,
{
}

/// A key is taken apart at its separators: behind the directory and the `!`
/// stand a slash, the name, a slash, then ULID, UUID and op with underscores
/// between them, and the suffix.
pub proof fn law_keys_are_taken_apart_at_separators(
    dir: Seq<char>,
    name: Seq<char>,
    ulid: Seq<char>,
    uuid: Seq<char>,
    op: Seq<char>,
)
    requires
        !dir.contains('!'),
        key_text(name),
        key_text(ulid),
        key_text(uuid),
        key_text(op),
    ensures
        key_parts(dir + "!/"@ + name + "/"@ + ulid + "_"@ + uuid + "_"@ + op + ".inode"@) == Some(
            KeyParts { name, ulid, uuid, op },
        ),
        key_parts(dir + "!/"@ + name + "/"@ + ulid + "_"@ + uuid + "_"@ + op + ".tombstone"@) == Some(
            KeyParts { name, ulid, uuid, op },
        ),
{
    reveal_strlit("!/");
    reveal_strlit("/");
    reveal_strlit("_");
    reveal_strlit(".inode");
    reveal_strlit(".tombstone");
    lemma_key_taken_apart(dir, name, ulid, uuid, op, ".inode"@);
    lemma_key_taken_apart(dir, name, ulid, uuid, op, ".tombstone"@);
    let stem = ulid.push('_') + (uuid.push('_') + op);
    let a = dir + "!/"@ + name + "/"@ + ulid + "_"@ + uuid + "_"@ + op + ".inode"@;
    let b = dir + "!/"@ + name + "/"@ + ulid + "_"@ + uuid + "_"@ + op + ".tombstone"@;
    assert(a =~= dir.push('!') + (seq!['/'] + (name.push('/') + (stem + ".inode"@))));
    assert(b =~= dir.push('!') + (seq!['/'] + (name.push('/') + (stem + ".tombstone"@))));
}

proof fn lemma_key_taken_apart(
    dir: Seq<char>,
    name: Seq<char>,
    ulid: Seq<char>,
    uuid: Seq<char>,
    op: Seq<char>,
    suffix: Seq<char>,
)
    requires
        !dir.contains('!'),
        key_text(name),
        key_text(ulid),
        key_text(uuid),
        key_text(op),
        suffix == ".inode"@ || suffix == ".tombstone"@,
    ensures
        key_parts(
            dir.push('!') + (seq!['/'] + (name.push('/') + (ulid.push('_') + (uuid.push('_') + op) + suffix))),
        ) == Some(KeyParts { name, ulid, uuid, op }),
{
    reveal_strlit(".inode");
    reveal_strlit(".tombstone");
    lemma_no_char_of_key_text(name);
    lemma_no_char_of_key_text(ulid);
    lemma_no_char_of_key_text(uuid);
    lemma_no_char_of_key_text(op);
    let stem = ulid.push('_') + (uuid.push('_') + op);
    let last = stem + suffix;
    assert(no_char(suffix, '/') && no_char(suffix, '!'));
    assert(no_char(last, '/') && no_char(last, '!'));
    let tail = seq!['/'] + (name.push('/') + last);
    let key = dir.push('!') + tail;
    assert(no_char(dir, '!')) by {
        assert forall|i: int| 0 <= i < dir.len() implies dir[i] != '!' by {
            assert(dir.contains(dir[i]));
        }
    }
    assert(no_char(tail, '!'));
    lemma_split_none(tail, '!');
    lemma_split_first(dir, '!', tail);
    assert(split(key, '!') =~= seq![dir, tail]);
    lemma_split_none(last, '/');
    lemma_split_first(name, '/', last);
    assert(tail =~= Seq::<char>::empty().push('/') + (name.push('/') + last));
    lemma_split_first(Seq::<char>::empty(), '/', name.push('/') + last);
    assert(split(tail, '/') =~= seq![Seq::<char>::empty(), name, last]);
    assert(last.skip(last.len() - suffix.len()) =~= suffix);
    assert(last.take(last.len() - suffix.len()) =~= stem);
    if suffix == ".tombstone"@ {
        assert(last.last() == 'e' && last[last.len() - 6] == 'b');
        assert(last.skip(last.len() - 6)[0] == 'b');
        assert(!ends_with(last, ".inode"@));
    }
    assert(stem_of(last) == Some(stem));
    lemma_split_none(op, '_');
    lemma_split_first(uuid, '_', op);
    lemma_split_first(ulid, '_', uuid.push('_') + op);
    assert(split(stem, '_') =~= seq![ulid, uuid, op]);
}

/// A key has the parts of a scatter object's only where it has one `!`, two
/// slashes behind it, the first at once, the suffix of one, and two underscores
/// at least before the suffix; its parts are found there.
pub proof fn law_what_has_the_parts_of_a_key(key: Seq<char>)
    ensures
        key_parts(key) matches Some(p) ==> {
            let halves = split(key, '!');
            let segs = split(halves[1], '/');
            &&& halves.len() == 2
            &&& segs.len() == 3
            &&& segs[0].len() == 0
            &&& p.name == segs[1]
            &&& ends_with(segs[2], ".inode"@) || ends_with(segs[2], ".tombstone"@)
            &&& exists|stem: Seq<char>|
                (segs[2] == stem + ".inode"@ || segs[2] == stem + ".tombstone"@) && (#[trigger] split(stem, '_')).len()
                    >= 3 && p.ulid == split(stem, '_')[0] && p.uuid == split(stem, '_')[1] && p.op == split(
                    stem,
                    '_',
                )[2]
        },
{
    reveal_strlit(".inode");
    reveal_strlit(".tombstone");
    if key_parts(key) is Some {
        let last = split(split(key, '!')[1], '/')[2];
        let stem = stem_of(last).unwrap();
        if ends_with(last, ".inode"@) {
            assert(last =~= stem + ".inode"@);
        } else {
            assert(last =~= stem + ".tombstone"@);
        }
        assert(split(stem, '_').len() >= 3);
    }
}

/// Decoded parts say something exactly where all four are well-formed and the
/// name is text; then they say just that.
pub proof fn law_decoded_parts_say_what_they_are(name: Seq<u8>, ulid: Ulid, uuid: Uuid, op: u8)
    ensures
        valid_utf8(name) ==> key_fields(Some(name), Some(ulid), Some(uuid), Some(op)) == Some(
            KeyFields { filename: decode_utf8(name), ulid, uuid, op },
        ),
        !valid_utf8(name) ==> key_fields(Some(name), Some(ulid), Some(uuid), Some(op)) is None,
        key_fields(None, Some(ulid), Some(uuid), Some(op)) is None,
        key_fields(Some(name), None, Some(uuid), Some(op)) is None,
        key_fields(Some(name), Some(ulid), None, Some(op)) is None,
        key_fields(Some(name), Some(ulid), Some(uuid), None) is None,
{
}

/// What a key says is what its parts say, each decoded in its way.
pub proof fn law_a_key_says_what_its_parts_say(key: Seq<char>)
    ensures
        decode_key(key) is Some ==> key_parts(key) is Some,
        key_parts(key) matches Some(p) ==> match decode_key(key) {
            Some(f) => {
                &&& name_base64_decoded(NAME_ALPHABET@, p.name) matches Some(b) && valid_utf8(b) && f.filename
                    == decode_utf8(b)
                &&& ulid_parsed(p.ulid) == Some(f.ulid.bits)
                &&& uuid_parsed(p.uuid) == Some(f.uuid.bits)
                &&& parse_nat(p.op, 255) == Some(f.op as nat)
            },
            None => {
                ||| name_base64_decoded(NAME_ALPHABET@, p.name) is None
                ||| !valid_utf8(name_base64_decoded(NAME_ALPHABET@, p.name).unwrap())
                ||| ulid_parsed(p.ulid) is None
                ||| uuid_parsed(p.uuid) is None
                ||| parse_nat(p.op, 255) is None
            },
        },
{
}

/// A scatter object has the key and the time that it was listed with, and what
/// the key says.
pub proof fn law_scatter_object_of_a_key(key: Seq<char>, f: KeyFields, t: i128)
    ensures
        scatter_of(key, f, t).key == key,
        scatter_of(key, f, t).last_modified == t,
        scatter_of(key, f, t).filename == f.filename,
        scatter_of(key, f, t).ulid == f.ulid,
        scatter_of(key, f, t).uuid == f.uuid,
        1 <= f.op <= 4 ==> scatter_of(key, f, t).op.code() == f.op,
        f.op == 0 || f.op > 4 ==> scatter_of(key, f, t).op == DirScatterInodeOp::Unknown,
{
}

/// A listing is gone through object by object: one with the suffix of a scatter
/// object is one and has to have the key of one, any other is passed over.
pub proof fn law_listing_object_by_object(objects: Seq<ListedObject>, o: ListedObject)
    ensures
        listed_scatters(Seq::<ListedObject>::empty()) == Seq::<Scatter>::empty(),
        listing_decodes(Seq::<ListedObject>::empty()),
        ends_with(o.key@, ".inode"@) || ends_with(o.key@, ".tombstone"@) ==> {
            &&& listing_decodes(objects.push(o)) <==> listing_decodes(objects) && decode_key(o.key@) is Some
            &&& decode_key(o.key@) matches Some(f) ==> listed_scatters(objects.push(o)) == listed_scatters(objects).push(
                scatter_of(o.key@, f, o.last_modified),
            )
        },
        !ends_with(o.key@, ".inode"@) && !ends_with(o.key@, ".tombstone"@) ==> {
            &&& listing_decodes(objects.push(o)) <==> listing_decodes(objects)
            &&& listed_scatters(objects.push(o)) == listed_scatters(objects)
        },
{
    let p = objects.push(o);
    assert(p.drop_last() =~= objects);
    assert(forall|i: int| 0 <= i < objects.len() ==> #[trigger] p[i] == objects[i]);
    assert(p[objects.len() as int] == o);
    if listing_decodes(p) {
        assert forall|i: int| 0 <= i < objects.len() && has_scatter_suffix((#[trigger] objects[i]).key@) implies decode_key(
            objects[i].key@,
        ) is Some by {
            assert(p[i] == objects[i]);
        }
    }
}

/// Byte order: of two sequences that first differ at some byte, the one with
/// the smaller byte comes first; a proper beginning comes before the whole.
pub proof fn law_byte_order(common: Seq<u8>, x: u8, y: u8, a: Seq<u8>, b: Seq<u8>)
    ensures
        x < y ==> bytes_before(common.push(x) + a, common.push(y) + b),
        x < y ==> !bytes_before(common.push(y) + b, common.push(x) + a),
        bytes_before(common, common.push(x) + a),
        !bytes_before(common.push(x) + a, common),
        !bytes_before(common, common),
    decreases common.len(),
{
    let l = common.push(x) + a;
    let r = common.push(y) + b;
    if common.len() > 0 {
        let c = common.skip(1);
        law_byte_order(c, x, y, a, b);
        assert(l.skip(1) =~= c.push(x) + a);
        assert(r.skip(1) =~= c.push(y) + b);
        assert(l[0] == common[0] && r[0] == common[0]);
    } else {
        assert(l[0] == x && r[0] == y);
    }
}

/// Of two changes, the one that the store saw first is the older; of two of one
/// time, the one with the smaller ULID; of two of one ULID, the one whose key
/// comes first.
pub proof fn law_which_change_is_older(a: Scatter, b: Scatter)
    ensures
        a.last_modified < b.last_modified ==> older(a, b) && !older(b, a),
        a.last_modified == b.last_modified && a.ulid.bits < b.ulid.bits ==> older(a, b) && !older(b, a),
        a.last_modified == b.last_modified && a.ulid == b.ulid ==> older(a, b) == bytes_before(
            encode_utf8(a.key),
            encode_utf8(b.key),
        ),
{
}

/// The last view has every name that has changed exactly once, with a change of
/// that name that is in the list and than which none of that name is later; of
/// changes that the order does not tell apart, with the last one listed. The
/// results are where that change stands in the view and in the list.
pub proof fn law_last_view_has_each_name_once(all: Seq<Scatter>, last: Seq<Scatter>, i: int) -> (r: (int, int))
    requires
        is_last_view(all, last),
        0 <= i < all.len(),
    ensures
        0 <= r.0 < last.len(),
        0 <= r.1 < all.len(),
        last[r.0] == all[r.1],
        last[r.0].filename == all[i].filename,
        !older(last[r.0], all[i]),
        older(all[i], last[r.0]) || i <= r.1,
        forall|j: int| 0 <= j < last.len() && (#[trigger] last[j]).filename == all[i].filename ==> j == r.0,
{
    let k = choose|k: int| 0 <= k < last.len() && (#[trigger] last[k]).filename == all[i].filename;
    assert(is_a_latest(all, last[k]));
    let at = choose|at: int| 0 <= at < all.len() && #[trigger] all[at] == last[k] && is_latest(all, at);
    if at != i {
        assert(all[i].filename == all[at].filename);
        assert(older(all[i], all[at]) || (!older(all[at], all[i]) && i < at));
    }
    law_changes_are_ordered(all[i], all[at], all[i]);
    (k, at)
}

/// The last view holds nothing that is not in the list.
pub proof fn law_last_view_is_of_the_list(all: Seq<Scatter>, last: Seq<Scatter>, k: int)
    requires
        is_last_view(all, last),
        0 <= k < last.len(),
    ensures
        all.contains(last[k]),
{
    assert(is_a_latest(all, last[k]));
    let w = choose|w: int| 0 <= w < all.len() && #[trigger] all[w] == last[k] && is_latest(all, w);
    assert(all[w] == last[k]);
}

} // verus!
