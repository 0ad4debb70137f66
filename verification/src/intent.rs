//! Intent objects: the durable commit points of operations that change more
//! than one object. A rename intent says what a move across directories is to
//! do; a reclaim intent names a child that a rename displaced.
//!
//! Both are text, one `key=value` line per field, with names and bytes in
//! base64.
use vstd::prelude::*;
use vstd::slice::slice_to_vec;
use vstd::utf8::{decode_utf8, encode_utf8, valid_utf8};
use crate::bytes::opt_bytes;
use crate::error::Error;
use crate::ident::{key_char, lemma_uuid_text, uuid_text, Ulid, Uuid};
use crate::outside::{
    decode_std, encode_std, standard_symbol, std_base64, std_base64_decoded, ulid_parsed, utf8_text, uuid_parsed,
};
use crate::text::{
    chars_from, chars_of, chars_upto, ends_with, has_prefix, has_suffix, lemma_lines_first, lines, lines_of,
    push_text, same_text, split, split_on, starts_with, string_of, strip_cr, texts,
};

verus! {

/// A cross-directory rename, captured durably so that the move can be
/// completed after the intent object has been written.
#[derive(Debug)]
pub struct RenameIntent {
    pub src_parent: Uuid,
    pub src_name: String,
    pub dst_parent: Uuid,
    pub dst_name: String,
    /// The child's UUID; preserved across the move (its storage never moves).
    pub child: Uuid,
    /// The source entry's raw inode bytes, moved verbatim to the destination.
    pub inode: Vec<u8>,
}

/// The mathematical value of a [`RenameIntent`].
pub struct Rename {
    pub src_parent: Uuid,
    pub src_name: Seq<char>,
    pub dst_parent: Uuid,
    pub dst_name: Seq<char>,
    pub child: Uuid,
    pub inode: Seq<u8>,
}

impl View for RenameIntent {
    type V = Rename;

    open spec fn view(&self) -> Rename {
        Rename {
            src_parent: self.src_parent,
            src_name: self.src_name@,
            dst_parent: self.dst_parent,
            dst_name: self.dst_name@,
            child: self.child,
            inode: self.inode@,
        }
    }
}

/// A reclaim intent for a child displaced by a replace-over-existing rename.
/// The displaced child's name was overwritten in place, so the child is
/// recorded here; recovery reclaims it if the rename completed.
#[derive(Debug)]
pub struct ReclaimIntent {
    pub dst_parent: Uuid,
    pub dst_name: String,
    pub displaced: Uuid,
    pub displaced_is_dir: bool,
}

/// The mathematical value of a [`ReclaimIntent`].
pub struct Reclaim {
    pub dst_parent: Uuid,
    pub dst_name: Seq<char>,
    pub displaced: Uuid,
    pub displaced_is_dir: bool,
}

impl View for ReclaimIntent {
    type V = Reclaim;

    open spec fn view(&self) -> Reclaim {
        Reclaim {
            dst_parent: self.dst_parent,
            dst_name: self.dst_name@,
            displaced: self.displaced,
            displaced_is_dir: self.displaced_is_dir,
        }
    }
}

// ---------------------------------------------------------------------------
// Lines
// ---------------------------------------------------------------------------

/// The fields that an intent's lines can hold.
#[derive(Clone, Copy, Debug, PartialEq, Eq, Structural)]
pub enum Field {
    SrcParent,
    SrcName,
    DstParent,
    DstName,
    Child,
    Inode,
    Displaced,
    IsDir,
}

impl Field {
    /// What a line that holds the field begins with.
    pub open spec fn prefix(self) -> Seq<char> {
        match self {
            Field::SrcParent => "src_parent="@,
            Field::SrcName => "src_name="@,
            Field::DstParent => "dst_parent="@,
            Field::DstName => "dst_name="@,
            Field::Child => "child="@,
            Field::Inode => "inode="@,
            Field::Displaced => "displaced="@,
            Field::IsDir => "is_dir="@,
        }
    }
}

/// The field that a line holds and its value, where it holds one. No prefix is
/// the beginning of another, so there is at most one.
#[verifier::opaque]
pub open spec fn field_of(line: Seq<char>) -> Option<(Field, Seq<char>)> {
    if starts_with(line, "src_parent="@) {
        Some((Field::SrcParent, line.skip("src_parent="@.len() as int)))
    } else if starts_with(line, "src_name="@) {
        Some((Field::SrcName, line.skip("src_name="@.len() as int)))
    } else if starts_with(line, "dst_parent="@) {
        Some((Field::DstParent, line.skip("dst_parent="@.len() as int)))
    } else if starts_with(line, "dst_name="@) {
        Some((Field::DstName, line.skip("dst_name="@.len() as int)))
    } else if starts_with(line, "child="@) {
        Some((Field::Child, line.skip("child="@.len() as int)))
    } else if starts_with(line, "inode="@) {
        Some((Field::Inode, line.skip("inode="@.len() as int)))
    } else if starts_with(line, "displaced="@) {
        Some((Field::Displaced, line.skip("displaced="@.len() as int)))
    } else if starts_with(line, "is_dir="@) {
        Some((Field::IsDir, line.skip("is_dir="@.len() as int)))
    } else {
        None
    }
}

proof fn reveal_prefixes()
    ensures
        "src_parent="@ =~= seq!['s', 'r', 'c', '_', 'p', 'a', 'r', 'e', 'n', 't', '='],
        "src_name="@ =~= seq!['s', 'r', 'c', '_', 'n', 'a', 'm', 'e', '='],
        "dst_parent="@ =~= seq!['d', 's', 't', '_', 'p', 'a', 'r', 'e', 'n', 't', '='],
        "dst_name="@ =~= seq!['d', 's', 't', '_', 'n', 'a', 'm', 'e', '='],
        "child="@ =~= seq!['c', 'h', 'i', 'l', 'd', '='],
        "inode="@ =~= seq!['i', 'n', 'o', 'd', 'e', '='],
        "displaced="@ =~= seq!['d', 'i', 's', 'p', 'l', 'a', 'c', 'e', 'd', '='],
        "is_dir="@ =~= seq!['i', 's', '_', 'd', 'i', 'r', '='],
{
    reveal_strlit("src_parent=");
    reveal_strlit("src_name=");
    reveal_strlit("dst_parent=");
    reveal_strlit("dst_name=");
    reveal_strlit("child=");
    reveal_strlit("inode=");
    reveal_strlit("displaced=");
    reveal_strlit("is_dir=");
}

/// A line made for a field holds that field.
proof fn lemma_field_of(f: Field, v: Seq<char>)
    ensures
        field_of(f.prefix() + v) == Some((f, v)),
{
    reveal(field_of);
    reveal_prefixes();
    let line = f.prefix() + v;
    let n = f.prefix().len() as int;
    assert(line.take(n) =~= f.prefix());
    assert(line.skip(n) =~= v);
    assert(forall|i: int| 0 <= i < n ==> line[i] == f.prefix()[i]);
    // two prefixes differ within their first five characters
    lemma_differs(line, "src_parent="@);
    lemma_differs(line, "src_name="@);
    lemma_differs(line, "dst_parent="@);
    lemma_differs(line, "dst_name="@);
    lemma_differs(line, "child="@);
    lemma_differs(line, "inode="@);
    lemma_differs(line, "displaced="@);
    lemma_differs(line, "is_dir="@);
}

/// A line that differs from `p` in one of the first five characters does not
/// begin with it.
proof fn lemma_differs(line: Seq<char>, p: Seq<char>)
    requires
        line.len() >= 5,
        p.len() >= 5,
    ensures
        starts_with(line, p) ==> line[0] == p[0] && line[1] == p[1] && line[2] == p[2] && line[3] == p[3] && line[4]
            == p[4],
{
    if starts_with(line, p) {
        let t = line.take(p.len() as int);
        assert(t[0] == p[0] && t[1] == p[1] && t[2] == p[2] && t[3] == p[3] && t[4] == p[4]);
    }
}

/// The field that a line holds and its value.
pub fn field_in(line: &[char]) -> (r: Option<(Field, Vec<char>)>)
    ensures
        match field_of(line@) {
            Some(v) => r matches Some(w) && w.0 == v.0 && w.1@ == v.1,
            None => r is None,
        },
{
    proof {
        reveal(field_of);
        reveal_prefixes();
    }
    if has_prefix(line, "src_parent=") {
        Some((Field::SrcParent, chars_from(line, 11)))
    } else if has_prefix(line, "src_name=") {
        Some((Field::SrcName, chars_from(line, 9)))
    } else if has_prefix(line, "dst_parent=") {
        Some((Field::DstParent, chars_from(line, 11)))
    } else if has_prefix(line, "dst_name=") {
        Some((Field::DstName, chars_from(line, 9)))
    } else if has_prefix(line, "child=") {
        Some((Field::Child, chars_from(line, 6)))
    } else if has_prefix(line, "inode=") {
        Some((Field::Inode, chars_from(line, 6)))
    } else if has_prefix(line, "displaced=") {
        Some((Field::Displaced, chars_from(line, 10)))
    } else if has_prefix(line, "is_dir=") {
        Some((Field::IsDir, chars_from(line, 7)))
    } else {
        None
    }
}

// ---------------------------------------------------------------------------
// Values
// ---------------------------------------------------------------------------

/// A field with its value decoded; `None` where the value is malformed.
#[derive(Debug)]
pub enum FieldValue {
    SrcParent(Option<Uuid>),
    SrcName(Option<Vec<u8>>),
    DstParent(Option<Uuid>),
    DstName(Option<Vec<u8>>),
    Child(Option<Uuid>),
    Inode(Option<Vec<u8>>),
    Displaced(Option<Uuid>),
    IsDir(bool),
}

/// The mathematical value of a [`FieldValue`].
pub enum Value {
    SrcParent(Option<Uuid>),
    SrcName(Option<Seq<u8>>),
    DstParent(Option<Uuid>),
    DstName(Option<Seq<u8>>),
    Child(Option<Uuid>),
    Inode(Option<Seq<u8>>),
    Displaced(Option<Uuid>),
    IsDir(bool),
}

impl View for FieldValue {
    type V = Value;

    open spec fn view(&self) -> Value {
        match *self {
            FieldValue::SrcParent(u) => Value::SrcParent(u),
            FieldValue::SrcName(b) => Value::SrcName(opt_bytes(b)),
            FieldValue::DstParent(u) => Value::DstParent(u),
            FieldValue::DstName(b) => Value::DstName(opt_bytes(b)),
            FieldValue::Child(u) => Value::Child(u),
            FieldValue::Inode(b) => Value::Inode(opt_bytes(b)),
            FieldValue::Displaced(u) => Value::Displaced(u),
            FieldValue::IsDir(d) => Value::IsDir(d),
        }
    }
}


pub open spec fn field_values(s: Seq<FieldValue>) -> Seq<Value> {
    s.map_values(|v: FieldValue| v@)
}

pub open spec fn uuid_in(v: Seq<char>) -> Option<Uuid> {
    match uuid_parsed(v) {
        Some(bits) => Some(Uuid { bits }),
        None => None,
    }
}

/// What the text `v` says of the field: a UUID as such, names and bytes in
/// base64, a flag as `1`.
pub open spec fn value_in(f: Field, v: Seq<char>) -> Value {
    match f {
        Field::SrcParent => Value::SrcParent(uuid_in(v)),
        Field::SrcName => Value::SrcName(std_base64_decoded(v)),
        Field::DstParent => Value::DstParent(uuid_in(v)),
        Field::DstName => Value::DstName(std_base64_decoded(v)),
        Field::Child => Value::Child(uuid_in(v)),
        Field::Inode => Value::Inode(std_base64_decoded(v)),
        Field::Displaced => Value::Displaced(uuid_in(v)),
        Field::IsDir => Value::IsDir(v == "1"@),
    }
}

/// What the lines of an intent say, in their order. Lines that hold no field
/// are passed over.
pub open spec fn line_values(ls: Seq<Seq<char>>) -> Seq<Value>
    decreases ls.len(),
{
    if ls.len() == 0 {
        seq![]
    } else {
        match field_of(ls.last()) {
            Some((f, v)) => line_values(ls.drop_last()).push(value_in(f, v)),
            None => line_values(ls.drop_last()),
        }
    }
}

/// One line further.
proof fn lemma_value_step(ls: Seq<Seq<char>>, f: Field, v: Seq<char>)
    ensures
        line_values(ls.push(f.prefix() + v)) == line_values(ls).push(value_in(f, v)),
{
    lemma_field_of(f, v);
    assert(ls.push(f.prefix() + v).drop_last() =~= ls);
}

/// Decodes the value of a field.
fn decoded(field: Field, v: &[char]) -> (r: FieldValue)
    ensures
        r@ == value_in(field, v@),
{
    let s: String = string_of(v);
    match field {
        Field::SrcParent => FieldValue::SrcParent(Uuid::parse_str(s.as_str())),
        Field::SrcName => FieldValue::SrcName(decode_std(s.as_str())),
        Field::DstParent => FieldValue::DstParent(Uuid::parse_str(s.as_str())),
        Field::DstName => FieldValue::DstName(decode_std(s.as_str())),
        Field::Child => FieldValue::Child(Uuid::parse_str(s.as_str())),
        Field::Inode => FieldValue::Inode(decode_std(s.as_str())),
        Field::Displaced => FieldValue::Displaced(Uuid::parse_str(s.as_str())),
        Field::IsDir => FieldValue::IsDir(same_text(s.as_str(), "1")),
    }
}

/// The fields that the lines of a text hold, decoded.
fn fields_in(text: &str) -> (r: Vec<FieldValue>)
    ensures
        field_values(r@) == line_values(lines(text@)),
{
    let cs: Vec<char> = chars_of(text);
    let ls: Vec<Vec<char>> = lines_of(cs.as_slice());
    let ghost all = lines(text@);
    let mut out: Vec<FieldValue> = Vec::new();
    assert(field_values(out@) =~= line_values(all.take(0)));
    for i in 0..ls.len()
        invariant
            texts(ls@) == all,
            field_values(out@) == line_values(all.take(i as int)),
    {
        let ghost before = field_values(out@);
        assert(all.take(i + 1).drop_last() =~= all.take(i as int));
        assert(all.take(i + 1).last() == texts(ls@)[i as int]);
        assert(texts(ls@)[i as int] == ls@[i as int]@);
        match field_in(ls[i].as_slice()) {
            Some((f, v)) => {
                let value: FieldValue = decoded(f, v.as_slice());
                out.push(value);
                assert(field_values(out@) =~= before.push(value@));
            },
            None => {},
        }
    }
    assert(all.take(all.len() as int) =~= all);
    out
}

pub open spec fn uuid_field(u: Option<Uuid>) -> Result<Uuid, Error> {
    match u {
        Some(x) => Ok(x),
        None => Err(Error::IntentBadUuid),
    }
}

pub open spec fn bytes_field(b: Option<Seq<u8>>) -> Result<Seq<u8>, Error> {
    match b {
        Some(x) => Ok(x),
        None => Err(Error::IntentBadBase64),
    }
}

pub open spec fn name_field(b: Option<Seq<u8>>) -> Result<Seq<char>, Error> {
    match b {
        Some(x) => if valid_utf8(x) {
            Ok(decode_utf8(x))
        } else {
            Err(Error::IntentBadName)
        },
        None => Err(Error::IntentBadBase64),
    }
}

fn take_uuid(u: &Option<Uuid>) -> (r: Result<Uuid, Error>)
    ensures
        r == uuid_field(*u),
{
    match u {
        Some(x) => Ok(*x),
        None => Err(Error::IntentBadUuid),
    }
}

fn take_bytes(b: &Option<Vec<u8>>) -> (r: Result<Vec<u8>, Error>)
    ensures
        match bytes_field(opt_bytes(*b)) {
            Ok(x) => r matches Ok(w) && w@ == x,
            Err(e) => r == Err::<Vec<u8>, Error>(e),
        },
{
    match b {
        Some(x) => Ok(slice_to_vec(x.as_slice())),
        None => Err(Error::IntentBadBase64),
    }
}

fn take_name(b: &Option<Vec<u8>>) -> (r: Result<String, Error>)
    ensures
        match name_field(opt_bytes(*b)) {
            Ok(n) => r matches Ok(w) && w@ == n,
            Err(e) => r == Err::<String, Error>(e),
        },
{
    match b {
        Some(x) => match utf8_text(slice_to_vec(x.as_slice())) {
            Some(n) => Ok(n),
            None => Err(Error::IntentBadName),
        },
        None => Err(Error::IntentBadBase64),
    }
}

// ---------------------------------------------------------------------------
// Rename intents
// ---------------------------------------------------------------------------

/// The line that stores a field.
pub open spec fn field_line(f: Field, v: Seq<char>) -> Seq<char> {
    (f.prefix() + v).push('\n')
}

/// The text of a rename intent.
pub open spec fn rename_text(i: Rename) -> Seq<char> {
    field_line(Field::SrcParent, uuid_text(i.src_parent.bits)) + field_line(
        Field::SrcName,
        std_base64(encode_utf8(i.src_name)),
    ) + field_line(Field::DstParent, uuid_text(i.dst_parent.bits)) + field_line(
        Field::DstName,
        std_base64(encode_utf8(i.dst_name)),
    ) + field_line(Field::Child, uuid_text(i.child.bits)) + field_line(Field::Inode, std_base64(i.inode))
}

/// What has been read of a rename intent.
pub struct RenameFields {
    pub src_parent: Option<Uuid>,
    pub src_name: Option<Seq<char>>,
    pub dst_parent: Option<Uuid>,
    pub dst_name: Option<Seq<char>>,
    pub child: Option<Uuid>,
    pub inode: Option<Seq<u8>>,
}

/// What is known after one more field. A malformed value is an error; the last
/// value of each field counts; other fields are passed over.
pub open spec fn rename_value(f: RenameFields, v: Value) -> Result<RenameFields, Error> {
    match v {
        Value::SrcParent(u) => match uuid_field(u) {
            Ok(x) => Ok(RenameFields { src_parent: Some(x), ..f }),
            Err(e) => Err(e),
        },
        Value::SrcName(b) => match name_field(b) {
            Ok(x) => Ok(RenameFields { src_name: Some(x), ..f }),
            Err(e) => Err(e),
        },
        Value::DstParent(u) => match uuid_field(u) {
            Ok(x) => Ok(RenameFields { dst_parent: Some(x), ..f }),
            Err(e) => Err(e),
        },
        Value::DstName(b) => match name_field(b) {
            Ok(x) => Ok(RenameFields { dst_name: Some(x), ..f }),
            Err(e) => Err(e),
        },
        Value::Child(u) => match uuid_field(u) {
            Ok(x) => Ok(RenameFields { child: Some(x), ..f }),
            Err(e) => Err(e),
        },
        Value::Inode(b) => match bytes_field(b) {
            Ok(x) => Ok(RenameFields { inode: Some(x), ..f }),
            Err(e) => Err(e),
        },
        Value::Displaced(_) | Value::IsDir(_) => Ok(f),
    }
}

pub open spec fn no_rename_fields() -> RenameFields {
    RenameFields { src_parent: None, src_name: None, dst_parent: None, dst_name: None, child: None, inode: None }
}

/// What the fields of a rename intent say.
pub open spec fn rename_fields(vs: Seq<Value>) -> Result<RenameFields, Error>
    decreases vs.len(),
{
    if vs.len() == 0 {
        Ok(no_rename_fields())
    } else {
        match rename_fields(vs.drop_last()) {
            Ok(f) => rename_value(f, vs.last()),
            Err(e) => Err(e),
        }
    }
}

/// The rename intent that some fields give: the first malformed value is the
/// error; without one, each field has to be there.
pub open spec fn rename_from(vs: Seq<Value>) -> Result<Rename, Error> {
    match rename_fields(vs) {
        Err(e) => Err(e),
        Ok(f) => match (f.src_parent, f.src_name, f.dst_parent, f.dst_name, f.child, f.inode) {
            (Some(src_parent), Some(src_name), Some(dst_parent), Some(dst_name), Some(child), Some(inode)) => Ok(
                Rename { src_parent, src_name, dst_parent, dst_name, child, inode },
            ),
            _ => Err(Error::IntentIncomplete),
        },
    }
}

/// The rename intent that a body gives.
pub open spec fn rename_of(buf: Seq<u8>) -> Result<Rename, Error> {
    if !valid_utf8(buf) {
        Err(Error::IntentNotText)
    } else {
        rename_from(line_values(lines(decode_utf8(buf))))
    }
}

/// The value stands in a line by itself: no line break, and none at its end.
pub open spec fn plain_value(v: Seq<char>) -> bool {
    forall|i: int| 0 <= i < v.len() ==> #[trigger] v[i] != '\n' && v[i] != '\r'
}

/// The lines of a text that begins with a field's line.
proof fn lemma_field_line(f: Field, v: Seq<char>, rest: Seq<char>)
    requires
        plain_value(v),
    ensures
        lines(field_line(f, v) + rest) == seq![f.prefix() + v] + lines(rest),
{
    reveal_prefixes();
    let a = f.prefix() + v;
    assert forall|i: int| 0 <= i < a.len() implies a[i] != '\n' && a[i] != '\r' by {
        if i >= f.prefix().len() {
            assert(a[i] == v[i - f.prefix().len()]);
        }
    }
    assert(strip_cr(a) == a);
    lemma_lines_first(a, rest);
}

proof fn lemma_uuid_plain(bits: u128)
    ensures
        plain_value(uuid_text(bits)),
{
    lemma_uuid_text(bits);
    assert forall|i: int| 0 <= i < uuid_text(bits).len() implies #[trigger] uuid_text(bits)[i] != '\n' && uuid_text(
        bits,
    )[i] != '\r' by {
        assert(key_char(uuid_text(bits)[i]));
    }
}

/// Base64 text written here reads back as the bytes and has no line breaks.
pub open spec fn base64_ok(b: Seq<u8>) -> bool {
    std_base64_decoded(std_base64(b)) == Some(b) && plain_value(std_base64(b))
}

/// A UUID written here reads back as itself.
pub open spec fn uuid_reads_back(u: Uuid) -> bool {
    uuid_parsed(uuid_text(u.bits)) == Some(u.bits)
}

proof fn lemma_name_value(n: Seq<char>)
    requires
        base64_ok(encode_utf8(n)),
    ensures
        name_field(std_base64_decoded(std_base64(encode_utf8(n)))) == Ok::<Seq<char>, Error>(n),
{
    vstd::utf8::encode_utf8_valid_utf8(n);
    vstd::utf8::encode_utf8_decode_utf8(n);
}

/// Texts put together in either order of grouping are the same.
proof fn lemma_regroup(a: Seq<char>, b: Seq<char>, c: Seq<char>, d: Seq<char>, e: Seq<char>, f: Seq<char>)
    ensures
        a + b + c + d + e + f == a + (b + (c + (d + (e + (f + Seq::<char>::empty()))))),
{
    assert(f + Seq::<char>::empty() =~= f);
    assert(a + b + c + d + e + f =~= a + (b + (c + (d + (e + f)))));
}

/// The lines of a rename intent's text are one per field.
proof fn lemma_rename_lines(i: Rename)
    requires
        base64_ok(encode_utf8(i.src_name)),
        base64_ok(encode_utf8(i.dst_name)),
        base64_ok(i.inode),
    ensures
        lines(rename_text(i)) == seq![
            Field::SrcParent.prefix() + uuid_text(i.src_parent.bits),
            Field::SrcName.prefix() + std_base64(encode_utf8(i.src_name)),
            Field::DstParent.prefix() + uuid_text(i.dst_parent.bits),
            Field::DstName.prefix() + std_base64(encode_utf8(i.dst_name)),
            Field::Child.prefix() + uuid_text(i.child.bits),
            Field::Inode.prefix() + std_base64(i.inode),
        ],
{
    let v1 = uuid_text(i.src_parent.bits);
    let v2 = std_base64(encode_utf8(i.src_name));
    let v3 = uuid_text(i.dst_parent.bits);
    let v4 = std_base64(encode_utf8(i.dst_name));
    let v5 = uuid_text(i.child.bits);
    let v6 = std_base64(i.inode);
    let l1 = field_line(Field::SrcParent, v1);
    let l2 = field_line(Field::SrcName, v2);
    let l3 = field_line(Field::DstParent, v3);
    let l4 = field_line(Field::DstName, v4);
    let l5 = field_line(Field::Child, v5);
    let l6 = field_line(Field::Inode, v6);
    let e = Seq::<char>::empty();
    lemma_regroup(l1, l2, l3, l4, l5, l6);
    lemma_uuid_plain(i.src_parent.bits);
    lemma_uuid_plain(i.dst_parent.bits);
    lemma_uuid_plain(i.child.bits);
    lemma_field_line(Field::Inode, v6, e);
    lemma_field_line(Field::Child, v5, l6 + e);
    lemma_field_line(Field::DstName, v4, l5 + (l6 + e));
    lemma_field_line(Field::DstParent, v3, l4 + (l5 + (l6 + e)));
    lemma_field_line(Field::SrcName, v2, l3 + (l4 + (l5 + (l6 + e))));
    lemma_field_line(Field::SrcParent, v1, l2 + (l3 + (l4 + (l5 + (l6 + e)))));
    assert(lines(e) =~= seq![]);
    assert(lines(rename_text(i)) =~= seq![
        Field::SrcParent.prefix() + v1,
        Field::SrcName.prefix() + v2,
        Field::DstParent.prefix() + v3,
        Field::DstName.prefix() + v4,
        Field::Child.prefix() + v5,
        Field::Inode.prefix() + v6,
    ]);
}

/// What the fields say, one field further.
proof fn lemma_rename_step(vs: Seq<Value>, v: Value, f: RenameFields)
    requires
        rename_fields(vs) == Ok::<RenameFields, Error>(f),
    ensures
        rename_fields(vs.push(v)) == rename_value(f, v),
{
    assert(vs.push(v).drop_last() =~= vs);
}

proof fn lemma_rename_round_trip(i: Rename)
    requires
        uuid_reads_back(i.src_parent),
        uuid_reads_back(i.dst_parent),
        uuid_reads_back(i.child),
        base64_ok(encode_utf8(i.src_name)),
        base64_ok(encode_utf8(i.dst_name)),
        base64_ok(i.inode),
    ensures
        rename_of(encode_utf8(rename_text(i))) == Ok::<Rename, Error>(i),
{
    let v1 = uuid_text(i.src_parent.bits);
    let v2 = std_base64(encode_utf8(i.src_name));
    let v3 = uuid_text(i.dst_parent.bits);
    let v4 = std_base64(encode_utf8(i.dst_name));
    let v5 = uuid_text(i.child.bits);
    let v6 = std_base64(i.inode);
    let text = rename_text(i);
    lemma_rename_lines(i);
    lemma_name_value(i.src_name);
    lemma_name_value(i.dst_name);
    let f0 = no_rename_fields();
    let f1 = RenameFields { src_parent: Some(i.src_parent), ..f0 };
    let f2 = RenameFields { src_name: Some(i.src_name), ..f1 };
    let f3 = RenameFields { dst_parent: Some(i.dst_parent), ..f2 };
    let f4 = RenameFields { dst_name: Some(i.dst_name), ..f3 };
    let f5 = RenameFields { child: Some(i.child), ..f4 };
    let s0 = Seq::<Seq<char>>::empty();
    let s1 = s0.push(Field::SrcParent.prefix() + v1);
    let s2 = s1.push(Field::SrcName.prefix() + v2);
    let s3 = s2.push(Field::DstParent.prefix() + v3);
    let s4 = s3.push(Field::DstName.prefix() + v4);
    let s5 = s4.push(Field::Child.prefix() + v5);
    let s6 = s5.push(Field::Inode.prefix() + v6);
    let w0 = Seq::<Value>::empty();
    let w1 = w0.push(value_in(Field::SrcParent, v1));
    let w2 = w1.push(value_in(Field::SrcName, v2));
    let w3 = w2.push(value_in(Field::DstParent, v3));
    let w4 = w3.push(value_in(Field::DstName, v4));
    let w5 = w4.push(value_in(Field::Child, v5));
    let w6 = w5.push(value_in(Field::Inode, v6));
    assert(line_values(s0) =~= w0);
    lemma_value_step(s0, Field::SrcParent, v1);
    lemma_value_step(s1, Field::SrcName, v2);
    lemma_value_step(s2, Field::DstParent, v3);
    lemma_value_step(s3, Field::DstName, v4);
    lemma_value_step(s4, Field::Child, v5);
    lemma_value_step(s5, Field::Inode, v6);
    lemma_rename_step(w0, value_in(Field::SrcParent, v1), f0);
    lemma_rename_step(w1, value_in(Field::SrcName, v2), f1);
    lemma_rename_step(w2, value_in(Field::DstParent, v3), f2);
    lemma_rename_step(w3, value_in(Field::DstName, v4), f3);
    lemma_rename_step(w4, value_in(Field::Child, v5), f4);
    lemma_rename_step(w5, value_in(Field::Inode, v6), f5);
    assert(lines(text) =~= s6);
    vstd::utf8::encode_utf8_valid_utf8(text);
    vstd::utf8::encode_utf8_decode_utf8(text);
}

/// Appends the line of a field.
fn push_field(s: &mut String, prefix: &str, v: &str)
    ensures
        final(s)@ == old(s)@ + (prefix@ + v@).push('\n'),
{
    let ghost before = s@;
    push_text(s, prefix);
    push_text(s, v);
    s.push('\n');
    assert(s@ =~= before + (prefix@ + v@).push('\n'));
}

/// Base64 of some bytes, with what the round trip of an intent needs of it.
fn base64_value(b: &[u8]) -> (r: String)
    ensures
        r@ == std_base64(b@),
        base64_ok(b@),
{
    let r: String = encode_std(b);
    assert forall|i: int| 0 <= i < r@.len() implies #[trigger] r@[i] != '\n' && r@[i] != '\r' by {
        assert(standard_symbol(r@[i]));
    }
    r
}

impl RenameIntent {
    /// The body of the intent object; it reads back as this intent.
    pub fn serialize(&self) -> (r: String)
        ensures
            r@ == rename_text(self@),
            rename_of(encode_utf8(r@)) == Ok::<Rename, Error>(self@),
    {
        let mut s: String = String::new();
        let src_parent: String = self.src_parent.to_text();
        let src_name: String = base64_value(self.src_name.as_str().as_bytes());
        let dst_parent: String = self.dst_parent.to_text();
        let dst_name: String = base64_value(self.dst_name.as_str().as_bytes());
        let child: String = self.child.to_text();
        let inode: String = base64_value(self.inode.as_slice());
        push_field(&mut s, "src_parent=", src_parent.as_str());
        push_field(&mut s, "src_name=", src_name.as_str());
        push_field(&mut s, "dst_parent=", dst_parent.as_str());
        push_field(&mut s, "dst_name=", dst_name.as_str());
        push_field(&mut s, "child=", child.as_str());
        push_field(&mut s, "inode=", inode.as_str());
        assert(s@ =~= rename_text(self@));
        proof {
            lemma_rename_round_trip(self@);
        }
        s
    }

    /// The rename intent that some fields give, in their order.
    pub fn from_fields(fields: &Vec<FieldValue>) -> (r: Result<RenameIntent, Error>)
        ensures
            match rename_from(field_values(fields@)) {
                Ok(i) => r matches Ok(w) && w@ == i,
                Err(e) => r == Err::<RenameIntent, Error>(e),
            },
    {
        let ghost all = field_values(fields@);
        let mut d: RenameDraft = RenameDraft {
            src_parent: None,
            src_name: None,
            dst_parent: None,
            dst_name: None,
            child: None,
            inode: None,
        };
        for i in 0..fields.len()
            invariant
                all == field_values(fields@),
                rename_fields(all.take(i as int)) == Ok::<RenameFields, Error>(d@),
        {
            assert(all.take(i + 1).drop_last() =~= all.take(i as int));
            assert(all.take(i + 1).last() == fields@[i as int]@);
            match d.take(&fields[i]) {
                Ok(()) => {},
                Err(e) => {
                    proof {
                        lemma_rename_error(all, i + 1);
                    }
                    return Err(e);
                },
            }
        }
        assert(all.take(all.len() as int) =~= all);
        match (d.src_parent, d.src_name, d.dst_parent, d.dst_name, d.child, d.inode) {
            (Some(src_parent), Some(src_name), Some(dst_parent), Some(dst_name), Some(child), Some(inode)) => Ok(
                RenameIntent { src_parent, src_name, dst_parent, dst_name, child, inode },
            ),
            _ => Err(Error::IntentIncomplete),
        }
    }

    /// The rename intent that a body gives.
    pub fn parse(buf: &[u8]) -> (r: Result<RenameIntent, Error>)
        ensures
            match rename_of(buf@) {
                Ok(i) => r matches Ok(w) && w@ == i,
                Err(e) => r == Err::<RenameIntent, Error>(e),
            },
    {
        match utf8_text(slice_to_vec(buf)) {
            Some(s) => RenameIntent::from_fields(&fields_in(s.as_str())),
            None => Err(Error::IntentNotText),
        }
    }
}

/// What has been read of a rename intent.
struct RenameDraft {
    src_parent: Option<Uuid>,
    src_name: Option<String>,
    dst_parent: Option<Uuid>,
    dst_name: Option<String>,
    child: Option<Uuid>,
    inode: Option<Vec<u8>>,
}

impl View for RenameDraft {
    type V = RenameFields;

    closed spec fn view(&self) -> RenameFields {
        RenameFields {
            src_parent: self.src_parent,
            src_name: opt_text(self.src_name),
            dst_parent: self.dst_parent,
            dst_name: opt_text(self.dst_name),
            child: self.child,
            inode: opt_bytes(self.inode),
        }
    }
}

impl RenameDraft {
    /// Takes in one more field.
    fn take(&mut self, field: &FieldValue) -> (r: Result<(), Error>)
        ensures
            match rename_value(old(self)@, field@) {
                Ok(f) => r is Ok && final(self)@ == f,
                Err(e) => r == Err::<(), Error>(e),
            },
    {
        match field {
            FieldValue::SrcParent(u) => {
                self.src_parent = Some(take_uuid(u)?);
            },
            FieldValue::SrcName(b) => {
                self.src_name = Some(take_name(b)?);
            },
            FieldValue::DstParent(u) => {
                self.dst_parent = Some(take_uuid(u)?);
            },
            FieldValue::DstName(b) => {
                self.dst_name = Some(take_name(b)?);
            },
            FieldValue::Child(u) => {
                self.child = Some(take_uuid(u)?);
            },
            FieldValue::Inode(b) => {
                self.inode = Some(take_bytes(b)?);
            },
            FieldValue::Displaced(_) | FieldValue::IsDir(_) => {},
        }
        Ok(())
    }
}

pub open spec fn opt_text(s: Option<String>) -> Option<Seq<char>> {
    match s {
        Some(t) => Some(t@),
        None => None,
    }
}


/// An error in an early field is the error of the whole.
proof fn lemma_rename_error(ls: Seq<Value>, n: int)
    requires
        0 <= n <= ls.len(),
        rename_fields(ls.take(n)) is Err,
    ensures
        rename_fields(ls) == rename_fields(ls.take(n)),
    decreases ls.len() - n,
{
    if n < ls.len() {
        assert(ls.take(n + 1).drop_last() =~= ls.take(n));
        lemma_rename_error(ls, n + 1);
    } else {
        assert(ls.take(n) =~= ls);
    }
}

// ---------------------------------------------------------------------------
// Reclaim intents
// ---------------------------------------------------------------------------

pub open spec fn flag_text(b: bool) -> Seq<char> {
    if b {
        "1"@
    } else {
        "0"@
    }
}

/// The text of a reclaim intent.
pub open spec fn reclaim_text(i: Reclaim) -> Seq<char> {
    field_line(Field::DstParent, uuid_text(i.dst_parent.bits)) + field_line(
        Field::DstName,
        std_base64(encode_utf8(i.dst_name)),
    ) + field_line(Field::Displaced, uuid_text(i.displaced.bits)) + field_line(
        Field::IsDir,
        flag_text(i.displaced_is_dir),
    )
}

/// What has been read of a reclaim intent. A directory is one that says so.
pub struct ReclaimFields {
    pub dst_parent: Option<Uuid>,
    pub dst_name: Option<Seq<char>>,
    pub displaced: Option<Uuid>,
    pub is_dir: bool,
}

/// What is known after one more field. A malformed value is an error; the last
/// value of each field counts; other fields are passed over.
pub open spec fn reclaim_value(f: ReclaimFields, v: Value) -> Result<ReclaimFields, Error> {
    match v {
        Value::DstParent(u) => match uuid_field(u) {
            Ok(x) => Ok(ReclaimFields { dst_parent: Some(x), ..f }),
            Err(e) => Err(e),
        },
        Value::DstName(b) => match name_field(b) {
            Ok(x) => Ok(ReclaimFields { dst_name: Some(x), ..f }),
            Err(e) => Err(e),
        },
        Value::Displaced(u) => match uuid_field(u) {
            Ok(x) => Ok(ReclaimFields { displaced: Some(x), ..f }),
            Err(e) => Err(e),
        },
        Value::IsDir(d) => Ok(ReclaimFields { is_dir: d, ..f }),
        Value::SrcParent(_) | Value::SrcName(_) | Value::Child(_) | Value::Inode(_) => Ok(f),
    }
}

pub open spec fn no_reclaim_fields() -> ReclaimFields {
    ReclaimFields { dst_parent: None, dst_name: None, displaced: None, is_dir: false }
}

/// What the fields of a reclaim intent say.
pub open spec fn reclaim_fields(vs: Seq<Value>) -> Result<ReclaimFields, Error>
    decreases vs.len(),
{
    if vs.len() == 0 {
        Ok(no_reclaim_fields())
    } else {
        match reclaim_fields(vs.drop_last()) {
            Ok(f) => reclaim_value(f, vs.last()),
            Err(e) => Err(e),
        }
    }
}

/// The reclaim intent that some fields give: the first malformed value is the
/// error; without one, each field but the flag has to be there.
pub open spec fn reclaim_from(vs: Seq<Value>) -> Result<Reclaim, Error> {
    match reclaim_fields(vs) {
        Err(e) => Err(e),
        Ok(f) => match (f.dst_parent, f.dst_name, f.displaced) {
            (Some(dst_parent), Some(dst_name), Some(displaced)) => Ok(
                Reclaim { dst_parent, dst_name, displaced, displaced_is_dir: f.is_dir },
            ),
            _ => Err(Error::IntentIncomplete),
        },
    }
}

/// The reclaim intent that a body gives.
pub open spec fn reclaim_of(buf: Seq<u8>) -> Result<Reclaim, Error> {
    if !valid_utf8(buf) {
        Err(Error::IntentNotText)
    } else {
        reclaim_from(line_values(lines(decode_utf8(buf))))
    }
}

proof fn lemma_reclaim_error(vs: Seq<Value>, n: int)
    requires
        0 <= n <= vs.len(),
        reclaim_fields(vs.take(n)) is Err,
    ensures
        reclaim_fields(vs) == reclaim_fields(vs.take(n)),
    decreases vs.len() - n,
{
    if n < vs.len() {
        assert(vs.take(n + 1).drop_last() =~= vs.take(n));
        lemma_reclaim_error(vs, n + 1);
    } else {
        assert(vs.take(n) =~= vs);
    }
}

proof fn lemma_reclaim_step(vs: Seq<Value>, v: Value, f: ReclaimFields)
    requires
        reclaim_fields(vs) == Ok::<ReclaimFields, Error>(f),
    ensures
        reclaim_fields(vs.push(v)) == reclaim_value(f, v),
{
    assert(vs.push(v).drop_last() =~= vs);
}

proof fn lemma_reclaim_lines(i: Reclaim)
    requires
        base64_ok(encode_utf8(i.dst_name)),
    ensures
        lines(reclaim_text(i)) == seq![
            Field::DstParent.prefix() + uuid_text(i.dst_parent.bits),
            Field::DstName.prefix() + std_base64(encode_utf8(i.dst_name)),
            Field::Displaced.prefix() + uuid_text(i.displaced.bits),
            Field::IsDir.prefix() + flag_text(i.displaced_is_dir),
        ],
{
    reveal_strlit("0");
    reveal_strlit("1");
    let v1 = uuid_text(i.dst_parent.bits);
    let v2 = std_base64(encode_utf8(i.dst_name));
    let v3 = uuid_text(i.displaced.bits);
    let v4 = flag_text(i.displaced_is_dir);
    let l1 = field_line(Field::DstParent, v1);
    let l2 = field_line(Field::DstName, v2);
    let l3 = field_line(Field::Displaced, v3);
    let l4 = field_line(Field::IsDir, v4);
    let e = Seq::<char>::empty();
    assert(l4 + e =~= l4);
    assert(reclaim_text(i) =~= l1 + (l2 + (l3 + (l4 + e))));
    lemma_uuid_plain(i.dst_parent.bits);
    lemma_uuid_plain(i.displaced.bits);
    lemma_field_line(Field::IsDir, v4, e);
    lemma_field_line(Field::Displaced, v3, l4 + e);
    lemma_field_line(Field::DstName, v2, l3 + (l4 + e));
    lemma_field_line(Field::DstParent, v1, l2 + (l3 + (l4 + e)));
    assert(lines(e) =~= seq![]);
    assert(lines(reclaim_text(i)) =~= seq![
        Field::DstParent.prefix() + v1,
        Field::DstName.prefix() + v2,
        Field::Displaced.prefix() + v3,
        Field::IsDir.prefix() + v4,
    ]);
}

proof fn lemma_reclaim_round_trip(i: Reclaim)
    requires
        uuid_reads_back(i.dst_parent),
        uuid_reads_back(i.displaced),
        base64_ok(encode_utf8(i.dst_name)),
    ensures
        reclaim_of(encode_utf8(reclaim_text(i))) == Ok::<Reclaim, Error>(i),
{
    reveal_strlit("0");
    reveal_strlit("1");
    let v1 = uuid_text(i.dst_parent.bits);
    let v2 = std_base64(encode_utf8(i.dst_name));
    let v3 = uuid_text(i.displaced.bits);
    let v4 = flag_text(i.displaced_is_dir);
    let text = reclaim_text(i);
    lemma_reclaim_lines(i);
    lemma_name_value(i.dst_name);
    assert("0"@[0] != "1"@[0]);
    let f0 = no_reclaim_fields();
    let f1 = ReclaimFields { dst_parent: Some(i.dst_parent), ..f0 };
    let f2 = ReclaimFields { dst_name: Some(i.dst_name), ..f1 };
    let f3 = ReclaimFields { displaced: Some(i.displaced), ..f2 };
    let s0 = Seq::<Seq<char>>::empty();
    let s1 = s0.push(Field::DstParent.prefix() + v1);
    let s2 = s1.push(Field::DstName.prefix() + v2);
    let s3 = s2.push(Field::Displaced.prefix() + v3);
    let s4 = s3.push(Field::IsDir.prefix() + v4);
    let w0 = Seq::<Value>::empty();
    let w1 = w0.push(value_in(Field::DstParent, v1));
    let w2 = w1.push(value_in(Field::DstName, v2));
    let w3 = w2.push(value_in(Field::Displaced, v3));
    let w4 = w3.push(value_in(Field::IsDir, v4));
    assert(line_values(s0) =~= w0);
    lemma_value_step(s0, Field::DstParent, v1);
    lemma_value_step(s1, Field::DstName, v2);
    lemma_value_step(s2, Field::Displaced, v3);
    lemma_value_step(s3, Field::IsDir, v4);
    lemma_reclaim_step(w0, value_in(Field::DstParent, v1), f0);
    lemma_reclaim_step(w1, value_in(Field::DstName, v2), f1);
    lemma_reclaim_step(w2, value_in(Field::Displaced, v3), f2);
    lemma_reclaim_step(w3, value_in(Field::IsDir, v4), f3);
    assert(lines(text) =~= s4);
    vstd::utf8::encode_utf8_valid_utf8(text);
    vstd::utf8::encode_utf8_decode_utf8(text);
}

impl ReclaimIntent {
    /// The body of the intent object; it reads back as this intent.
    pub fn serialize(&self) -> (r: String)
        ensures
            r@ == reclaim_text(self@),
            reclaim_of(encode_utf8(r@)) == Ok::<Reclaim, Error>(self@),
    {
        let mut s: String = String::new();
        let dst_parent: String = self.dst_parent.to_text();
        let dst_name: String = base64_value(self.dst_name.as_str().as_bytes());
        let displaced: String = self.displaced.to_text();
        push_field(&mut s, "dst_parent=", dst_parent.as_str());
        push_field(&mut s, "dst_name=", dst_name.as_str());
        push_field(&mut s, "displaced=", displaced.as_str());
        if self.displaced_is_dir {
            push_field(&mut s, "is_dir=", "1");
        } else {
            push_field(&mut s, "is_dir=", "0");
        }
        assert(s@ =~= reclaim_text(self@));
        proof {
            lemma_reclaim_round_trip(self@);
        }
        s
    }

    /// The reclaim intent that some fields give, in their order.
    pub fn from_fields(fields: &Vec<FieldValue>) -> (r: Result<ReclaimIntent, Error>)
        ensures
            match reclaim_from(field_values(fields@)) {
                Ok(i) => r matches Ok(w) && w@ == i,
                Err(e) => r == Err::<ReclaimIntent, Error>(e),
            },
    {
        let ghost all = field_values(fields@);
        let mut d: ReclaimDraft = ReclaimDraft { dst_parent: None, dst_name: None, displaced: None, is_dir: false };
        for i in 0..fields.len()
            invariant
                all == field_values(fields@),
                reclaim_fields(all.take(i as int)) == Ok::<ReclaimFields, Error>(d@),
        {
            assert(all.take(i + 1).drop_last() =~= all.take(i as int));
            assert(all.take(i + 1).last() == fields@[i as int]@);
            match d.take(&fields[i]) {
                Ok(()) => {},
                Err(e) => {
                    proof {
                        lemma_reclaim_error(all, i + 1);
                    }
                    return Err(e);
                },
            }
        }
        assert(all.take(all.len() as int) =~= all);
        match (d.dst_parent, d.dst_name, d.displaced) {
            (Some(dst_parent), Some(dst_name), Some(displaced)) => Ok(
                ReclaimIntent { dst_parent, dst_name, displaced, displaced_is_dir: d.is_dir },
            ),
            _ => Err(Error::IntentIncomplete),
        }
    }

    /// The reclaim intent that a body gives.
    pub fn parse(buf: &[u8]) -> (r: Result<ReclaimIntent, Error>)
        ensures
            match reclaim_of(buf@) {
                Ok(i) => r matches Ok(w) && w@ == i,
                Err(e) => r == Err::<ReclaimIntent, Error>(e),
            },
    {
        match utf8_text(slice_to_vec(buf)) {
            Some(s) => ReclaimIntent::from_fields(&fields_in(s.as_str())),
            None => Err(Error::IntentNotText),
        }
    }
}

/// What has been read of a reclaim intent.
struct ReclaimDraft {
    dst_parent: Option<Uuid>,
    dst_name: Option<String>,
    displaced: Option<Uuid>,
    is_dir: bool,
}

impl View for ReclaimDraft {
    type V = ReclaimFields;

    closed spec fn view(&self) -> ReclaimFields {
        ReclaimFields {
            dst_parent: self.dst_parent,
            dst_name: opt_text(self.dst_name),
            displaced: self.displaced,
            is_dir: self.is_dir,
        }
    }
}

impl ReclaimDraft {
    /// Takes in one more field.
    fn take(&mut self, field: &FieldValue) -> (r: Result<(), Error>)
        ensures
            match reclaim_value(old(self)@, field@) {
                Ok(f) => r is Ok && final(self)@ == f,
                Err(e) => r == Err::<(), Error>(e),
            },
    {
        match field {
            FieldValue::DstParent(u) => {
                self.dst_parent = Some(take_uuid(u)?);
            },
            FieldValue::DstName(b) => {
                self.dst_name = Some(take_name(b)?);
            },
            FieldValue::Displaced(u) => {
                self.displaced = Some(take_uuid(u)?);
            },
            FieldValue::IsDir(d) => {
                self.is_dir = *d;
            },
            FieldValue::SrcParent(_) | FieldValue::SrcName(_) | FieldValue::Child(_) | FieldValue::Inode(_) => {},
        }
        Ok(())
    }
}

/// Age past which a reclaim intent counts as abandoned.
pub const RECLAIM_STALE_MS: i64 = 60_000;

/// The identifier in the key of a reclaim intent: the last segment, without
/// the suffix where it has it.
pub open spec fn reclaim_id(key: Seq<char>) -> Seq<char> {
    let last = split(key, '/').last();
    if ends_with(last, ".reclaim"@) {
        last.take(last.len() - ".reclaim"@.len())
    } else {
        last
    }
}

/// A reclaim intent of the identifier is abandoned at `now_ms`, rather than
/// the tail of a rename in flight: it is more than a minute old, or has no
/// identifier that tells its age.
pub open spec fn is_stale_id(id: Option<Ulid>, now_ms: i64) -> bool {
    match id {
        Some(u) => now_ms - u.time_ms() > RECLAIM_STALE_MS,
        None => true,
    }
}

pub fn stale_id(id: Option<Ulid>, now_ms: i64) -> (r: bool)
    ensures
        r == is_stale_id(id, now_ms),
{
    match id {
        Some(u) => now_ms as i128 - u.timestamp_ms() as i128 > RECLAIM_STALE_MS as i128,
        None => true,
    }
}

/// The reclaim intent of the key is abandoned at `now_ms`.
pub open spec fn is_stale(key: Seq<char>, now_ms: i64) -> bool {
    is_stale_id(
        match ulid_parsed(reclaim_id(key)) {
            Some(bits) => Some(Ulid { bits }),
            None => None,
        },
        now_ms,
    )
}

/// Whether a reclaim intent is old enough at `now_ms` to be considered
/// abandoned.
pub fn reclaim_intent_stale(key: &str, now_ms: i64) -> (r: bool)
    ensures
        r == is_stale(key@, now_ms),
{
    let cs: Vec<char> = chars_of(key);
    let parts: Vec<Vec<char>> = split_on(cs.as_slice(), '/');
    let ghost g = split(key@, '/');
    assert(g.len() > 0);
    let last: &Vec<char> = &parts[parts.len() - 1];
    assert(texts(parts@)[parts.len() - 1] == last@);
    assert(last@ == g.last());
    proof {
        reveal_strlit(".reclaim");
    }
    let id: String = if has_suffix(last.as_slice(), ".reclaim") {
        string_of(chars_upto(last.as_slice(), last.len() - 8).as_slice())
    } else {
        string_of(last.as_slice())
    };
    stale_id(Ulid::from_string(id.as_str()), now_ms)
}

// ---------------------------------------------------------------------------
// Laws of fields
// ---------------------------------------------------------------------------

/// The values of intents are what they hold, field by field.
pub proof fn law_intents_are_their_fields(a: RenameIntent, b: ReclaimIntent)
    ensures
        a@.src_parent == a.src_parent,
        a@.src_name == a.src_name@,
        a@.dst_parent == a.dst_parent,
        a@.dst_name == a.dst_name@,
        a@.child == a.child,
        a@.inode == a.inode@,
        b@.dst_parent == b.dst_parent,
        b@.dst_name == b.dst_name@,
        b@.displaced == b.displaced,
        b@.displaced_is_dir == b.displaced_is_dir,
{
}

/// The values of decoded fields are theirs one by one, in order.
pub proof fn law_decoded_fields_are_their_values(v: Seq<FieldValue>, i: int)
    requires
        0 <= i < v.len(),
    ensures
        field_values(v).len() == v.len(),
        field_values(v)[i] == match v[i] {
            FieldValue::SrcParent(u) => Value::SrcParent(u),
            FieldValue::SrcName(Some(b)) => Value::SrcName(Some(b@)),
            FieldValue::SrcName(None) => Value::SrcName(None),
            FieldValue::DstParent(u) => Value::DstParent(u),
            FieldValue::DstName(Some(b)) => Value::DstName(Some(b@)),
            FieldValue::DstName(None) => Value::DstName(None),
            FieldValue::Child(u) => Value::Child(u),
            FieldValue::Inode(Some(b)) => Value::Inode(Some(b@)),
            FieldValue::Inode(None) => Value::Inode(None),
            FieldValue::Displaced(u) => Value::Displaced(u),
            FieldValue::IsDir(d) => Value::IsDir(d),
        },
{
}

/// A line holds a field exactly where it begins with the field's key and an
/// equals sign; what is behind is the value.
pub proof fn law_lines_hold_fields(line: Seq<char>, v: Seq<char>)
    ensures
        field_of("src_parent="@ + v) == Some((Field::SrcParent, v)),
        field_of("src_name="@ + v) == Some((Field::SrcName, v)),
        field_of("dst_parent="@ + v) == Some((Field::DstParent, v)),
        field_of("dst_name="@ + v) == Some((Field::DstName, v)),
        field_of("child="@ + v) == Some((Field::Child, v)),
        field_of("inode="@ + v) == Some((Field::Inode, v)),
        field_of("displaced="@ + v) == Some((Field::Displaced, v)),
        field_of("is_dir="@ + v) == Some((Field::IsDir, v)),
        field_of(line) matches Some((f, w)) ==> line == match f {
            Field::SrcParent => "src_parent="@ + w,
            Field::SrcName => "src_name="@ + w,
            Field::DstParent => "dst_parent="@ + w,
            Field::DstName => "dst_name="@ + w,
            Field::Child => "child="@ + w,
            Field::Inode => "inode="@ + w,
            Field::Displaced => "displaced="@ + w,
            Field::IsDir => "is_dir="@ + w,
        },
{
    lemma_field_of(Field::SrcParent, v);
    lemma_field_of(Field::SrcName, v);
    lemma_field_of(Field::DstParent, v);
    lemma_field_of(Field::DstName, v);
    lemma_field_of(Field::Child, v);
    lemma_field_of(Field::Inode, v);
    lemma_field_of(Field::Displaced, v);
    lemma_field_of(Field::IsDir, v);
    reveal(field_of);
    reveal_prefixes();
    if field_of(line) is Some {
        let (f, w) = field_of(line).unwrap();
        let p = f.prefix();
        assert(line =~= p + line.skip(p.len() as int));
    }
}

/// Values are decoded each in its way: UUIDs as such, names and bytes from
/// base64, a flag by `1`.
pub proof fn law_values_are_decoded(v: Seq<char>)
    ensures
        uuid_in(v) == match uuid_parsed(v) {
            Some(bits) => Some(Uuid { bits }),
            None => None::<Uuid>,
        },
        value_in(Field::SrcParent, v) == Value::SrcParent(uuid_in(v)),
        value_in(Field::SrcName, v) == Value::SrcName(std_base64_decoded(v)),
        value_in(Field::DstParent, v) == Value::DstParent(uuid_in(v)),
        value_in(Field::DstName, v) == Value::DstName(std_base64_decoded(v)),
        value_in(Field::Child, v) == Value::Child(uuid_in(v)),
        value_in(Field::Inode, v) == Value::Inode(std_base64_decoded(v)),
        value_in(Field::Displaced, v) == Value::Displaced(uuid_in(v)),
        value_in(Field::IsDir, seq!['1']) == Value::IsDir(true),
        v != seq!['1'] ==> value_in(Field::IsDir, v) == Value::IsDir(false),
{
    reveal_strlit("1");
    assert("1"@ =~= seq!['1']);
}

/// An intent's body is read line by line, in order; a line without a field says
/// nothing.
pub proof fn law_intents_are_read_line_by_line(ls: Seq<Seq<char>>, line: Seq<char>)
    ensures
        line_values(Seq::<Seq<char>>::empty()) == Seq::<Value>::empty(),
        line_values(ls.push(line)) == match field_of(line) {
            Some((f, v)) => line_values(ls).push(value_in(f, v)),
            None => line_values(ls),
        },
{
    assert(ls.push(line).drop_last() =~= ls);
}

/// A rename intent takes its fields one by one. Each sets its own field and no
/// other, over one before it; what is malformed is an error; and fields of the
/// other kind of intent change nothing.
pub proof fn law_rename_fields_one_by_one(vs: Seq<Value>, f: RenameFields, u: Uuid, b: Seq<u8>, d: bool)
    requires
        rename_fields(vs) == Ok::<RenameFields, Error>(f),
    ensures
        rename_fields(vs.push(Value::SrcParent(Some(u)))) == Ok::<RenameFields, Error>(
            RenameFields { src_parent: Some(u), ..f },
        ),
        rename_fields(vs.push(Value::DstParent(Some(u)))) == Ok::<RenameFields, Error>(
            RenameFields { dst_parent: Some(u), ..f },
        ),
        rename_fields(vs.push(Value::Child(Some(u)))) == Ok::<RenameFields, Error>(
            RenameFields { child: Some(u), ..f },
        ),
        rename_fields(vs.push(Value::Inode(Some(b)))) == Ok::<RenameFields, Error>(
            RenameFields { inode: Some(b), ..f },
        ),
        valid_utf8(b) ==> rename_fields(vs.push(Value::SrcName(Some(b)))) == Ok::<RenameFields, Error>(
            RenameFields { src_name: Some(decode_utf8(b)), ..f },
        ),
        valid_utf8(b) ==> rename_fields(vs.push(Value::DstName(Some(b)))) == Ok::<RenameFields, Error>(
            RenameFields { dst_name: Some(decode_utf8(b)), ..f },
        ),
        !valid_utf8(b) ==> rename_fields(vs.push(Value::SrcName(Some(b)))) == Err::<RenameFields, Error>(
            Error::IntentBadName,
        ),
        !valid_utf8(b) ==> rename_fields(vs.push(Value::DstName(Some(b)))) == Err::<RenameFields, Error>(
            Error::IntentBadName,
        ),
        rename_fields(vs.push(Value::SrcParent(None))) == Err::<RenameFields, Error>(Error::IntentBadUuid),
        rename_fields(vs.push(Value::DstParent(None))) == Err::<RenameFields, Error>(Error::IntentBadUuid),
        rename_fields(vs.push(Value::Child(None))) == Err::<RenameFields, Error>(Error::IntentBadUuid),
        rename_fields(vs.push(Value::SrcName(None))) == Err::<RenameFields, Error>(Error::IntentBadBase64),
        rename_fields(vs.push(Value::DstName(None))) == Err::<RenameFields, Error>(Error::IntentBadBase64),
        rename_fields(vs.push(Value::Inode(None))) == Err::<RenameFields, Error>(Error::IntentBadBase64),
        rename_fields(vs.push(Value::Displaced(Some(u)))) == Ok::<RenameFields, Error>(f),
        rename_fields(vs.push(Value::Displaced(None))) == Ok::<RenameFields, Error>(f),
        rename_fields(vs.push(Value::IsDir(d))) == Ok::<RenameFields, Error>(f),
{
    lemma_rename_step(vs, Value::SrcParent(Some(u)), f);
    lemma_rename_step(vs, Value::DstParent(Some(u)), f);
    lemma_rename_step(vs, Value::Child(Some(u)), f);
    lemma_rename_step(vs, Value::Inode(Some(b)), f);
    lemma_rename_step(vs, Value::SrcName(Some(b)), f);
    lemma_rename_step(vs, Value::DstName(Some(b)), f);
    lemma_rename_step(vs, Value::SrcParent(None), f);
    lemma_rename_step(vs, Value::DstParent(None), f);
    lemma_rename_step(vs, Value::Child(None), f);
    lemma_rename_step(vs, Value::Inode(None), f);
    lemma_rename_step(vs, Value::SrcName(None), f);
    lemma_rename_step(vs, Value::DstName(None), f);
    lemma_rename_step(vs, Value::Displaced(Some(u)), f);
    lemma_rename_step(vs, Value::Displaced(None), f);
    lemma_rename_step(vs, Value::IsDir(d), f);
}

/// A rename intent is there once all six fields are, with just these; one that
/// is missing makes it incomplete, and a malformed one before is the error,
/// whatever follows.
pub proof fn law_rename_intents_are_complete(vs: Seq<Value>, v: Value, i: Rename)
    ensures
        rename_fields(Seq::<Value>::empty()) == Ok::<RenameFields, Error>(
            RenameFields {
                src_parent: None,
                src_name: None,
                dst_parent: None,
                dst_name: None,
                child: None,
                inode: None,
            },
        ),
        rename_fields(vs) matches Err(e) ==> rename_fields(vs.push(v)) == Err::<RenameFields, Error>(e) && rename_from(vs)
            == Err::<Rename, Error>(e),
        rename_fields(vs) matches Ok(f) ==> (rename_from(vs) == Ok::<Rename, Error>(i) <==> f.src_parent == Some(
            i.src_parent,
        ) && f.src_name == Some(i.src_name) && f.dst_parent == Some(i.dst_parent) && f.dst_name == Some(i.dst_name)
            && f.child == Some(i.child) && f.inode == Some(i.inode)),
        rename_fields(vs) matches Ok(f) ==> (f.src_parent is None || f.src_name is None || f.dst_parent is None
            || f.dst_name is None || f.child is None || f.inode is None) ==> rename_from(vs) == Err::<Rename, Error>(
            Error::IntentIncomplete,
        ),
{
    assert(vs.push(v).drop_last() =~= vs);
}

/// A reclaim intent takes its fields one by one in the same way.
pub proof fn law_reclaim_fields_one_by_one(vs: Seq<Value>, f: ReclaimFields, u: Uuid, b: Seq<u8>, d: bool)
    requires
        reclaim_fields(vs) == Ok::<ReclaimFields, Error>(f),
    ensures
        reclaim_fields(vs.push(Value::DstParent(Some(u)))) == Ok::<ReclaimFields, Error>(
            ReclaimFields { dst_parent: Some(u), ..f },
        ),
        reclaim_fields(vs.push(Value::Displaced(Some(u)))) == Ok::<ReclaimFields, Error>(
            ReclaimFields { displaced: Some(u), ..f },
        ),
        reclaim_fields(vs.push(Value::IsDir(d))) == Ok::<ReclaimFields, Error>(ReclaimFields { is_dir: d, ..f }),
        valid_utf8(b) ==> reclaim_fields(vs.push(Value::DstName(Some(b)))) == Ok::<ReclaimFields, Error>(
            ReclaimFields { dst_name: Some(decode_utf8(b)), ..f },
        ),
        !valid_utf8(b) ==> reclaim_fields(vs.push(Value::DstName(Some(b)))) == Err::<ReclaimFields, Error>(
            Error::IntentBadName,
        ),
        reclaim_fields(vs.push(Value::DstName(None))) == Err::<ReclaimFields, Error>(Error::IntentBadBase64),
        reclaim_fields(vs.push(Value::DstParent(None))) == Err::<ReclaimFields, Error>(Error::IntentBadUuid),
        reclaim_fields(vs.push(Value::Displaced(None))) == Err::<ReclaimFields, Error>(Error::IntentBadUuid),
        reclaim_fields(vs.push(Value::SrcParent(Some(u)))) == Ok::<ReclaimFields, Error>(f),
        reclaim_fields(vs.push(Value::SrcParent(None))) == Ok::<ReclaimFields, Error>(f),
        reclaim_fields(vs.push(Value::Child(Some(u)))) == Ok::<ReclaimFields, Error>(f),
        reclaim_fields(vs.push(Value::Child(None))) == Ok::<ReclaimFields, Error>(f),
        reclaim_fields(vs.push(Value::SrcName(Some(b)))) == Ok::<ReclaimFields, Error>(f),
        reclaim_fields(vs.push(Value::SrcName(None))) == Ok::<ReclaimFields, Error>(f),
        reclaim_fields(vs.push(Value::Inode(Some(b)))) == Ok::<ReclaimFields, Error>(f),
        reclaim_fields(vs.push(Value::Inode(None))) == Ok::<ReclaimFields, Error>(f),
{
    lemma_reclaim_step(vs, Value::DstParent(Some(u)), f);
    lemma_reclaim_step(vs, Value::Displaced(Some(u)), f);
    lemma_reclaim_step(vs, Value::IsDir(d), f);
    lemma_reclaim_step(vs, Value::DstName(Some(b)), f);
    lemma_reclaim_step(vs, Value::DstName(None), f);
    lemma_reclaim_step(vs, Value::DstParent(None), f);
    lemma_reclaim_step(vs, Value::Displaced(None), f);
    lemma_reclaim_step(vs, Value::SrcParent(Some(u)), f);
    lemma_reclaim_step(vs, Value::SrcParent(None), f);
    lemma_reclaim_step(vs, Value::Child(Some(u)), f);
    lemma_reclaim_step(vs, Value::Child(None), f);
    lemma_reclaim_step(vs, Value::SrcName(Some(b)), f);
    lemma_reclaim_step(vs, Value::SrcName(None), f);
    lemma_reclaim_step(vs, Value::Inode(Some(b)), f);
    lemma_reclaim_step(vs, Value::Inode(None), f);
}

/// A reclaim intent is there once its three fields are, of a file unless it says
/// otherwise.
pub proof fn law_reclaim_intents_are_complete(vs: Seq<Value>, v: Value, i: Reclaim)
    ensures
        reclaim_fields(Seq::<Value>::empty()) == Ok::<ReclaimFields, Error>(
            ReclaimFields { dst_parent: None, dst_name: None, displaced: None, is_dir: false },
        ),
        reclaim_fields(vs) matches Err(e) ==> reclaim_fields(vs.push(v)) == Err::<ReclaimFields, Error>(e)
            && reclaim_from(vs) == Err::<Reclaim, Error>(e),
        reclaim_fields(vs) matches Ok(f) ==> (reclaim_from(vs) == Ok::<Reclaim, Error>(i) <==> f.dst_parent == Some(
            i.dst_parent,
        ) && f.dst_name == Some(i.dst_name) && f.displaced == Some(i.displaced) && f.is_dir == i.displaced_is_dir),
        reclaim_fields(vs) matches Ok(f) ==> (f.dst_parent is None || f.dst_name is None || f.displaced is None)
            ==> reclaim_from(vs) == Err::<Reclaim, Error>(Error::IntentIncomplete),
{
    assert(vs.push(v).drop_last() =~= vs);
}

/// A body that is not text is no intent; of one that is, the lines are read.
pub proof fn law_intent_bodies_are_text(buf: Seq<u8>)
    ensures
        !valid_utf8(buf) ==> rename_of(buf) == Err::<Rename, Error>(Error::IntentNotText),
        !valid_utf8(buf) ==> reclaim_of(buf) == Err::<Reclaim, Error>(Error::IntentNotText),
        valid_utf8(buf) ==> rename_of(buf) == rename_from(line_values(lines(decode_utf8(buf)))),
        valid_utf8(buf) ==> reclaim_of(buf) == reclaim_from(line_values(lines(decode_utf8(buf)))),
{
}

/// The bodies of intents are one line per field.
pub proof fn law_intent_texts(i: Rename, r: Reclaim)
    ensures
        rename_text(i) == "src_parent="@ + uuid_text(i.src_parent.bits) + seq!['\n'] + "src_name="@ + std_base64(
            encode_utf8(i.src_name),
        ) + seq!['\n'] + "dst_parent="@ + uuid_text(i.dst_parent.bits) + seq!['\n'] + "dst_name="@ + std_base64(
            encode_utf8(i.dst_name),
        ) + seq!['\n'] + "child="@ + uuid_text(i.child.bits) + seq!['\n'] + "inode="@ + std_base64(i.inode)
            + seq!['\n'],
        reclaim_text(r) == "dst_parent="@ + uuid_text(r.dst_parent.bits) + seq!['\n'] + "dst_name="@ + std_base64(
            encode_utf8(r.dst_name),
        ) + seq!['\n'] + "displaced="@ + uuid_text(r.displaced.bits) + seq!['\n'] + "is_dir="@ + (
        if r.displaced_is_dir {
            "1"@
        } else {
            "0"@
        }) + seq!['\n'],
{
    assert(rename_text(i) =~= "src_parent="@ + uuid_text(i.src_parent.bits) + seq!['\n'] + "src_name="@ + std_base64(
        encode_utf8(i.src_name),
    ) + seq!['\n'] + "dst_parent="@ + uuid_text(i.dst_parent.bits) + seq!['\n'] + "dst_name="@ + std_base64(
        encode_utf8(i.dst_name),
    ) + seq!['\n'] + "child="@ + uuid_text(i.child.bits) + seq!['\n'] + "inode="@ + std_base64(i.inode) + seq!['\n']);
    assert(reclaim_text(r) =~= "dst_parent="@ + uuid_text(r.dst_parent.bits) + seq!['\n'] + "dst_name="@ + std_base64(
        encode_utf8(r.dst_name),
    ) + seq!['\n'] + "displaced="@ + uuid_text(r.displaced.bits) + seq!['\n'] + "is_dir="@ + (if r.displaced_is_dir {
        "1"@
    } else {
        "0"@
    }) + seq!['\n']);
}

/// The identifier in an intent's key is what stands behind the last slash,
/// without the suffix.
pub proof fn law_identifier_in_an_intent_key(dir: Seq<char>, id: Seq<char>)
    requires
        !id.contains('/'),
    ensures
        reclaim_id(id + ".reclaim"@) == id,
        reclaim_id(dir.push('/') + (id + ".reclaim"@)) == id,
        !ends_with(id, ".reclaim"@) ==> reclaim_id(id) == id && reclaim_id(dir.push('/') + id) == id,
{
    reveal_strlit(".reclaim");
    let t = id + ".reclaim"@;
    assert(!t.contains('/')) by {
        if t.contains('/') {
            let k = choose|k: int| 0 <= k < t.len() && t[k] == '/';
            if k < id.len() {
                assert(id[k] == '/');
            }
        }
    }
    assert(t.skip(t.len() - 8) =~= ".reclaim"@);
    assert(t.take(t.len() - 8) =~= id);
    lemma_last_piece(dir, t);
    lemma_last_piece(dir, id);
    crate::text::law_pieces_between_separators(t, '/', dir);
    crate::text::law_pieces_between_separators(id, '/', dir);
}

/// The last piece of a text is what stands behind its last separator.
proof fn lemma_last_piece(dir: Seq<char>, last: Seq<char>)
    requires
        !last.contains('/'),
    ensures
        split(dir.push('/') + last, '/').len() > 0,
        split(dir.push('/') + last, '/').last() == last,
    decreases dir.len(),
{
    let s = dir.push('/') + last;
    crate::text::law_positions_of_characters(dir, '/');
    crate::text::law_pieces_between_separators(last, '/', last);
    if dir.contains('/') {
        let i = crate::text::index_of(dir, '/') as int;
        let a = dir.take(i);
        let rest = dir.skip(i + 1);
        assert(dir =~= a.push('/') + rest);
        assert(s =~= a.push('/') + (rest.push('/') + last));
        lemma_last_piece(rest, last);
        crate::text::law_pieces_between_separators(a, '/', rest.push('/') + last);
    } else {
        crate::text::law_pieces_between_separators(dir, '/', last);
    }
}

/// An intent is stale where its identifier is more than a minute old, or is
/// none.
pub proof fn law_stale_intents(time: nat, random: nat, now_ms: i64, key: Seq<char>)
    requires
        time < 0x1_0000_0000_0000,
        random < 0x1_0000_0000_0000_0000_0000,
    ensures
        is_stale_id(Some(Ulid { bits: (time * 0x1_0000_0000_0000_0000_0000 + random) as u128 }), now_ms) <==> now_ms
            - time > 60_000,
        is_stale_id(None, now_ms),
        ulid_parsed(reclaim_id(key)) is None ==> is_stale(key, now_ms),
        ulid_parsed(reclaim_id(key)) matches Some(bits) ==> is_stale(key, now_ms) == is_stale_id(
            Some(Ulid { bits }),
            now_ms,
        ),
{
    crate::ident::law_ulid_time_is_in_the_upper_bits(time, random);
}

} // verus!
