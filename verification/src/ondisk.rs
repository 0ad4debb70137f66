//! The entries of a directory's index, and how they are laid out in bytes.
use vstd::prelude::*;
use vstd::slice::{slice_subrange, slice_to_vec};
use vstd::utf8::{decode_utf8, encode_utf8, valid_utf8};
use crate::bytes::{fits, le_bytes, le_value, lemma_le_bytes_len, lemma_le_round_trip, lemma_u64_fits};
use crate::ident::Uuid;
use crate::outside::utf8_text;

verus! {

/// Longest file name, in bytes.
pub const DEFAULT_NAME_LEN: usize = 255;

/// Size of an inode as it is stored.
pub const INODE_RAW_SIZE: usize = 160;

/// Size of a directory entry as it is stored: an inode, a UUID and a name
/// with its terminator.
pub const DIR_FILE_ENTRY_RAW_SIZE: usize = 432;

/// An inode in its stored form, taken verbatim.
#[derive(Clone, Copy, Debug)]
pub struct InodeRaw {
    pub bytes: [u8; 160],
}

/// A directory's own inode.
#[derive(Clone, Copy, Debug)]
pub struct DirFileInodeRaw {
    pub inode: InodeRaw,
}

/// One entry of a directory: a cached copy of the child's inode, the child's
/// stable identity, and its name. The name is terminated by a zero byte, for
/// which the last byte is reserved.
#[derive(Clone, Copy, Debug)]
pub struct DirFileEntryRaw {
    pub inode: InodeRaw,
    pub uuid: Uuid,
    pub name: [u8; 256],
}

// ---------------------------------------------------------------------------
// The model
// ---------------------------------------------------------------------------

/// Position of the first zero byte, or the length where there is none.
pub open spec fn nul_at(s: Seq<u8>) -> nat
    decreases s.len(),
{
    if s.len() == 0 || s[0] == 0 {
        0
    } else {
        1 + nul_at(s.skip(1))
    }
}

/// A name field's content: the bytes before the first zero byte.
pub open spec fn until_nul(s: Seq<u8>) -> Seq<u8> {
    s.take(nul_at(s) as int)
}

/// A file name as an entry can hold it: its first 255 bytes.
pub open spec fn trimmed(filename: Seq<u8>) -> Seq<u8> {
    if filename.len() > 255 {
        filename.take(255)
    } else {
        filename
    }
}

/// `s` followed by zero bytes up to 256 bytes.
pub open spec fn padded(s: Seq<u8>) -> Seq<u8> {
    Seq::new(
        256,
        |i: int|
            if i < s.len() {
                s[i]
            } else {
                0
            },
    )
}

/// The name that an entry made for a file has: the file's name as far as an
/// entry holds it, which is up to 255 bytes and up to the first zero byte.
pub open spec fn stored_name(filename: Seq<u8>) -> Seq<u8> {
    until_nul(padded(trimmed(filename)))
}

/// The name under which the index keeps the entry of a file.
pub open spec fn index_name(filename: Seq<char>) -> Seq<u8> {
    stored_name(encode_utf8(filename))
}

/// The name that marks a placeholder: 255 bytes of ones.
pub open spec fn dummy_name() -> Seq<u8> {
    Seq::new(255, |i: int| 0xffu8)
}

/// The bytes of a UUID, most significant first.
pub open spec fn uuid_bytes(bits: u128) -> Seq<u8> {
    le_bytes(bits as nat, 16).reverse()
}

impl DirFileEntryRaw {
    /// The entry's file name.
    pub open spec fn filename(self) -> Seq<u8> {
        until_nul(self.name@)
    }

    /// The entry is a placeholder.
    pub open spec fn dummy(self) -> bool {
        self.name@ == padded(dummy_name())
    }

    /// The entry's stored form: inode, UUID, name field.
    pub open spec fn layout(self) -> Seq<u8> {
        self.inode.bytes@ + uuid_bytes(self.uuid.bits) + self.name@
    }
}

/// A name that an entry can hold as it is: up to 255 bytes, none of them
/// zero, and not the placeholder's.
pub open spec fn entry_name(s: Seq<u8>) -> bool {
    s.len() <= 255 && (forall|i: int| 0 <= i < s.len() ==> s[i] != 0) && s != dummy_name()
}

pub proof fn lemma_nul_at(s: Seq<u8>)
    ensures
        nul_at(s) <= s.len(),
        forall|i: int| 0 <= i < nul_at(s) ==> s[i] != 0,
        nul_at(s) < s.len() ==> s[nul_at(s) as int] == 0,
    decreases s.len(),
{
    if s.len() > 0 && s[0] != 0 {
        lemma_nul_at(s.skip(1));
        assert forall|i: int| 0 <= i < nul_at(s) implies s[i] != 0 by {
            if i > 0 {
                assert(s[i] == s.skip(1)[i - 1]);
            }
        }
    }
}

proof fn lemma_nul_at_is(s: Seq<u8>, n: nat)
    requires
        n <= s.len(),
        forall|i: int| 0 <= i < n ==> s[i] != 0,
        n < s.len() ==> s[n as int] == 0,
    ensures
        nul_at(s) == n,
{
    lemma_nul_at(s);
    if nul_at(s) < n {
        assert(s[nul_at(s) as int] != 0);
    } else if n < nul_at(s) {
        assert(s[n as int] != 0);
    }
}

/// An entry made for a name that it can hold has that name.
pub proof fn lemma_padded_name(s: Seq<u8>)
    requires
        s.len() <= 255,
        forall|i: int| 0 <= i < s.len() ==> s[i] != 0,
    ensures
        until_nul(padded(s)) == s,
{
    lemma_nul_at_is(padded(s), s.len());
    assert(padded(s).take(s.len() as int) =~= s);
}

/// The first bytes of a file's name, up to 255 and up to the first zero byte.
proof fn lemma_stored_name(filename: Seq<u8>, n: nat)
    requires
        n <= filename.len(),
        n <= 255,
        forall|i: int| 0 <= i < n ==> filename[i] != 0,
        n < filename.len() && n < 255 ==> filename[n as int] == 0,
    ensures
        stored_name(filename) == filename.take(n as int),
{
    let p = padded(trimmed(filename));
    lemma_nul_at_is(p, n);
    assert(p.take(n as int) =~= filename.take(n as int));
}

/// An entry can hold the name under which the index keeps a file, whatever the
/// file's name is.
pub proof fn law_every_file_can_be_indexed(filename: Seq<char>)
    ensures
        entry_name(index_name(filename)),
{
    let b = encode_utf8(filename);
    let p = padded(trimmed(b));
    let s = index_name(filename);
    lemma_nul_at(p);
    assert(p[255] == 0);
    assert(nul_at(p) <= 255) by {
        if nul_at(p) > 255 {
            assert(p[255] != 0);
        }
    }
    assert forall|i: int| 0 <= i < s.len() implies s[i] != 0 by {
        assert(s[i] == p[i]);
    }
    if s == dummy_name() {
        assert(s[0] == p[0] && dummy_name()[0] == 0xff);
        assert(b.len() > 0) by {
            if b.len() == 0 {
                assert(p[0] == 0);
            }
        }
        assert(b[0] == 0xff);
        vstd::utf8::encode_utf8_valid_utf8(filename);
        assert(!vstd::utf8::valid_first_scalar(b)) by {
            assert(!vstd::utf8::is_leading_byte_width_1(0xff));
            assert(!vstd::utf8::is_leading_byte_width_2(0xff));
            assert(!vstd::utf8::is_leading_byte_width_3(0xff));
            assert(!vstd::utf8::is_leading_byte_width_4(0xff));
        }
        assert(false);
    }
}

/// The index keeps a file under its very name, where an entry can hold it.
pub proof fn law_ordinary_names_are_kept_whole(filename: Seq<char>)
    requires
        encode_utf8(filename).len() <= 255,
        forall|i: int| 0 <= i < encode_utf8(filename).len() ==> encode_utf8(filename)[i] != 0,
    ensures
        index_name(filename) == encode_utf8(filename),
{
    lemma_padded_name(encode_utf8(filename));
}

/// The name under which the index keeps the entry of a file.
pub fn name_in_index(filename: &str) -> (r: Vec<u8>)
    ensures
        r@ == index_name(filename@),
{
    let b: &[u8] = filename.as_bytes();
    let mut n: usize = 0;
    while n < b.len() && n < DEFAULT_NAME_LEN && b[n] != 0
        invariant
            b@ == encode_utf8(filename@),
            n <= b.len(),
            n <= 255,
            forall|i: int| 0 <= i < n ==> b@[i] != 0,
        decreases b.len() - n,
    {
        n += 1;
    }
    proof {
        lemma_stored_name(b@, n as nat);
    }
    let r: Vec<u8> = slice_to_vec(slice_subrange(b, 0, n));
    assert(r@ =~= b@.take(n as int));
    r
}

/// Only a placeholder has the placeholder's name.
pub proof fn lemma_dummy_name(e: DirFileEntryRaw)
    requires
        e.dummy(),
    ensures
        e.filename() == dummy_name(),
{
    lemma_padded_name(dummy_name());
}

// ---------------------------------------------------------------------------
// Inodes
// ---------------------------------------------------------------------------

/// Copies the part of `s` from `at` on into an array of the inode's size.
fn inode_from(s: &[u8], at: usize) -> (r: [u8; 160])
    requires
        at + 160 <= s.len(),
    ensures
        r@ == s@.subrange(at as int, at + 160),
{
    let mut a: [u8; 160] = [0u8; 160];
    for i in 0..160usize
        invariant
            at + 160 <= s.len(),
            a@.len() == 160,
            forall|j: int| 0 <= j < i ==> a@[j] == s@[at + j],
    {
        a[i] = s[at + i];
    }
    assert(a@ =~= s@.subrange(at as int, at + 160));
    a
}

impl Default for InodeRaw {
    /// An inode of zero bytes.
    fn default() -> (r: InodeRaw)
        ensures
            r.bytes@ == Seq::new(160, |i: int| 0u8),
    {
        let r: InodeRaw = InodeRaw { bytes: [0u8; 160] };
        assert(r.bytes@ =~= Seq::new(160, |i: int| 0u8));
        r
    }
}

impl InodeRaw {
    /// The inode stored in exactly 160 bytes.
    pub fn from_u8_slice(buf: &[u8]) -> (r: InodeRaw)
        requires
            buf.len() == INODE_RAW_SIZE,
        ensures
            r.bytes@ == buf@,
    {
        let r: InodeRaw = InodeRaw { bytes: inode_from(buf, 0) };
        assert(r.bytes@ =~= buf@);
        r
    }

    /// The stored form.
    pub fn as_u8_slice(&self) -> (r: Vec<u8>)
        ensures
            r@ == self.bytes@,
    {
        slice_to_vec(self.bytes.as_slice())
    }
}

impl DirFileInodeRaw {
    /// The stored form, to be written to.
    pub fn as_mut_u8_slice(&mut self) -> (r: &mut [u8])
        ensures
            r@ == old(self).inode.bytes@,
            final(r)@ == final(self).inode.bytes@,
    {
        &mut self.inode.bytes
    }
}

// ---------------------------------------------------------------------------
// Entries
// ---------------------------------------------------------------------------

impl Default for DirFileEntryRaw {
    /// The entry of zero bytes.
    fn default() -> (r: DirFileEntryRaw)
        ensures
            r.inode.bytes@ == Seq::new(160, |i: int| 0u8),
            r.uuid.bits == 0,
            r.name@ == padded(seq![]),
    {
        let r: DirFileEntryRaw = DirFileEntryRaw {
            inode: InodeRaw { bytes: [0u8; 160] },
            uuid: Uuid { bits: 0 },
            name: [0u8; 256],
        };
        assert(r.inode.bytes@ =~= Seq::new(160, |i: int| 0u8));
        assert(r.name@ =~= padded(seq![]));
        r
    }
}

impl DirFileEntryRaw {
    /// The entry of a child under a name, of which it holds the first 255
    /// bytes.
    pub fn from(inode_raw: &InodeRaw, uuid: &Uuid, filename: &[u8]) -> (r: DirFileEntryRaw)
        ensures
            r.inode == *inode_raw,
            r.uuid == *uuid,
            r.name@ == padded(trimmed(filename@)),
            r.filename() == stored_name(filename@),
            entry_name(filename@) ==> r.filename() == filename@ && !r.dummy(),
    {
        let mut name: [u8; 256] = [0u8; 256];
        let len: usize = if filename.len() > DEFAULT_NAME_LEN {
            DEFAULT_NAME_LEN
        } else {
            filename.len()
        };
        for i in 0..len
            invariant
                len <= 255,
                len <= filename.len(),
                name@.len() == 256,
                forall|j: int| 0 <= j < i ==> name@[j] == filename@[j],
                forall|j: int| i <= j < 256 ==> name@[j] == 0,
        {
            name[i] = filename[i];
        }
        assert(name@ =~= padded(trimmed(filename@)));
        let r: DirFileEntryRaw = DirFileEntryRaw { inode: *inode_raw, uuid: *uuid, name };
        proof {
            if entry_name(filename@) {
                lemma_padded_name(filename@);
                if r.dummy() {
                    lemma_dummy_name(r);
                }
            }
        }
        r
    }

    /// The entry stored in the first 432 bytes of `buf`.
    pub fn from_slice(buf: &[u8]) -> (r: DirFileEntryRaw)
        requires
            buf.len() >= DIR_FILE_ENTRY_RAW_SIZE,
        ensures
            r.layout() == buf@.take(432),
    {
        let inode: [u8; 160] = inode_from(buf, 0);
        let mut bits: u128 = 0;
        let ghost u = buf@.subrange(160, 176);
        assert(u.take(0).reverse() =~= seq![]);
        proof {
            reveal(vstd::arithmetic::power::pow);
        }
        for i in 0..16usize
            invariant
                buf.len() >= 432,
                u == buf@.subrange(160, 176),
                bits as nat == le_value(u.take(i as int).reverse()),
                le_value(u.take(i as int).reverse()) < vstd::arithmetic::power::pow(256, i as nat),
        {
            proof {
                let before = u.take(i as int).reverse();
                let after = u.take(i + 1).reverse();
                assert(after.skip(1) =~= before);
                assert(after[0] == u[i as int]);
                lemma_shift_in(bits as nat, i as nat, u[i as int]);
            }
            bits = bits * 256 + buf[160 + i] as u128;
        }
        let mut name: [u8; 256] = [0u8; 256];
        for i in 0..256usize
            invariant
                buf.len() >= 432,
                name@.len() == 256,
                forall|j: int| 0 <= j < i ==> name@[j] == buf@[176 + j],
        {
            name[i] = buf[176 + i];
        }
        let r: DirFileEntryRaw = DirFileEntryRaw { inode: InodeRaw { bytes: inode }, uuid: Uuid { bits }, name };
        proof {
            assert(u.take(16) =~= u);
            lemma_bytes_of_value(u.reverse());
            assert(u.reverse().reverse() =~= u);
            assert(r.layout() =~= buf@.take(432));
        }
        r
    }

    /// The stored form, 432 bytes.
    pub fn as_u8_slice(&self) -> (r: Vec<u8>)
        ensures
            r@ == self.layout(),
            r.len() == DIR_FILE_ENTRY_RAW_SIZE,
    {
        let mut out: Vec<u8> = slice_to_vec(self.inode.bytes.as_slice());
        let id: Vec<u8> = uuid_to_bytes(self.uuid);
        out.extend_from_slice(id.as_slice());
        out.extend_from_slice(self.name.as_slice());
        proof {
            lemma_le_bytes_len(self.uuid.bits as nat, 16);
        }
        assert(out@ =~= self.layout());
        out
    }

    /// The placeholder entry.
    pub fn dummy_value() -> (r: DirFileEntryRaw)
        ensures
            r.dummy(),
            r.inode.bytes@ == Seq::new(160, |i: int| 0u8),
            r.uuid.bits == 0,
    {
        let mut name: [u8; 256] = [0xffu8; 256];
        name[255] = 0;
        let r: DirFileEntryRaw = DirFileEntryRaw {
            inode: InodeRaw { bytes: [0u8; 160] },
            uuid: Uuid { bits: 0 },
            name,
        };
        assert(r.name@ =~= padded(dummy_name()));
        assert(r.inode.bytes@ =~= Seq::new(160, |i: int| 0u8));
        r
    }

    /// True iff the entry is a placeholder.
    pub fn is_dummy(&self) -> (r: bool)
        ensures
            r == self.dummy(),
    {
        for i in 0..255usize
            invariant
                forall|j: int| 0 <= j < i ==> self.name@[j] == 0xff,
        {
            if self.name[i] != 0xff {
                assert(padded(dummy_name())[i as int] == 0xff);
                return false;
            }
        }
        assert(padded(dummy_name())[255] == 0);
        if self.name[255] == 0 {
            assert(self.name@ =~= padded(dummy_name()));
            true
        } else {
            false
        }
    }

    /// The stored filename bytes, up to (not including) the NUL terminator.
    pub fn name_bytes(&self) -> (r: Vec<u8>)
        ensures
            r@ == self.filename(),
    {
        let mut n: usize = 0;
        while n < 256 && self.name[n] != 0
            invariant
                n <= 256,
                forall|j: int| 0 <= j < n ==> self.name@[j] != 0,
            decreases 256 - n,
        {
            n += 1;
        }
        proof {
            lemma_nul_at_is(self.name@, n as nat);
        }
        let r: Vec<u8> = slice_to_vec(slice_subrange(self.name.as_slice(), 0, n));
        assert(r@ =~= self.filename());
        r
    }

    /// What is shown of the entry: a mark for a placeholder, else the whole
    /// name field as text, its zero bytes included.
    pub fn to_text(&self) -> (r: String)
        requires
            self.dummy() || valid_utf8(self.name@),
        ensures
            r@ == if self.dummy() {
                "[DUMMRY VALUE ENTRY]"@
            } else {
                decode_utf8(self.name@)
            },
    {
        if self.is_dummy() {
            return "[DUMMRY VALUE ENTRY]".to_string();
        }
        utf8_text(slice_to_vec(self.name.as_slice())).unwrap()
    }

    /// True if this entry's filename equals `name` (raw byte compare).
    pub fn name_eq(&self, name: &[u8]) -> (r: bool)
        ensures
            r == (self.filename() == name@),
    {
        let own: Vec<u8> = self.name_bytes();
        same_bytes(own.as_slice(), name)
    }
}

/// True iff the two slices hold the same bytes.
pub fn same_bytes(a: &[u8], b: &[u8]) -> (r: bool)
    ensures
        r == (a@ == b@),
{
    if a.len() != b.len() {
        return false;
    }
    for i in 0..a.len()
        invariant
            a.len() == b.len(),
            forall|j: int| 0 <= j < i ==> a@[j] == b@[j],
    {
        if a[i] != b[i] {
            return false;
        }
    }
    assert(a@ =~= b@);
    true
}

proof fn lemma_shift_in(v: nat, n: nat, b: u8)
    requires
        n < 16,
        v < vstd::arithmetic::power::pow(256, n),
    ensures
        v * 256 + b < vstd::arithmetic::power::pow(256, n + 1),
        v * 256 + b <= u128::MAX,
{
    vstd::arithmetic::power::lemma_pow_increases(256, n + 1, 16);
    assert(vstd::arithmetic::power::pow(256, n + 1) == 256 * vstd::arithmetic::power::pow(256, n)) by {
        reveal(vstd::arithmetic::power::pow);
    }
    assert(vstd::arithmetic::power::pow(256, 16) == 0x1_0000_0000_0000_0000_0000_0000_0000_0000) by {
        reveal(vstd::arithmetic::power::pow);
        reveal_with_fuel(vstd::arithmetic::power::pow, 17);
    }
    assert(v * 256 + b < 256 * vstd::arithmetic::power::pow(256, n)) by (nonlinear_arith)
        requires
            v < vstd::arithmetic::power::pow(256, n),
            b <= 255,
    ;
}

/// The bytes of the number that some bytes denote are those bytes.
pub proof fn lemma_bytes_of_value(s: Seq<u8>)
    ensures
        le_bytes(le_value(s), s.len()) == s,
    decreases s.len(),
{
    if s.len() > 0 {
        lemma_bytes_of_value(s.skip(1));
        let v = le_value(s);
        assert(v % 256 == s[0]);
        assert(v / 256 == le_value(s.skip(1)));
        assert(le_bytes(v, s.len()) =~= s);
    } else {
        assert(s =~= seq![]);
    }
}

/// The bytes of a UUID, most significant first.
fn uuid_to_bytes(id: Uuid) -> (r: Vec<u8>)
    ensures
        r@ == uuid_bytes(id.bits),
        r.len() == 16,
{
    let mut low_first: Vec<u8> = Vec::new();
    let mut rest: u128 = id.bits;
    assert(low_first@ + le_bytes(rest as nat, 16) =~= le_bytes(id.bits as nat, 16));
    for i in 0..16usize
        invariant
            low_first.len() == i,
            low_first@ + le_bytes(rest as nat, (16 - i) as nat) == le_bytes(id.bits as nat, 16),
    {
        let ghost now = low_first@;
        let ghost r = rest;
        low_first.push((rest % 256) as u8);
        rest = rest / 256;
        assert(low_first@ + le_bytes(rest as nat, (15 - i) as nat) =~= now + le_bytes(r as nat, (16 - i) as nat));
    }
    assert(low_first@ + le_bytes(rest as nat, 0) =~= low_first@);
    let mut out: Vec<u8> = Vec::new();
    for i in 0..16usize
        invariant
            low_first.len() == 16,
            out.len() == i,
            forall|j: int| 0 <= j < i ==> out@[j] == low_first@[15 - j],
    {
        out.push(low_first[15 - i]);
    }
    assert(out@ =~= uuid_bytes(id.bits));
    out
}

proof fn lemma_u128_fits(v: u128)
    ensures
        fits(v as nat, 16),
{
    let b1 = v as nat / 256;
    let b2 = b1 / 256;
    let b3 = b2 / 256;
    let b4 = b3 / 256;
    let b5 = b4 / 256;
    let b6 = b5 / 256;
    let b7 = b6 / 256;
    let b8 = b7 / 256;
    assert(b8 < 0x1_0000_0000_0000_0000);
    lemma_u64_fits(b8 as u64);
    reveal_with_fuel(fits, 9);
}

/// The stored form determines the entry: two entries stored alike are equal,
/// so an entry is read back from its bytes as it was written.
pub proof fn law_entry_layout_determines_entry(a: DirFileEntryRaw, b: DirFileEntryRaw)
    requires
        a.layout() == b.layout(),
    ensures
        a == b,
{
    let l = a.layout();
    let m = b.layout();
    lemma_le_bytes_len(a.uuid.bits as nat, 16);
    lemma_le_bytes_len(b.uuid.bits as nat, 16);
    assert(a.inode.bytes@ =~= l.subrange(0, 160));
    assert(b.inode.bytes@ =~= m.subrange(0, 160));
    assert(a.inode.bytes =~= b.inode.bytes);
    assert(a.name@ =~= l.subrange(176, 432));
    assert(b.name@ =~= m.subrange(176, 432));
    assert(a.name =~= b.name);
    assert(uuid_bytes(a.uuid.bits) =~= l.subrange(160, 176));
    assert(uuid_bytes(b.uuid.bits) =~= m.subrange(160, 176));
    assert(uuid_bytes(a.uuid.bits).reverse() =~= le_bytes(a.uuid.bits as nat, 16));
    assert(uuid_bytes(b.uuid.bits).reverse() =~= le_bytes(b.uuid.bits as nat, 16));
    lemma_u128_fits(a.uuid.bits);
    lemma_u128_fits(b.uuid.bits);
    lemma_le_round_trip(a.uuid.bits as nat, 16);
    lemma_le_round_trip(b.uuid.bits as nat, 16);
}

// ---------------------------------------------------------------------------
// Laws of the stored form
// ---------------------------------------------------------------------------

/// The name in a name field is what stands before the first zero byte, and the
/// whole field where there is none.
pub proof fn law_names_end_at_the_first_zero(s: Seq<u8>, rest: Seq<u8>)
    requires
        !s.contains(0u8),
    ensures
        until_nul(s) == s,
        until_nul(s.push(0u8) + rest) == s,
        nul_at(s) == s.len(),
        nul_at(s.push(0u8) + rest) == s.len(),
{
    assert forall|i: int| 0 <= i < s.len() implies s[i] != 0 by {
        assert(s.contains(s[i]));
    }
    let t = s.push(0u8) + rest;
    assert forall|i: int| 0 <= i < s.len() implies t[i] != 0 by {
        assert(t[i] == s[i]);
    }
    lemma_nul_at_is(s, s.len());
    lemma_nul_at_is(t, s.len());
    assert(s.take(s.len() as int) =~= s);
    assert(t.take(s.len() as int) =~= s);
}

/// A name field holds the first 255 bytes of a file's name, and zero bytes
/// behind them.
pub proof fn law_name_field_of_a_file(f: Seq<u8>, i: int)
    requires
        0 <= i < 256,
    ensures
        padded(trimmed(f)).len() == 256,
        padded(trimmed(f))[i] == if i < 255 && i < f.len() {
            f[i]
        } else {
            0
        },
        padded(f)[i] == if i < f.len() {
            f[i]
        } else {
            0
        },
{
}

/// The index keeps a file under the longest beginning of its name that has no
/// zero byte and no more than 255 bytes.
pub proof fn law_index_name_is_the_longest_beginning(f: Seq<u8>, n: int)
    requires
        0 <= n <= f.len(),
        n <= 255,
        !f.take(n).contains(0u8),
        n == f.len() || n == 255 || f[n] == 0,
    ensures
        stored_name(f) == f.take(n),
        forall|name: Seq<char>| encode_utf8(name) == f ==> #[trigger] index_name(name) == f.take(n),
{
    assert forall|i: int| 0 <= i < n implies f[i] != 0 by {
        assert(f.take(n)[i] == f[i]);
        assert(f.take(n).contains(f.take(n)[i]));
    }
    lemma_stored_name(f, n as nat);
}

/// An entry's name is what its name field holds before the first zero byte;
/// it is a placeholder where the field is 255 bytes of ones and a zero byte.
pub proof fn law_entry_names(e: DirFileEntryRaw, s: Seq<u8>, rest: Seq<u8>)
    ensures
        e.name@ == s.push(0u8) + rest && !s.contains(0u8) ==> e.filename() == s,
        !e.name@.contains(0u8) ==> e.filename() == e.name@,
        e.dummy() <==> e.name@[255] == 0 && forall|i: int| 0 <= i < 255 ==> #[trigger] e.name@[i] == 0xff,
        dummy_name().len() == 255,
        forall|i: int| 0 <= i < 255 ==> #[trigger] dummy_name()[i] == 0xff,
{
    if !s.contains(0u8) {
        law_names_end_at_the_first_zero(s, rest);
    }
    if !e.name@.contains(0u8) {
        law_names_end_at_the_first_zero(e.name@, rest);
    }
    let p = padded(dummy_name());
    if e.dummy() {
        assert forall|i: int| 0 <= i < 255 implies #[trigger] e.name@[i] == 0xff by {
            assert(p[i] == 0xff);
        }
    }
    if e.name@[255] == 0 && forall|i: int| 0 <= i < 255 ==> #[trigger] e.name@[i] == 0xff {
        assert(e.name@ =~= p);
    }
}

/// An entry is stored as the 160 bytes of the inode, the 16 bytes of the UUID
/// and the 256 bytes of the name field; the bytes of a UUID, most significant
/// first, denote its bits.
pub proof fn law_entry_is_stored_field_by_field(e: DirFileEntryRaw)
    ensures
        e.layout().len() == 432,
        e.layout().subrange(0, 160) == e.inode.bytes@,
        le_value(e.layout().subrange(160, 176).reverse()) == e.uuid.bits,
        e.layout().subrange(176, 432) == e.name@,
{
    lemma_le_bytes_len(e.uuid.bits as nat, 16);
    let l = e.layout();
    assert(l.subrange(0, 160) =~= e.inode.bytes@);
    assert(l.subrange(176, 432) =~= e.name@);
    assert(l.subrange(160, 176) =~= uuid_bytes(e.uuid.bits));
    assert(uuid_bytes(e.uuid.bits).reverse() =~= le_bytes(e.uuid.bits as nat, 16));
    lemma_u128_fits(e.uuid.bits);
    lemma_le_round_trip(e.uuid.bits as nat, 16);
}

/// A name that an entry can hold is one of up to 255 bytes without a zero byte,
/// and not all of 255 bytes of ones.
pub proof fn law_names_that_entries_hold(s: Seq<u8>)
    ensures
        entry_name(s) ==> s.len() <= 255 && !s.contains(0u8),
        s.len() < 255 && !s.contains(0u8) ==> entry_name(s),
        s.len() == 255 && !s.contains(0u8) && (exists|i: int| 0 <= i < 255 && #[trigger] s[i] != 0xff) ==> entry_name(s),
        s.len() == 255 && (forall|i: int| 0 <= i < 255 ==> #[trigger] s[i] == 0xff) ==> !entry_name(s),
{
    if !s.contains(0u8) {
        assert forall|i: int| 0 <= i < s.len() implies s[i] != 0 by {
            assert(s.contains(s[i]));
        }
    }
    if s.len() == 255 && forall|i: int| 0 <= i < 255 ==> #[trigger] s[i] == 0xff {
        assert(s =~= dummy_name());
    }
    if exists|i: int| 0 <= i < 255 && #[trigger] s[i] != 0xff {
        let i = choose|i: int| 0 <= i < 255 && #[trigger] s[i] != 0xff;
        assert(dummy_name()[i] == 0xff);
    }
}

} // verus!
