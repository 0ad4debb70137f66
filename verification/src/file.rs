//! Reading and consolidating a directory.
//!
//! What a directory holds is its index, overlaid with the changes that the
//! scatter objects record: the latest change of a name counts, a created or
//! updated name is there with the inode its scatter object carries, a deleted
//! or unlinked name is gone. Compaction folds the same overlay into the index.
use vstd::hash_map::StringHashMap;
use vstd::prelude::*;
use vstd::utf8::{decode_utf8, encode_utf8, valid_utf8};
use crate::ident::Uuid;
use crate::ondisk::{
    entry_name, index_name, law_every_file_can_be_indexed, law_ordinary_names_are_kept_whole, lemma_dummy_name,
    lemma_padded_name, name_in_index, nul_at, padded, trimmed, until_nul, DirFileEntryRaw, InodeRaw, INODE_RAW_SIZE,
};
use crate::outside::utf8_text;
use crate::scatter::{
    is_a_latest, is_last_view, is_latest, law_changes_are_ordered, lemma_not_older_step, older, scatter_views,
    DirScatterInode, DirScatterInodeOp, Scatter,
};
use crate::text::{same_text, string_views};

verus! {

/// An entry of a directory listing. The inode is a snapshot that may lag
/// behind the child's own.
#[derive(Debug)]
pub struct DirFileEntry {
    pub inode: InodeRaw,
    pub uuid: Uuid,
    pub name: String,
}

/// The mathematical value of a [`DirFileEntry`].
pub struct Entry {
    pub inode: InodeRaw,
    pub uuid: Uuid,
    pub name: Seq<char>,
}

impl View for DirFileEntry {
    type V = Entry;

    open spec fn view(&self) -> Entry {
        Entry { inode: self.inode, uuid: self.uuid, name: self.name@ }
    }
}

/// The values of several entries.
pub open spec fn entry_views(v: Seq<DirFileEntry>) -> Seq<Entry> {
    v.map_values(|e: DirFileEntry| e@)
}

/// The name that a name field shows: the text before its terminator, and
/// nothing where there is no terminator or no text.
pub open spec fn shown(name: Seq<u8>) -> Seq<char> {
    if nul_at(name) < name.len() && valid_utf8(until_nul(name)) {
        decode_utf8(until_nul(name))
    } else {
        seq![]
    }
}

/// The entry that a stored entry shows.
pub open spec fn shown_entry(raw: DirFileEntryRaw) -> Entry {
    Entry { inode: raw.inode, uuid: raw.uuid, name: shown(raw.name@) }
}

/// The name that the entry of a file shows: the file's name, cut to what an
/// entry can hold.
pub open spec fn shown_name(filename: Seq<char>) -> Seq<char> {
    shown(padded(trimmed(encode_utf8(filename))))
}

/// A file name that an entry holds as it is: up to 255 bytes, none of them
/// zero.
pub open spec fn holdable(filename: Seq<char>) -> bool {
    encode_utf8(filename).len() <= 255 && forall|i: int|
        0 <= i < encode_utf8(filename).len() ==> encode_utf8(filename)[i] != 0
}

/// An entry shows the very name of its file, where it can hold it.
pub proof fn law_holdable_names_are_shown(filename: Seq<char>)
    requires
        holdable(filename),
    ensures
        shown_name(filename) == filename,
{
    let b = encode_utf8(filename);
    lemma_padded_name(b);
    crate::ondisk::lemma_nul_at(padded(b));
    assert(padded(b).take(nul_at(padded(b)) as int).len() == b.len());
    vstd::utf8::encode_utf8_valid_utf8(filename);
    vstd::utf8::encode_utf8_decode_utf8(filename);
}

impl DirFileEntry {
    /// The entry that a stored entry shows.
    pub fn from_raw(raw: &DirFileEntryRaw) -> (r: DirFileEntry)
        ensures
            r@ == shown_entry(*raw),
    {
        let bytes: Vec<u8> = raw.name_bytes();
        proof {
            crate::ondisk::lemma_nul_at(raw.name@);
        }
        let name: String = if bytes.len() < 256 {
            match utf8_text(bytes) {
                Some(s) => s,
                None => String::new(),
            }
        } else {
            String::new()
        };
        assert(name@ =~= shown(raw.name@));
        DirFileEntry { inode: raw.inode, uuid: raw.uuid, name }
    }
}

/// The name that the entry of a file shows.
pub fn name_shown(filename: &str) -> (r: String)
    ensures
        r@ == shown_name(filename@),
{
    let inode: InodeRaw = InodeRaw { bytes: [0u8; 160] };
    let raw: DirFileEntryRaw = DirFileEntryRaw::from(&inode, &Uuid { bits: 0 }, filename.as_bytes());
    DirFileEntry::from_raw(&raw).name
}

// ---------------------------------------------------------------------------
// Walking the index
// ---------------------------------------------------------------------------

/// The entries in the slots below `n`, in the order of their slots, without
/// placeholders.
pub open spec fn entries_below(m: Map<u64, DirFileEntryRaw>, n: int) -> Seq<DirFileEntryRaw>
    decreases n,
{
    if n <= 0 {
        seq![]
    } else {
        let before = entries_below(m, n - 1);
        let k = (n - 1) as u64;
        if m.contains_key(k) && !m[k].dummy() {
            before.push(m[k])
        } else {
            before
        }
    }
}

/// A walk over the index, slot by slot in ascending order.
#[derive(Debug)]
pub struct IndexWalk {
    /// The walk goes on at this slot.
    pub next: u64,
    /// The last occupied slot.
    pub last: u64,
    /// The entries met so far.
    pub entries: Vec<DirFileEntryRaw>,
}

impl IndexWalk {
    /// A walk over an index whose last occupied slot is `last`.
    pub fn begin(last: u64) -> (r: IndexWalk)
        ensures
            r.next == 0,
            r.last == last,
            r.entries@ == Seq::<DirFileEntryRaw>::empty(),
    {
        IndexWalk { next: 0, last, entries: Vec::new() }
    }

    /// Given the first occupied slot from `next` on, where there is one: the
    /// slot to read, or `None` at the end of the walk.
    pub fn slot_to_read(&self, found: Option<u64>) -> (r: Option<u64>)
        ensures
            r == match found {
                Some(k) => if k <= self.last {
                    Some(k)
                } else {
                    None
                },
                None => None,
            },
    {
        match found {
            Some(k) => if k <= self.last {
                Some(k)
            } else {
                None
            },
            None => None,
        }
    }

    /// Takes in what the slot `key` holds, skipping a placeholder. Returns
    /// whether there are slots left.
    pub fn take(&mut self, key: u64, entry: DirFileEntryRaw) -> (more: bool)
        ensures
            final(self).last == old(self).last,
            final(self).entries@ == if entry.dummy() {
                old(self).entries@
            } else {
                old(self).entries@.push(entry)
            },
            more == (key < u64::MAX),
            more ==> final(self).next == key + 1,
    {
        if !entry.is_dummy() {
            self.entries.push(entry);
        }
        if key == u64::MAX {
            return false;
        }
        self.next = key + 1;
        true
    }
}

proof fn lemma_empty_stretch(m: Map<u64, DirFileEntryRaw>, a: int, b: int)
    requires
        0 <= a <= b <= u64::MAX + 1,
        forall|k: u64| a <= k < b ==> !#[trigger] m.contains_key(k),
    ensures
        entries_below(m, b) == entries_below(m, a),
    decreases b - a,
{
    if a < b {
        lemma_empty_stretch(m, a, b - 1);
        assert(!m.contains_key((b - 1) as u64));
    }
}

/// A step of a walk that has met all entries below `next`, to the first
/// occupied slot `k` from there on, has met all entries up to and with `k`.
pub proof fn law_walk_step_misses_nothing(m: Map<u64, DirFileEntryRaw>, next: u64, k: u64)
    requires
        next <= k,
        m.contains_key(k),
        forall|j: u64| next <= j < k ==> !#[trigger] m.contains_key(j),
    ensures
        entries_below(m, k + 1) == if m[k].dummy() {
            entries_below(m, next as int)
        } else {
            entries_below(m, next as int).push(m[k])
        },
{
    lemma_empty_stretch(m, next as int, k as int);
}

/// A walk ends with all entries: where no occupied slot is left from `next`
/// on up to the last one, the entries below `next` are all there are.
pub proof fn law_walk_ends_with_everything(m: Map<u64, DirFileEntryRaw>, next: u64, last: u64)
    requires
        forall|j: u64| next <= j <= last ==> !#[trigger] m.contains_key(j),
        forall|j: u64| last < j ==> !#[trigger] m.contains_key(j),
    ensures
        entries_below(m, next as int) == entries_below(m, u64::MAX + 1),
{
    lemma_empty_stretch(m, next as int, u64::MAX + 1);
}

// ---------------------------------------------------------------------------
// Which change of a name counts
// ---------------------------------------------------------------------------

/// The latest change of the name `n`.
pub open spec fn winner(all: Seq<Scatter>, n: Seq<char>) -> Option<Scatter>
    decreases all.len(),
{
    if all.len() == 0 {
        None
    } else {
        let before = winner(all.drop_last(), n);
        let x = all.last();
        if x.filename != n {
            before
        } else {
            match before {
                Some(y) => if older(x, y) {
                    Some(y)
                } else {
                    Some(x)
                },
                None => Some(x),
            }
        }
    }
}

/// A name whose latest change is a creation or update is there.
pub open spec fn is_live(s: Scatter) -> bool {
    s.op == DirScatterInodeOp::Create || s.op == DirScatterInodeOp::Update
}

/// A name whose latest change is an unlink or delete is gone.
pub open spec fn is_dead(s: Scatter) -> bool {
    s.op == DirScatterInodeOp::PreDelete || s.op == DirScatterInodeOp::Delete
}

/// The winner stands at some position, is the latest there, and is of the
/// name.
proof fn lemma_winner_is_latest(all: Seq<Scatter>, n: Seq<char>)
    ensures
        winner(all, n) matches Some(s) ==> is_a_latest(all, s) && s.filename == n,
        winner(all, n) is None ==> forall|i: int| 0 <= i < all.len() ==> (#[trigger] all[i]).filename != n,
    decreases all.len(),
{
    if all.len() > 0 {
        let d = all.drop_last();
        let x = all.last();
        let z = all.len() - 1;
        lemma_winner_is_latest(d, n);
        match winner(all, n) {
            None => {
                assert forall|i: int| 0 <= i < all.len() implies (#[trigger] all[i]).filename != n by {
                    if i < z {
                        assert(all[i] == d[i]);
                    }
                }
            },
            Some(s) => {
                match winner(d, n) {
                    None => {
                        assert forall|j: int|
                            0 <= j < all.len() && (#[trigger] all[j]).filename == all[z].filename && z
                                != j implies false by {
                            assert(all[j] == d[j]);
                        }
                        assert(is_latest(all, z));
                        assert(all[z] == s);
                    },
                    Some(y) => {
                        let k = choose|k: int| 0 <= k < d.len() && #[trigger] d[k] == y && is_latest(d, k);
                        assert(all[k] == y);
                        if x.filename == n && !older(x, y) {
                            assert forall|j: int|
                                0 <= j < all.len() && (#[trigger] all[j]).filename == all[z].filename && z
                                    != j implies older(all[j], all[z]) || (!older(
                                all[z],
                                all[j],
                            ) && j < z) by {
                                assert(all[j] == d[j]);
                                if j != k {
                                    assert(older(d[j], d[k]) || !older(d[k], d[j]));
                                    lemma_not_older_step(d[j], y, x);
                                }
                            }
                            assert(is_latest(all, z));
                            assert(all[z] == s);
                        } else {
                            assert forall|j: int|
                                0 <= j < all.len() && (#[trigger] all[j]).filename == all[k].filename && k
                                    != j implies older(all[j], all[k]) || (!older(
                                all[k],
                                all[j],
                            ) && j < k) by {
                                if j < z {
                                    assert(all[j] == d[j]);
                                }
                            }
                            assert(is_latest(all, k));
                            assert(all[k] == s);
                        }
                    },
                }
            },
        }
    }
}

/// A name has one latest change.
proof fn lemma_latest_is_winner(all: Seq<Scatter>, s: Scatter)
    requires
        is_a_latest(all, s),
    ensures
        winner(all, s.filename) == Some(s),
{
    lemma_winner_is_latest(all, s.filename);
    let i = choose|i: int| 0 <= i < all.len() && #[trigger] all[i] == s && is_latest(all, i);
    assert(winner(all, s.filename) is Some);
    let w = winner(all, s.filename).unwrap();
    let k = choose|k: int| 0 <= k < all.len() && #[trigger] all[k] == w && is_latest(all, k);
    if i != k {
        assert(older(all[i], all[k]) || (!older(all[k], all[i]) && i < k));
        assert(older(all[k], all[i]) || (!older(all[i], all[k]) && k < i));
        law_changes_are_ordered(all[i], all[k], all[i]);
    }
}

/// Only the changes of a name decide which of them counts, so a listing of
/// that name's changes alone gives the same answer as one of all.
pub proof fn law_winner_needs_only_its_name(all: Seq<Scatter>, n: Seq<char>)
    ensures
        winner(all.filter(|s: Scatter| s.filename == n), n) == winner(all, n),
    decreases all.len(),
{
    reveal(Seq::filter);
    let p = |s: Scatter| s.filename == n;
    if all.len() > 0 {
        law_winner_needs_only_its_name(all.drop_last(), n);
        let rest = all.drop_last().filter(p);
        if p(all.last()) {
            assert(all.filter(p) =~= rest.push(all.last()));
            assert(all.filter(p).drop_last() =~= rest);
        } else {
            assert(all.filter(p) =~= rest);
        }
    }
}

/// A change takes effect as soon as its scatter object is there: being later
/// than the changes of its name before it, it is the one that counts, and no
/// other name is affected.
pub proof fn law_a_committed_change_counts_at_once(all: Seq<Scatter>, x: Scatter, n: Seq<char>)
    requires
        forall|i: int| 0 <= i < all.len() && (#[trigger] all[i]).filename == x.filename ==> older(all[i], x),
    ensures
        winner(all.push(x), n) == if n == x.filename {
            Some(x)
        } else {
            winner(all, n)
        },
{
    assert(all.push(x).drop_last() =~= all);
    lemma_winner_is_latest(all, n);
    match winner(all, n) {
        Some(y) => {
            let k = choose|k: int| 0 <= k < all.len() && #[trigger] all[k] == y && is_latest(all, k);
            if n == x.filename {
                assert(older(all[k], x));
                law_changes_are_ordered(y, x, y);
            }
        },
        None => {},
    }
}

/// The last view holds the winner of every name that has changed, and nothing
/// else.
pub proof fn law_last_view_holds_the_winners(all: Seq<Scatter>, last: Seq<Scatter>, s: Scatter)
    requires
        is_last_view(all, last),
    ensures
        last.contains(s) <==> winner(all, s.filename) == Some(s),
{
    if last.contains(s) {
        let k = choose|k: int| 0 <= k < last.len() && last[k] == s;
        assert(is_a_latest(all, last[k]));
        lemma_latest_is_winner(all, s);
    }
    if winner(all, s.filename) == Some(s) {
        lemma_winner_is_latest(all, s.filename);
        let i = choose|i: int| 0 <= i < all.len() && #[trigger] all[i] == s && is_latest(all, i);
        assert(last.contains(all[i]));
    }
}

// ---------------------------------------------------------------------------
// Sorting the changes
// ---------------------------------------------------------------------------

/// The outstanding changes of a directory, sorted by what they ask for.
#[derive(Debug)]
pub struct ScatterPlan {
    /// The keys of all scatter objects that were listed.
    pub all_keys: Vec<String>,
    /// The latest changes that create or update their name. Their bodies are
    /// to be fetched.
    pub to_fetch: Vec<DirScatterInode>,
    /// The latest changes that unlink their name.
    pub unlinked: Vec<DirScatterInode>,
    /// The latest changes that delete their name: the tombstones.
    pub deleted: Vec<DirScatterInode>,
}

/// The plan sorts the changes of the last view `last` of `all`.
pub open spec fn sorts(p: ScatterPlan, all: Seq<Scatter>, last: Seq<Scatter>) -> bool {
    &&& is_last_view(all, last)
    &&& string_views(p.all_keys@) == all.map_values(|s: Scatter| s.key)
    &&& scatter_views(p.to_fetch@) == last.filter(|s: Scatter| is_live(s))
    &&& scatter_views(p.unlinked@) == last.filter(|s: Scatter| s.op == DirScatterInodeOp::PreDelete)
    &&& scatter_views(p.deleted@) == last.filter(|s: Scatter| s.op == DirScatterInodeOp::Delete)
}

/// Sorts the outstanding changes of a directory. A latest change of unknown op
/// asks for nothing.
pub fn plan_changes(scatters: Vec<DirScatterInode>) -> (r: ScatterPlan)
    ensures
        exists|last: Seq<Scatter>| #[trigger] sorts(r, scatter_views(scatters@), last),
{
    let ghost all = scatter_views(scatters@);
    let mut all_keys: Vec<String> = Vec::new();
    for i in 0..scatters.len()
        invariant
            all == scatter_views(scatters@),
            string_views(all_keys@) =~= all.take(i as int).map_values(|s: Scatter| s.key),
    {
        assert(all[i as int] == scatters@[i as int]@);
        let ghost before = string_views(all_keys@);
        let key: String = scatters[i].key.clone();
        all_keys.push(key);
        assert(string_views(all_keys@) =~= before.push(key@));
        assert(all.take(i + 1) =~= all.take(i as int).push(all[i as int]));
    }
    assert(all.take(all.len() as int) =~= all);
    let last: Vec<DirScatterInode> = DirScatterInode::filter_last_view(scatters);
    let ghost view = scatter_views(last@);
    let ghost live = |s: Scatter| is_live(s);
    let ghost pre = |s: Scatter| s.op == DirScatterInodeOp::PreDelete;
    let ghost del = |s: Scatter| s.op == DirScatterInodeOp::Delete;
    let mut to_fetch: Vec<DirScatterInode> = Vec::new();
    let mut unlinked: Vec<DirScatterInode> = Vec::new();
    let mut deleted: Vec<DirScatterInode> = Vec::new();
    proof {
        reveal(Seq::filter);
    }
    assert(scatter_views(to_fetch@) =~= view.take(0).filter(live));
    assert(scatter_views(unlinked@) =~= view.take(0).filter(pre));
    assert(scatter_views(deleted@) =~= view.take(0).filter(del));
    for i in 0..last.len()
        invariant
            view == scatter_views(last@),
            live == (|s: Scatter| is_live(s)),
            pre == (|s: Scatter| s.op == DirScatterInodeOp::PreDelete),
            del == (|s: Scatter| s.op == DirScatterInodeOp::Delete),
            scatter_views(to_fetch@) == view.take(i as int).filter(live),
            scatter_views(unlinked@) == view.take(i as int).filter(pre),
            scatter_views(deleted@) == view.take(i as int).filter(del),
    {
        proof {
            reveal(Seq::filter);
        }
        assert(view.take(i + 1).drop_last() =~= view.take(i as int));
        assert(view.take(i + 1).last() == last@[i as int]@);
        let s: DirScatterInode = last[i].copy();
        let ghost f = scatter_views(to_fetch@);
        let ghost u = scatter_views(unlinked@);
        let ghost d = scatter_views(deleted@);
        match s.op {
            DirScatterInodeOp::Unknown => {},
            DirScatterInodeOp::PreDelete => {
                unlinked.push(s);
                assert(scatter_views(unlinked@) =~= u.push(s@));
            },
            DirScatterInodeOp::Delete => {
                deleted.push(s);
                assert(scatter_views(deleted@) =~= d.push(s@));
            },
            DirScatterInodeOp::Create | DirScatterInodeOp::Update => {
                to_fetch.push(s);
                assert(scatter_views(to_fetch@) =~= f.push(s@));
            },
        }
    }
    assert(view.take(view.len() as int) =~= view);
    let r: ScatterPlan = ScatterPlan { all_keys, to_fetch, unlinked, deleted };
    assert(sorts(r, all, view));
    r
}

/// The entry that a creation or update puts under its name, given the inode
/// that its scatter object carries.
pub fn upsert_entry(s: &DirScatterInode, body: &[u8]) -> (r: DirFileEntryRaw)
    requires
        body.len() == INODE_RAW_SIZE,
    ensures
        r.inode.bytes@ == body@,
        r.uuid == s.uuid,
        r.name@ == padded(trimmed(encode_utf8(s.filename@))),
        r.filename() == index_name(s.filename@),
        shown_entry(r).name == shown_name(s.filename@),
{
    let inode: InodeRaw = InodeRaw::from_u8_slice(body);
    DirFileEntryRaw::from(&inode, &s.uuid, s.filename.as_str().as_bytes())
}

// ---------------------------------------------------------------------------
// Listing a directory
// ---------------------------------------------------------------------------

/// The entries that stored entries show.
pub open spec fn shown_entries(raws: Seq<DirFileEntryRaw>) -> Seq<Entry> {
    raws.map_values(|e: DirFileEntryRaw| shown_entry(e))
}

/// Some entry has the name.
pub open spec fn has_name(s: Seq<DirFileEntryRaw>, name: Seq<u8>) -> bool {
    exists|i: int| 0 <= i < s.len() && (#[trigger] s[i]).filename() == name
}

/// The names under which the index keeps some files.
pub open spec fn index_names(files: Seq<Seq<char>>) -> Seq<Seq<u8>> {
    files.map_values(|f: Seq<char>| index_name(f))
}

/// A listing: the entries of the index that no change replaces or removes,
/// then the created and updated ones; without placeholders. Entries are told
/// apart by the name they hold.
pub open spec fn merged(
    base: Seq<DirFileEntryRaw>,
    ups: Seq<DirFileEntryRaw>,
    gone: Seq<Seq<u8>>,
) -> Seq<DirFileEntryRaw> {
    base.filter(|e: DirFileEntryRaw| !e.dummy() && !has_name(ups, e.filename()) && !gone.contains(e.filename()))
        + ups.filter(|e: DirFileEntryRaw| !e.dummy() && !gone.contains(e.filename()))
}

/// The first entry that has the name.
pub open spec fn find_entry(s: Seq<DirFileEntryRaw>, name: Seq<u8>) -> Option<DirFileEntryRaw>
    decreases s.len(),
{
    if s.len() == 0 {
        None
    } else {
        match find_entry(s.drop_last(), name) {
            Some(e) => Some(e),
            None => if s.last().filename() == name {
                Some(s.last())
            } else {
                None
            },
        }
    }
}

/// No two entries have the same name.
pub open spec fn names_distinct(s: Seq<DirFileEntryRaw>) -> bool {
    forall|i: int, j: int|
        0 <= i < s.len() && 0 <= j < s.len() && (#[trigger] s[i]).filename() == (#[trigger] s[j]).filename() ==> i == j
}

/// Bytes as a text of the characters of the same numbers.
spec fn byte_chars(b: Seq<u8>) -> Seq<char> {
    b.map_values(|x: u8| x as char)
}

proof fn lemma_byte_chars(a: Seq<u8>, b: Seq<u8>)
    ensures
        byte_chars(a) == byte_chars(b) ==> a == b,
{
    if byte_chars(a) == byte_chars(b) {
        assert(byte_chars(a).len() == a.len() && byte_chars(b).len() == b.len());
        assert forall|i: int| 0 <= i < a.len() implies a[i] == b[i] by {
            assert(byte_chars(a)[i] == a[i] as char);
            assert(byte_chars(b)[i] == b[i] as char);
            assert(a[i] as char as u32 == b[i] as char as u32);
        }
        assert(a =~= b);
    }
}

/// Bytes as a text of the characters of the same numbers.
fn byte_text(b: &[u8]) -> (r: String)
    ensures
        r@ == byte_chars(b@),
{
    let mut s: String = String::new();
    assert(s@ =~= byte_chars(b@.take(0)));
    for i in 0..b.len()
        invariant
            s@ == byte_chars(b@.take(i as int)),
    {
        s.push(b[i] as char);
        assert(b@.take(i + 1) =~= b@.take(i as int).push(b@[i as int]));
        assert(byte_chars(b@.take(i + 1)) =~= byte_chars(b@.take(i as int)).push(b@[i as int] as char));
    }
    assert(b@.take(b@.len() as int) =~= b@);
    s
}

/// The names of some entries, as the keys of a map.
fn name_set(v: &Vec<DirFileEntryRaw>) -> (r: StringHashMap<bool>)
    ensures
        forall|n: Seq<u8>| r@.contains_key(#[trigger] byte_chars(n)) <==> has_name(v@, n),
{
    let mut names: StringHashMap<bool> = StringHashMap::new();
    for i in 0..v.len()
        invariant
            forall|n: Seq<u8>| names@.contains_key(#[trigger] byte_chars(n)) <==> has_name(v@.take(i as int), n),
    {
        let ghost before = names@;
        let ghost a = v@.take(i as int);
        let ghost b = v@.take(i + 1);
        let own: Vec<u8> = v[i].name_bytes();
        names.insert(byte_text(own.as_slice()), true);
        assert forall|n: Seq<u8>| names@.contains_key(#[trigger] byte_chars(n)) <==> has_name(b, n) by {
            lemma_byte_chars(n, own@);
            assert(forall|j: int| 0 <= j < i ==> a[j] == b[j]);
            assert(b[i as int] == v@[i as int]);
            if before.contains_key(byte_chars(n)) {
                let j = choose|j: int| 0 <= j < a.len() && (#[trigger] a[j]).filename() == n;
                assert(b[j].filename() == n);
            }
            if has_name(b, n) {
                let j = choose|j: int| 0 <= j < b.len() && (#[trigger] b[j]).filename() == n;
                if j < i {
                    assert(a[j].filename() == n);
                    assert(before.contains_key(byte_chars(n)));
                }
            }
        }
    }
    assert(v@.take(v.len() as int) =~= v@);
    names
}

/// The names under which the index keeps the given files, as the keys of a
/// map.
fn gone_set(gone: &Vec<String>) -> (r: StringHashMap<bool>)
    ensures
        forall|n: Seq<u8>|
            r@.contains_key(#[trigger] byte_chars(n)) <==> index_names(string_views(gone@)).contains(n),
{
    let ghost all = index_names(string_views(gone@));
    let mut names: StringHashMap<bool> = StringHashMap::new();
    for i in 0..gone.len()
        invariant
            all == index_names(string_views(gone@)),
            forall|n: Seq<u8>| names@.contains_key(#[trigger] byte_chars(n)) <==> all.take(i as int).contains(n),
    {
        let ghost before = names@;
        let ghost a = all.take(i as int);
        let ghost b = all.take(i + 1);
        let own: Vec<u8> = name_in_index(gone[i].as_str());
        names.insert(byte_text(own.as_slice()), true);
        assert forall|n: Seq<u8>| names@.contains_key(#[trigger] byte_chars(n)) <==> b.contains(n) by {
            lemma_byte_chars(n, own@);
            assert(forall|j: int| 0 <= j < i ==> a[j] == b[j]);
            assert(string_views(gone@)[i as int] == gone@[i as int]@);
            assert(b[i as int] == own@);
            if before.contains_key(byte_chars(n)) {
                let j = choose|j: int| 0 <= j < a.len() && a[j] == n;
                assert(b[j] == n);
            }
            if b.contains(n) {
                let j = choose|j: int| 0 <= j < b.len() && b[j] == n;
                if j < i {
                    assert(a[j] == n);
                    assert(before.contains_key(byte_chars(n)));
                }
            }
        }
    }
    assert(all.take(gone.len() as int) =~= all);
    names
}

/// The listing of a directory: the entries of its index, overlaid with the
/// created and updated ones, without the files that are gone.
pub fn merge_view(
    snapshot: &Vec<DirFileEntryRaw>,
    upserts: &Vec<DirFileEntryRaw>,
    gone: &Vec<String>,
) -> (r: Vec<DirFileEntry>)
    ensures
        entry_views(r@) == shown_entries(merged(snapshot@, upserts@, index_names(string_views(gone@)))),
{
    let replaced: StringHashMap<bool> = name_set(upserts);
    let dead: StringHashMap<bool> = gone_set(gone);
    let ghost b = snapshot@;
    let ghost u = upserts@;
    let ghost g = index_names(string_views(gone@));
    let ghost keep = |e: DirFileEntryRaw| !e.dummy() && !has_name(u, e.filename()) && !g.contains(e.filename());
    let ghost alive = |e: DirFileEntryRaw| !e.dummy() && !g.contains(e.filename());
    let mut out: Vec<DirFileEntry> = Vec::new();
    proof {
        reveal(Seq::filter);
    }
    assert(entry_views(out@) =~= shown_entries(b.take(0).filter(keep)));
    for i in 0..snapshot.len()
        invariant
            b == snapshot@,
            keep == (|e: DirFileEntryRaw| !e.dummy() && !has_name(u, e.filename()) && !g.contains(e.filename())),
            forall|n: Seq<u8>| replaced@.contains_key(#[trigger] byte_chars(n)) <==> has_name(u, n),
            forall|n: Seq<u8>| dead@.contains_key(#[trigger] byte_chars(n)) <==> g.contains(n),
            entry_views(out@) == shown_entries(b.take(i as int).filter(keep)),
    {
        proof {
            reveal(Seq::filter);
        }
        let e: DirFileEntryRaw = snapshot[i];
        let ghost now = entry_views(out@);
        let ghost before = b.take(i as int).filter(keep);
        assert(b.take(i + 1).drop_last() =~= b.take(i as int));
        assert(b.take(i + 1).last() == e);
        let own: String = byte_text(e.name_bytes().as_slice());
        if !e.is_dummy() && !replaced.contains_key(own.as_str()) && !dead.contains_key(own.as_str()) {
            let d: DirFileEntry = DirFileEntry::from_raw(&e);
            out.push(d);
            assert(entry_views(out@) =~= now.push(d@));
            assert(shown_entries(before.push(e)) =~= shown_entries(before).push(shown_entry(e)));
        }
    }
    assert(b.take(b.len() as int) =~= b);
    let ghost head = b.filter(keep);
    assert(head + u.take(0).filter(alive) =~= head);
    for i in 0..upserts.len()
        invariant
            u == upserts@,
            alive == (|e: DirFileEntryRaw| !e.dummy() && !g.contains(e.filename())),
            forall|n: Seq<u8>| dead@.contains_key(#[trigger] byte_chars(n)) <==> g.contains(n),
            entry_views(out@) == shown_entries(head + u.take(i as int).filter(alive)),
    {
        proof {
            reveal(Seq::filter);
        }
        let e: DirFileEntryRaw = upserts[i];
        let ghost now = entry_views(out@);
        let ghost before = head + u.take(i as int).filter(alive);
        assert(u.take(i + 1).drop_last() =~= u.take(i as int));
        assert(u.take(i + 1).last() == e);
        let own: String = byte_text(e.name_bytes().as_slice());
        if !e.is_dummy() && !dead.contains_key(own.as_str()) {
            let d: DirFileEntry = DirFileEntry::from_raw(&e);
            out.push(d);
            assert(entry_views(out@) =~= now.push(d@));
            assert(head + u.take(i + 1).filter(alive) =~= before.push(e));
            assert(shown_entries(before.push(e)) =~= shown_entries(before).push(shown_entry(e)));
        }
    }
    assert(u.take(u.len() as int) =~= u);
    out
}

// ---------------------------------------------------------------------------
// Resolving one name
// ---------------------------------------------------------------------------

/// How one name is resolved, given the outstanding changes of that name.
#[derive(Debug)]
pub enum ResolveStep {
    /// The name is gone.
    Absent,
    /// The name is there; its inode is the body of this scatter object.
    Fetch(DirScatterInode),
    /// No change decides: the index does.
    PointLookup,
}

/// Decides how a name is resolved, from the changes listed for it. An entry
/// of the index alone decides nothing, since a later unlink may hide it.
pub fn resolve_step(scatters: &Vec<DirScatterInode>, name: &str) -> (r: ResolveStep)
    ensures
        match winner(scatter_views(scatters@), name@) {
            None => r == ResolveStep::PointLookup,
            Some(s) => if is_dead(s) {
                r == ResolveStep::Absent
            } else if is_live(s) {
                r matches ResolveStep::Fetch(x) && x@ == s
            } else {
                r == ResolveStep::PointLookup
            },
        },
{
    let ghost all = scatter_views(scatters@);
    let mut best: Option<usize> = None;
    for i in 0..scatters.len()
        invariant
            all == scatter_views(scatters@),
            match best {
                None => winner(all.take(i as int), name@) is None,
                Some(b) => b < i && winner(all.take(i as int), name@) == Some(all[b as int]),
            },
    {
        assert(all.take(i + 1).drop_last() =~= all.take(i as int));
        assert(all.take(i + 1).last() == scatters@[i as int]@);
        if same_text(scatters[i].filename.as_str(), name) {
            match best {
                None => {
                    best = Some(i);
                },
                Some(b) => {
                    assert(all[b as int] == scatters@[b as int]@);
                    if !scatters[i].is_older(&scatters[b]) {
                        best = Some(i);
                    }
                },
            }
        }
    }
    assert(all.take(all.len() as int) =~= all);
    match best {
        None => ResolveStep::PointLookup,
        Some(b) => {
            assert(all[b as int] == scatters@[b as int]@);
            match scatters[b].op {
                DirScatterInodeOp::Create | DirScatterInodeOp::Update => ResolveStep::Fetch(scatters[b].copy()),
                DirScatterInodeOp::PreDelete | DirScatterInodeOp::Delete => ResolveStep::Absent,
                DirScatterInodeOp::Unknown => ResolveStep::PointLookup,
            }
        },
    }
}

/// The entry of a name whose scatter object has been fetched; `None` where the
/// object is gone by now, so that the index decides.
pub fn resolve_fetched(s: &DirScatterInode, body: Option<&Vec<u8>>) -> (r: Option<DirFileEntry>)
    requires
        body matches Some(b) ==> b.len() == INODE_RAW_SIZE,
    ensures
        r is Some <==> body is Some,
        r matches Some(e) ==> e.inode.bytes@ == body->Some_0@ && e.uuid == s.uuid && e.name@ == shown_name(
            s.filename@,
        ),
{
    match body {
        Some(b) => Some(DirFileEntry::from_raw(&upsert_entry(s, b.as_slice()))),
        None => None,
    }
}

// ---------------------------------------------------------------------------
// Laws of listings
// ---------------------------------------------------------------------------

pub proof fn lemma_find_entry(s: Seq<DirFileEntryRaw>, name: Seq<u8>)
    ensures
        find_entry(s, name) is Some <==> has_name(s, name),
        find_entry(s, name) matches Some(e) ==> e.filename() == name && s.contains(e),
    decreases s.len(),
{
    if s.len() > 0 {
        let d = s.drop_last();
        lemma_find_entry(d, name);
        if has_name(d, name) {
            let i = choose|i: int| 0 <= i < d.len() && (#[trigger] d[i]).filename() == name;
            assert(s[i].filename() == name);
            let e = find_entry(d, name).unwrap();
            let k = choose|k: int| 0 <= k < d.len() && d[k] == e;
            assert(s[k] == e);
        } else {
            if s.last().filename() == name {
                assert(s[s.len() - 1].filename() == name);
            }
            if has_name(s, name) {
                let i = choose|i: int| 0 <= i < s.len() && (#[trigger] s[i]).filename() == name;
                if i < d.len() {
                    assert(d[i].filename() == name);
                }
            }
        }
    }
}

proof fn lemma_find_concat(a: Seq<DirFileEntryRaw>, b: Seq<DirFileEntryRaw>, name: Seq<u8>)
    ensures
        find_entry(a + b, name) == match find_entry(a, name) {
            Some(e) => Some(e),
            None => find_entry(b, name),
        },
    decreases b.len(),
{
    if b.len() > 0 {
        lemma_find_concat(a, b.drop_last(), name);
        assert((a + b).drop_last() =~= a + b.drop_last());
    } else {
        assert(a + b =~= a);
    }
}

/// Filtering by name keeps or drops the entries of a name together.
proof fn lemma_find_filter(
    s: Seq<DirFileEntryRaw>,
    p: spec_fn(DirFileEntryRaw) -> bool,
    name: Seq<u8>,
    keep: bool,
)
    requires
        forall|e: DirFileEntryRaw| e.filename() == name ==> #[trigger] p(e) == keep,
    ensures
        find_entry(s.filter(p), name) == if keep {
            find_entry(s, name)
        } else {
            None
        },
    decreases s.len(),
{
    reveal(Seq::filter);
    if s.len() > 0 {
        let d = s.drop_last();
        lemma_find_filter(d, p, name, keep);
        if p(s.last()) {
            assert(s.filter(p) =~= d.filter(p).push(s.last()));
            assert(s.filter(p).drop_last() =~= d.filter(p));
        } else {
            assert(s.filter(p) =~= d.filter(p));
        }
    }
}

/// What a listing holds under a name: nothing where the file is gone, else the
/// created or updated entry, else the entry of the index.
pub proof fn law_listing_overlays_the_index(
    base: Seq<DirFileEntryRaw>,
    ups: Seq<DirFileEntryRaw>,
    gone: Seq<Seq<u8>>,
    name: Seq<u8>,
)
    requires
        entry_name(name),
    ensures
        find_entry(merged(base, ups, gone), name) == if gone.contains(name) {
            None
        } else {
            match find_entry(ups, name) {
                Some(e) => Some(e),
                None => find_entry(base, name),
            }
        },
{
    let keep = |e: DirFileEntryRaw| !e.dummy() && !has_name(ups, e.filename()) && !gone.contains(e.filename());
    let alive = |e: DirFileEntryRaw| !e.dummy() && !gone.contains(e.filename());
    assert forall|e: DirFileEntryRaw| e.filename() == name implies !(#[trigger] e.dummy()) by {
        if e.dummy() {
            lemma_dummy_name(e);
        }
    }
    lemma_find_entry(ups, name);
    lemma_find_filter(base, keep, name, !has_name(ups, name) && !gone.contains(name));
    lemma_find_filter(ups, alive, name, !gone.contains(name));
    lemma_find_concat(base.filter(keep), ups.filter(alive), name);
}

pub proof fn lemma_filter_members<A>(s: Seq<A>, p: spec_fn(A) -> bool, x: A)
    ensures
        s.filter(p).contains(x) <==> s.contains(x) && p(x),
    decreases s.len(),
{
    reveal(Seq::filter);
    if s.len() > 0 {
        let d = s.drop_last();
        let f = d.filter(p);
        lemma_filter_members(d, p, x);
        let g = s.filter(p);
        if p(s.last()) {
            assert(g =~= f.push(s.last()));
        } else {
            assert(g =~= f);
        }
        if g.contains(x) {
            let k = choose|k: int| 0 <= k < g.len() && g[k] == x;
            if k < f.len() {
                assert(f[k] == x);
                let j = choose|j: int| 0 <= j < d.len() && d[j] == x;
                assert(s[j] == x);
            } else {
                assert(s[s.len() - 1] == x);
            }
        }
        if s.contains(x) && p(x) {
            let j = choose|j: int| 0 <= j < s.len() && s[j] == x;
            if j < d.len() {
                assert(d[j] == x);
                let k = choose|k: int| 0 <= k < f.len() && f[k] == x;
                assert(g[k] == x);
            } else {
                assert(g[f.len() as int] == x);
            }
        }
    }
}

proof fn lemma_filter_distinct(s: Seq<DirFileEntryRaw>, p: spec_fn(DirFileEntryRaw) -> bool)
    requires
        names_distinct(s),
    ensures
        names_distinct(s.filter(p)),
    decreases s.len(),
{
    reveal(Seq::filter);
    if s.len() > 0 {
        let d = s.drop_last();
        assert forall|i: int, j: int|
            0 <= i < d.len() && 0 <= j < d.len() && (#[trigger] d[i]).filename() == (#[trigger] d[j]).filename() implies i
            == j by {
            assert(s[i].filename() == s[j].filename());
        }
        lemma_filter_distinct(d, p);
        let f = d.filter(p);
        let g = s.filter(p);
        if p(s.last()) {
            assert(g =~= f.push(s.last()));
            assert forall|i: int, j: int|
                0 <= i < g.len() && 0 <= j < g.len() && (#[trigger] g[i]).filename() == (#[trigger] g[j]).filename() implies i
                == j by {
                if i < f.len() && j < f.len() {
                    assert(f[i].filename() == f[j].filename());
                } else if i != j {
                    let o = if i < f.len() { i } else { j };
                    assert(f.contains(f[o]));
                    lemma_filter_members(d, p, f[o]);
                    let k = choose|k: int| 0 <= k < d.len() && d[k] == f[o];
                    assert(s[k].filename() == s[s.len() - 1].filename());
                }
            }
        } else {
            assert(g =~= f);
        }
    }
}

/// A listing holds no name twice, where the index and the created and updated
/// entries each have none twice. So concurrent creations of one name converge
/// to one entry.
pub proof fn law_listing_shows_no_name_twice(
    base: Seq<DirFileEntryRaw>,
    ups: Seq<DirFileEntryRaw>,
    gone: Seq<Seq<u8>>,
)
    requires
        names_distinct(base),
        names_distinct(ups),
    ensures
        names_distinct(merged(base, ups, gone)),
{
    let keep = |e: DirFileEntryRaw| !e.dummy() && !has_name(ups, e.filename()) && !gone.contains(e.filename());
    let alive = |e: DirFileEntryRaw| !e.dummy() && !gone.contains(e.filename());
    let a = base.filter(keep);
    let b = ups.filter(alive);
    lemma_filter_distinct(base, keep);
    lemma_filter_distinct(ups, alive);
    let m = a + b;
    assert forall|i: int, j: int|
        0 <= i < m.len() && 0 <= j < m.len() && (#[trigger] m[i]).filename() == (#[trigger] m[j]).filename() implies i
        == j by {
        if i < a.len() && j < a.len() {
            assert(a[i].filename() == a[j].filename());
        } else if i >= a.len() && j >= a.len() {
            assert(b[i - a.len()].filename() == b[j - a.len()].filename());
        } else {
            let x = if i < a.len() { i } else { j };
            let y = (if i < a.len() { j } else { i }) - a.len();
            assert(a.contains(a[x]));
            assert(b.contains(b[y]));
            lemma_filter_members(base, keep, a[x]);
            lemma_filter_members(ups, alive, b[y]);
            let k = choose|k: int| 0 <= k < ups.len() && ups[k] == b[y];
            assert(ups[k].filename() == a[x].filename());
            assert(has_name(ups, a[x].filename()));
        }
    }
}

/// `entry_of` gives, for each creation or update, the entry that it puts under
/// its name.
pub open spec fn makes_entries(entry_of: spec_fn(Scatter) -> DirFileEntryRaw) -> bool {
    forall|s: Scatter|
        (#[trigger] entry_of(s)).uuid == s.uuid && entry_of(s).name@ == padded(trimmed(encode_utf8(s.filename)))
}

/// The entries that the creations and updates of a last view put under their
/// names.
pub open spec fn made_entries(last: Seq<Scatter>, entry_of: spec_fn(Scatter) -> DirFileEntryRaw) -> Seq<
    DirFileEntryRaw,
> {
    last.filter(|s: Scatter| is_live(s)).map_values(|s: Scatter| entry_of(s))
}

/// The files that the unlinks and deletes of a last view remove.
pub open spec fn gone_files(last: Seq<Scatter>) -> Seq<Seq<char>> {
    last.filter(|s: Scatter| s.op == DirScatterInodeOp::PreDelete).map_values(|s: Scatter| s.filename) + last.filter(
        |s: Scatter| s.op == DirScatterInodeOp::Delete,
    ).map_values(|s: Scatter| s.filename)
}

/// The index does not mistake any of the changed files for the file `n`: that
/// takes names that agree in their first 255 bytes.
pub open spec fn apart(all: Seq<Scatter>, n: Seq<char>) -> bool {
    forall|i: int|
        0 <= i < all.len() && index_name((#[trigger] all[i]).filename) == index_name(n) ==> all[i].filename == n
}

/// Files whose names an entry can hold are never mistaken for each other.
pub proof fn law_holdable_names_are_apart(all: Seq<Scatter>, n: Seq<char>)
    requires
        holdable(n),
        forall|i: int| 0 <= i < all.len() ==> holdable((#[trigger] all[i]).filename),
    ensures
        apart(all, n),
{
    law_ordinary_names_are_kept_whole(n);
    assert forall|i: int| 0 <= i < all.len() && index_name((#[trigger] all[i]).filename) == index_name(
        n,
    ) implies all[i].filename == n by {
        law_ordinary_names_are_kept_whole(all[i].filename);
        vstd::utf8::encode_utf8_decode_utf8(n);
        vstd::utf8::encode_utf8_decode_utf8(all[i].filename);
    }
}

/// The latest change of a file is one of the changes.
proof fn lemma_winner_is_listed(all: Seq<Scatter>, s: Scatter)
    requires
        winner(all, s.filename) == Some(s),
    ensures
        exists|i: int| 0 <= i < all.len() && #[trigger] all[i] == s,
{
    lemma_winner_is_latest(all, s.filename);
    let i = choose|i: int| 0 <= i < all.len() && #[trigger] all[i] == s && is_latest(all, i);
    assert(all[i] == s);
}

proof fn lemma_made_entries(
    all: Seq<Scatter>,
    last: Seq<Scatter>,
    entry_of: spec_fn(Scatter) -> DirFileEntryRaw,
    n: Seq<char>,
)
    requires
        is_last_view(all, last),
        makes_entries(entry_of),
        apart(all, n),
    ensures
        find_entry(made_entries(last, entry_of), index_name(n)) == match winner(all, n) {
            Some(s) => if is_live(s) {
                Some(entry_of(s))
            } else {
                None
            },
            None => None,
        },
{
    let live = |s: Scatter| is_live(s);
    let f = last.filter(live);
    let ups = made_entries(last, entry_of);
    lemma_find_entry(ups, index_name(n));
    lemma_winner_is_latest(all, n);
    match find_entry(ups, index_name(n)) {
        Some(e) => {
            let k = choose|k: int| 0 <= k < ups.len() && ups[k] == e;
            let s = f[k];
            assert(ups[k] == entry_of(s));
            assert(f.contains(s));
            lemma_filter_members(last, live, s);
            law_last_view_holds_the_winners(all, last, s);
            lemma_winner_is_listed(all, s);
            let i = choose|i: int| 0 <= i < all.len() && #[trigger] all[i] == s;
            assert(index_name(all[i].filename) == index_name(n));
            assert(s.filename == n);
        },
        None => {
            match winner(all, n) {
                Some(s) => {
                    if is_live(s) {
                        law_last_view_holds_the_winners(all, last, s);
                        lemma_filter_members(last, live, s);
                        let k = choose|k: int| 0 <= k < f.len() && f[k] == s;
                        assert(ups[k] == entry_of(s));
                        assert(ups[k].filename() == index_name(n));
                    }
                },
                None => {},
            }
        },
    }
}

proof fn lemma_gone_files(all: Seq<Scatter>, last: Seq<Scatter>, n: Seq<char>)
    requires
        is_last_view(all, last),
        apart(all, n),
    ensures
        index_names(gone_files(last)).contains(index_name(n)) <==> (winner(all, n) matches Some(s) && is_dead(s)),
{
    let pre = |s: Scatter| s.op == DirScatterInodeOp::PreDelete;
    let del = |s: Scatter| s.op == DirScatterInodeOp::Delete;
    let a = last.filter(pre);
    let b = last.filter(del);
    let g = gone_files(last);
    let h = index_names(g);
    if h.contains(index_name(n)) {
        let k = choose|k: int| 0 <= k < h.len() && h[k] == index_name(n);
        let s = if k < a.len() { a[k] } else { b[k - a.len()] };
        assert(g[k] == s.filename);
        if k < a.len() {
            assert(a.contains(s));
        } else {
            assert(b.contains(s));
        }
        lemma_filter_members(last, pre, s);
        lemma_filter_members(last, del, s);
        law_last_view_holds_the_winners(all, last, s);
        lemma_winner_is_listed(all, s);
        let i = choose|i: int| 0 <= i < all.len() && #[trigger] all[i] == s;
        assert(index_name(all[i].filename) == index_name(n));
        assert(s.filename == n);
    }
    match winner(all, n) {
        Some(s) => {
            if is_dead(s) {
                lemma_winner_is_latest(all, n);
                law_last_view_holds_the_winners(all, last, s);
                lemma_filter_members(last, pre, s);
                lemma_filter_members(last, del, s);
                if s.op == DirScatterInodeOp::PreDelete {
                    let k = choose|k: int| 0 <= k < a.len() && a[k] == s;
                    assert(g[k] == n);
                    assert(h[k] == index_name(n));
                } else {
                    let k = choose|k: int| 0 <= k < b.len() && b[k] == s;
                    assert(g[a.len() + k] == n);
                    assert(h[a.len() + k] == index_name(n));
                }
            }
        },
        None => {},
    }
}

/// Listing and resolving agree: what a listing of the directory holds for a
/// file is what resolving that file's name alone gives. The latest change of
/// the name decides, and the index where there is none or one of unknown op.
pub proof fn law_listing_agrees_with_resolve(
    all: Seq<Scatter>,
    last: Seq<Scatter>,
    entry_of: spec_fn(Scatter) -> DirFileEntryRaw,
    base: Seq<DirFileEntryRaw>,
    n: Seq<char>,
)
    requires
        is_last_view(all, last),
        makes_entries(entry_of),
        apart(all, n),
    ensures
        find_entry(merged(base, made_entries(last, entry_of), index_names(gone_files(last))), index_name(n))
            == match winner(all, n) {
            Some(s) => if is_dead(s) {
                None
            } else if is_live(s) {
                Some(entry_of(s))
            } else {
                find_entry(base, index_name(n))
            },
            None => find_entry(base, index_name(n)),
        },
{
    law_every_file_can_be_indexed(n);
    law_listing_overlays_the_index(
        base,
        made_entries(last, entry_of),
        index_names(gone_files(last)),
        index_name(n),
    );
    lemma_made_entries(all, last, entry_of, n);
    lemma_gone_files(all, last, n);
}

/// Compaction does not change what is seen: with the overlay folded into the
/// index and nothing left over but tombstones of names that were gone, those
/// that were there and those that the second phase of a delete has written,
/// every file is seen as it was before.
pub proof fn law_compaction_preserves_the_listing(
    all: Seq<Scatter>,
    last: Seq<Scatter>,
    entry_of: spec_fn(Scatter) -> DirFileEntryRaw,
    base: Seq<DirFileEntryRaw>,
    kept: Seq<Scatter>,
    kept_last: Seq<Scatter>,
    n: Seq<char>,
)
    requires
        is_last_view(all, last),
        makes_entries(entry_of),
        apart(all, n),
        is_last_view(kept, kept_last),
        forall|i: int|
            0 <= i < kept.len() ==> (#[trigger] kept[i]).op == DirScatterInodeOp::Delete && (winner(
                all,
                kept[i].filename,
            ) matches Some(s) && is_dead(s)),
    ensures
        ({
            let folded = merged(base, made_entries(last, entry_of), index_names(gone_files(last)));
            find_entry(
                merged(folded, made_entries(kept_last, entry_of), index_names(gone_files(kept_last))),
                index_name(n),
            ) == find_entry(folded, index_name(n))
        }),
{
    let folded = merged(base, made_entries(last, entry_of), index_names(gone_files(last)));
    assert(apart(kept, n)) by {
        assert forall|i: int| 0 <= i < kept.len() && index_name((#[trigger] kept[i]).filename) == index_name(
            n,
        ) implies kept[i].filename == n by {
            let s = winner(all, kept[i].filename).unwrap();
            lemma_winner_is_latest(all, kept[i].filename);
            lemma_winner_is_listed(all, s);
            let k = choose|k: int| 0 <= k < all.len() && #[trigger] all[k] == s;
            assert(index_name(all[k].filename) == index_name(n));
        }
    }
    law_listing_agrees_with_resolve(all, last, entry_of, base, n);
    law_listing_agrees_with_resolve(kept, kept_last, entry_of, folded, n);
    lemma_winner_is_latest(kept, n);
    match winner(kept, n) {
        Some(s) => {
            let i = choose|i: int| 0 <= i < kept.len() && #[trigger] kept[i] == s && is_latest(kept, i);
            assert(kept[i].op == DirScatterInodeOp::Delete);
        },
        None => {},
    }
}

/// Folding twice is folding once: a compaction that was broken off after the
/// index was written, with every scatter object still there, shows what it
/// showed before and folds to the same again.
pub proof fn law_refolding_changes_nothing(
    all: Seq<Scatter>,
    last: Seq<Scatter>,
    entry_of: spec_fn(Scatter) -> DirFileEntryRaw,
    base: Seq<DirFileEntryRaw>,
    n: Seq<char>,
)
    requires
        is_last_view(all, last),
        makes_entries(entry_of),
        apart(all, n),
    ensures
        ({
            let ups = made_entries(last, entry_of);
            let gone = index_names(gone_files(last));
            let folded = merged(base, ups, gone);
            find_entry(merged(folded, ups, gone), index_name(n)) == find_entry(folded, index_name(n))
        }),
{
    let folded = merged(base, made_entries(last, entry_of), index_names(gone_files(last)));
    law_listing_agrees_with_resolve(all, last, entry_of, base, n);
    law_listing_agrees_with_resolve(all, last, entry_of, folded, n);
}

/// The creations and updates of a last view hold no name twice, so that
/// concurrent creations of one name converge to one entry.
pub proof fn law_concurrent_creations_converge(
    all: Seq<Scatter>,
    last: Seq<Scatter>,
    entry_of: spec_fn(Scatter) -> DirFileEntryRaw,
    base: Seq<DirFileEntryRaw>,
)
    requires
        is_last_view(all, last),
        makes_entries(entry_of),
        forall|i: int| 0 <= i < all.len() ==> apart(all, (#[trigger] all[i]).filename),
        names_distinct(base),
    ensures
        names_distinct(made_entries(last, entry_of)),
        names_distinct(merged(base, made_entries(last, entry_of), index_names(gone_files(last)))),
{
    let live = |s: Scatter| is_live(s);
    let f = last.filter(live);
    let ups = made_entries(last, entry_of);
    lemma_filter_distinct_files(last, live);
    assert forall|i: int, j: int|
        0 <= i < ups.len() && 0 <= j < ups.len() && (#[trigger] ups[i]).filename() == (#[trigger] ups[j]).filename() implies i
        == j by {
        assert(ups[i] == entry_of(f[i]) && ups[j] == entry_of(f[j]));
        assert(f.contains(f[i]) && f.contains(f[j]));
        lemma_filter_members(last, live, f[i]);
        lemma_filter_members(last, live, f[j]);
        law_last_view_holds_the_winners(all, last, f[i]);
        law_last_view_holds_the_winners(all, last, f[j]);
        lemma_winner_is_listed(all, f[i]);
        lemma_winner_is_listed(all, f[j]);
        let x = choose|x: int| 0 <= x < all.len() && #[trigger] all[x] == f[i];
        let y = choose|y: int| 0 <= y < all.len() && #[trigger] all[y] == f[j];
        assert(apart(all, all[x].filename));
        assert(index_name(all[y].filename) == index_name(all[x].filename));
        assert(f[i].filename == f[j].filename);
    }
    law_listing_shows_no_name_twice(base, ups, index_names(gone_files(last)));
}

proof fn lemma_filter_distinct_files(s: Seq<Scatter>, p: spec_fn(Scatter) -> bool)
    requires
        forall|i: int, j: int|
            0 <= i < s.len() && 0 <= j < s.len() && (#[trigger] s[i]).filename == (#[trigger] s[j]).filename ==> i == j,
    ensures
        forall|i: int, j: int|
            0 <= i < s.filter(p).len() && 0 <= j < s.filter(p).len() && (#[trigger] s.filter(p)[i]).filename == (
            #[trigger] s.filter(p)[j]).filename ==> i == j,
    decreases s.len(),
{
    reveal(Seq::filter);
    if s.len() > 0 {
        let d = s.drop_last();
        assert forall|i: int, j: int|
            0 <= i < d.len() && 0 <= j < d.len() && (#[trigger] d[i]).filename == (#[trigger] d[j]).filename implies i
            == j by {
            assert(s[i].filename == s[j].filename);
        }
        lemma_filter_distinct_files(d, p);
        let f = d.filter(p);
        let g = s.filter(p);
        if p(s.last()) {
            assert(g =~= f.push(s.last()));
            assert forall|i: int, j: int|
                0 <= i < g.len() && 0 <= j < g.len() && (#[trigger] g[i]).filename == (#[trigger] g[j]).filename implies i
                == j by {
                if i < f.len() && j < f.len() {
                    assert(f[i].filename == f[j].filename);
                } else if i != j {
                    let o = if i < f.len() { i } else { j };
                    assert(f.contains(f[o]));
                    lemma_filter_members(d, p, f[o]);
                    let k = choose|k: int| 0 <= k < d.len() && d[k] == f[o];
                    assert(s[k].filename == s[s.len() - 1].filename);
                }
            }
        } else {
            assert(g =~= f);
        }
    }
}

// ---------------------------------------------------------------------------
// Laws of what is shown
// ---------------------------------------------------------------------------

/// The value of an entry is what it holds, field by field; that of several is
/// theirs one by one, in order.
pub proof fn law_entries_are_their_fields(v: Seq<DirFileEntry>, i: int)
    requires
        0 <= i < v.len(),
    ensures
        entry_views(v).len() == v.len(),
        entry_views(v)[i].inode == v[i].inode,
        entry_views(v)[i].uuid == v[i].uuid,
        entry_views(v)[i].name == v[i].name@,
{
}

/// An entry shows the child's UUID, all of it, and the child's inode as they
/// are stored. Its name is the text before the first zero byte of the name
/// field; a field without a zero byte, or without text before it, shows
/// nothing.
pub proof fn law_an_entry_shows_its_child(raw: DirFileEntryRaw, s: Seq<u8>, rest: Seq<u8>)
    ensures
        shown_entry(raw).uuid == raw.uuid,
        shown_entry(raw).uuid.bits == raw.uuid.bits,
        shown_entry(raw).inode == raw.inode,
        raw.name@ == s.push(0u8) + rest && !s.contains(0u8) && valid_utf8(s) ==> shown_entry(raw).name == decode_utf8(s),
        raw.name@ == s.push(0u8) + rest && !s.contains(0u8) && !valid_utf8(s) ==> shown_entry(raw).name == Seq::<
            char,
        >::empty(),
        !raw.name@.contains(0u8) ==> shown_entry(raw).name == Seq::<char>::empty(),
{
    if !s.contains(0u8) {
        crate::ondisk::law_names_end_at_the_first_zero(s, rest);
    }
    if !raw.name@.contains(0u8) {
        crate::ondisk::law_names_end_at_the_first_zero(raw.name@, rest);
    }
}

/// The entry of a file shows the file's name as far as an entry holds it, where
/// that is text.
pub proof fn law_the_name_that_a_file_shows(filename: Seq<char>)
    ensures
        valid_utf8(index_name(filename)) ==> shown_name(filename) == decode_utf8(index_name(filename)),
        !valid_utf8(index_name(filename)) ==> shown_name(filename) == Seq::<char>::empty(),
        holdable(filename) <==> encode_utf8(filename).len() <= 255 && !encode_utf8(filename).contains(0u8),
{
    let p = padded(trimmed(encode_utf8(filename)));
    crate::ondisk::lemma_nul_at(p);
    assert(p[255] == 0);
    if nul_at(p) >= 256 {
        assert(p[255] != 0);
    }
    let b = encode_utf8(filename);
    if !b.contains(0u8) {
        assert forall|i: int| 0 <= i < b.len() implies b[i] != 0 by {
            assert(b.contains(b[i]));
        }
    }
}

/// A walk goes slot by slot: what is met below a slot, and the slot's entry
/// where it has one that is no placeholder.
pub proof fn law_walk_slot_by_slot(m: Map<u64, DirFileEntryRaw>, k: u64)
    ensures
        entries_below(m, 0) == Seq::<DirFileEntryRaw>::empty(),
        m.contains_key(k) && !m[k].dummy() ==> entries_below(m, k + 1) == entries_below(m, k as int).push(m[k]),
        m.contains_key(k) && m[k].dummy() ==> entries_below(m, k + 1) == entries_below(m, k as int),
        !m.contains_key(k) ==> entries_below(m, k + 1) == entries_below(m, k as int),
{
}

/// The change that counts for a name is one of that name in the list, and none
/// of that name is later; of changes that the order does not tell apart it is
/// the last one listed. There is none where nothing in the list is of the name.
/// The result is where the change stands.
pub proof fn law_the_latest_change_counts(all: Seq<Scatter>, n: Seq<char>, i: int) -> (at: int)
    requires
        0 <= i < all.len(),
        all[i].filename == n,
    ensures
        winner(all, n) is Some,
        0 <= at < all.len(),
        winner(all, n) == Some(all[at]),
        all[at].filename == n,
        !older(all[at], all[i]),
        older(all[i], all[at]) || i <= at,
{
    lemma_winner_is_latest(all, n);
    let s = winner(all, n).unwrap();
    let at = choose|at: int| 0 <= at < all.len() && #[trigger] all[at] == s && is_latest(all, at);
    if at != i {
        assert(older(all[i], all[at]) || (!older(all[at], all[i]) && i < at));
    }
    law_changes_are_ordered(all[i], all[at], all[i]);
    at
}

/// A name that no change in the list is of has no change that counts.
pub proof fn law_unchanged_names_have_no_change(all: Seq<Scatter>, n: Seq<char>)
    requires
        forall|i: int| 0 <= i < all.len() ==> (#[trigger] all[i]).filename != n,
    ensures
        winner(all, n) is None,
{
    lemma_winner_is_latest(all, n);
    if winner(all, n) is Some {
        let s = winner(all, n).unwrap();
        let at = choose|at: int| 0 <= at < all.len() && #[trigger] all[at] == s && is_latest(all, at);
        assert(all[at].filename == n);
    }
}

/// Creations and updates make a name be there, unlinks and deletes make it be
/// gone; a change of unknown op does neither.
pub proof fn law_what_changes_do(s: Scatter)
    ensures
        s.op == DirScatterInodeOp::Create || s.op == DirScatterInodeOp::Update ==> is_live(s) && !is_dead(s),
        s.op == DirScatterInodeOp::PreDelete || s.op == DirScatterInodeOp::Delete ==> is_dead(s) && !is_live(s),
        s.op == DirScatterInodeOp::Unknown ==> !is_live(s) && !is_dead(s),
{
}

/// A plan has the keys of all changes that were listed, in order, and each
/// change of the last view under what it asks for: a creation or update among
/// those to fetch, an unlink among the unlinked, a delete among the deleted, and
/// nothing else anywhere.
pub proof fn law_plan_sorts_every_change(p: ScatterPlan, all: Seq<Scatter>, last: Seq<Scatter>, s: Scatter, i: int)
    requires
        sorts(p, all, last),
    ensures
        p.all_keys.len() == all.len(),
        0 <= i < all.len() ==> p.all_keys[i]@ == all[i].key,
        scatter_views(p.to_fetch@).contains(s) <==> last.contains(s) && (s.op == DirScatterInodeOp::Create || s.op
            == DirScatterInodeOp::Update),
        scatter_views(p.unlinked@).contains(s) <==> last.contains(s) && s.op == DirScatterInodeOp::PreDelete,
        scatter_views(p.deleted@).contains(s) <==> last.contains(s) && s.op == DirScatterInodeOp::Delete,
        is_last_view(all, last),
{
    lemma_filter_members(last, |x: Scatter| is_live(x), s);
    lemma_filter_members(last, |x: Scatter| x.op == DirScatterInodeOp::PreDelete, s);
    lemma_filter_members(last, |x: Scatter| x.op == DirScatterInodeOp::Delete, s);
    let keys = string_views(p.all_keys@);
    assert(keys.len() == p.all_keys.len());
    if 0 <= i < all.len() {
        assert(keys[i] == p.all_keys@[i]@);
        assert(all.map_values(|x: Scatter| x.key)[i] == all[i].key);
    }
}

/// No change stands twice in a plan, and no name does.
pub proof fn law_plan_has_each_name_once(p: ScatterPlan, all: Seq<Scatter>, last: Seq<Scatter>, i: int, j: int)
    requires
        sorts(p, all, last),
    ensures
        0 <= i < p.to_fetch.len() && 0 <= j < p.to_fetch.len() && p.to_fetch[i].filename@ == p.to_fetch[j].filename@
            ==> i == j,
        0 <= i < p.unlinked.len() && 0 <= j < p.unlinked.len() && p.unlinked[i].filename@ == p.unlinked[j].filename@
            ==> i == j,
        0 <= i < p.deleted.len() && 0 <= j < p.deleted.len() && p.deleted[i].filename@ == p.deleted[j].filename@ ==> i
            == j,
{
    lemma_filter_distinct_files(last, |x: Scatter| is_live(x));
    lemma_filter_distinct_files(last, |x: Scatter| x.op == DirScatterInodeOp::PreDelete);
    lemma_filter_distinct_files(last, |x: Scatter| x.op == DirScatterInodeOp::Delete);
    let a = scatter_views(p.to_fetch@);
    let b = scatter_views(p.unlinked@);
    let c = scatter_views(p.deleted@);
    if 0 <= i < p.to_fetch.len() && 0 <= j < p.to_fetch.len() {
        assert(a[i].filename == p.to_fetch[i].filename@ && a[j].filename == p.to_fetch[j].filename@);
    }
    if 0 <= i < p.unlinked.len() && 0 <= j < p.unlinked.len() {
        assert(b[i].filename == p.unlinked[i].filename@ && b[j].filename == p.unlinked[j].filename@);
    }
    if 0 <= i < p.deleted.len() && 0 <= j < p.deleted.len() {
        assert(c[i].filename == p.deleted[i].filename@ && c[j].filename == p.deleted[j].filename@);
    }
}

/// A listing shows one entry for each that it holds, in order: the child's
/// UUID and inode as stored, and the name.
pub proof fn law_listing_shows_every_entry(raws: Seq<DirFileEntryRaw>, i: int)
    requires
        0 <= i < raws.len(),
    ensures
        shown_entries(raws).len() == raws.len(),
        shown_entries(raws)[i].uuid == raws[i].uuid,
        shown_entries(raws)[i].inode == raws[i].inode,
        shown_entries(raws)[i].name == shown(raws[i].name@),
{
}

/// Some entry has a name exactly where one does, at whatever position; the
/// entry found under a name is the first that has it.
pub proof fn law_entries_are_found_by_name(s: Seq<DirFileEntryRaw>, name: Seq<u8>, i: int)
    ensures
        0 <= i < s.len() ==> has_name(s, s[i].filename()),
        (forall|k: int| 0 <= k < s.len() ==> (#[trigger] s[k]).filename() != name) ==> !has_name(s, name) && find_entry(
            s,
            name,
        ) is None,
        0 <= i < s.len() && s[i].filename() == name && (forall|k: int| 0 <= k < i ==> (#[trigger] s[k]).filename()
            != name) ==> find_entry(s, name) == Some(s[i]),
    decreases s.len(),
{
    lemma_find_entry(s, name);
    if 0 <= i < s.len() {
        assert(s[i].filename() == s[i].filename());
    }
    if s.len() > 0 {
        let d = s.drop_last();
        assert(forall|k: int| 0 <= k < d.len() ==> #[trigger] d[k] == s[k]);
        law_entries_are_found_by_name(d, name, i);
        if 0 <= i < s.len() && s[i].filename() == name && (forall|k: int|
            0 <= k < i ==> (#[trigger] s[k]).filename() != name) {
            if i < d.len() {
                assert forall|k: int| 0 <= k < i implies (#[trigger] d[k]).filename() != name by {
                    assert(s[k].filename() != name);
                }
            } else {
                assert forall|k: int| 0 <= k < d.len() implies (#[trigger] d[k]).filename() != name by {
                    assert(s[k].filename() != name);
                }
            }
        }
    }
}

/// The names under which the index keeps files are theirs one by one.
pub proof fn law_index_names_one_by_one(files: Seq<Seq<char>>, i: int)
    requires
        0 <= i < files.len(),
    ensures
        index_names(files).len() == files.len(),
        index_names(files)[i] == index_name(files[i]),
{
}

/// What a listing holds: every created or updated entry that is not gone, and
/// every entry of the index that is not gone and that none of these replaces;
/// no placeholder, and nothing else. It holds no more than there is.
pub proof fn law_what_a_listing_holds(
    base: Seq<DirFileEntryRaw>,
    ups: Seq<DirFileEntryRaw>,
    gone: Seq<Seq<u8>>,
    e: DirFileEntryRaw,
)
    ensures
        merged(base, ups, gone).contains(e) <==> !e.dummy() && !gone.contains(e.filename()) && (ups.contains(e) || (
        base.contains(e) && forall|k: int| 0 <= k < ups.len() ==> (#[trigger] ups[k]).filename() != e.filename())),
        merged(base, ups, gone).len() <= base.len() + ups.len(),
{
    let keep = |x: DirFileEntryRaw| !x.dummy() && !has_name(ups, x.filename()) && !gone.contains(x.filename());
    let alive = |x: DirFileEntryRaw| !x.dummy() && !gone.contains(x.filename());
    let a = base.filter(keep);
    let b = ups.filter(alive);
    let m = a + b;
    lemma_filter_members(base, keep, e);
    lemma_filter_members(ups, alive, e);
    lemma_filter_shorter(base, keep);
    lemma_filter_shorter(ups, alive);
    if m.contains(e) {
        let i = choose|i: int| 0 <= i < m.len() && m[i] == e;
        if i < a.len() {
            assert(a[i] == e);
        } else {
            assert(b[i - a.len()] == e);
        }
    }
    if a.contains(e) {
        let i = choose|i: int| 0 <= i < a.len() && a[i] == e;
        assert(m[i] == e);
    }
    if b.contains(e) {
        let i = choose|i: int| 0 <= i < b.len() && b[i] == e;
        assert(m[a.len() + i] == e);
    }
}

proof fn lemma_filter_shorter<A>(s: Seq<A>, p: spec_fn(A) -> bool)
    ensures
        s.filter(p).len() <= s.len(),
    decreases s.len(),
{
    reveal(Seq::filter);
    if s.len() > 0 {
        lemma_filter_shorter(s.drop_last(), p);
    }
}

/// The entries that a last view makes are those of its creations and updates,
/// and the files it makes go are those of its unlinks and deletes.
pub proof fn law_what_a_last_view_does(
    last: Seq<Scatter>,
    entry_of: spec_fn(Scatter) -> DirFileEntryRaw,
    e: DirFileEntryRaw,
    n: Seq<char>,
)
    ensures
        made_entries(last, entry_of).contains(e) <==> exists|i: int|
            0 <= i < last.len() && ((#[trigger] last[i]).op == DirScatterInodeOp::Create || last[i].op
                == DirScatterInodeOp::Update) && entry_of(last[i]) == e,
        gone_files(last).contains(n) <==> exists|i: int|
            0 <= i < last.len() && ((#[trigger] last[i]).op == DirScatterInodeOp::PreDelete || last[i].op
                == DirScatterInodeOp::Delete) && last[i].filename == n,
{
    let live = |s: Scatter| is_live(s);
    let pre = |s: Scatter| s.op == DirScatterInodeOp::PreDelete;
    let del = |s: Scatter| s.op == DirScatterInodeOp::Delete;
    let f = last.filter(live);
    let a = last.filter(pre);
    let b = last.filter(del);
    let m = made_entries(last, entry_of);
    let g = gone_files(last);
    if m.contains(e) {
        let k = choose|k: int| 0 <= k < m.len() && m[k] == e;
        assert(f.contains(f[k]));
        lemma_filter_members(last, live, f[k]);
        let i = choose|i: int| 0 <= i < last.len() && last[i] == f[k];
        assert(entry_of(last[i]) == e);
    }
    if exists|i: int|
        0 <= i < last.len() && ((#[trigger] last[i]).op == DirScatterInodeOp::Create || last[i].op
            == DirScatterInodeOp::Update) && entry_of(last[i]) == e {
        let i = choose|i: int|
            0 <= i < last.len() && ((#[trigger] last[i]).op == DirScatterInodeOp::Create || last[i].op
                == DirScatterInodeOp::Update) && entry_of(last[i]) == e;
        assert(last.contains(last[i]));
        lemma_filter_members(last, live, last[i]);
        let k = choose|k: int| 0 <= k < f.len() && f[k] == last[i];
        assert(m[k] == e);
    }
    if g.contains(n) {
        let k = choose|k: int| 0 <= k < g.len() && g[k] == n;
        let s = if k < a.len() { a[k] } else { b[k - a.len()] };
        assert(s.filename == n);
        if k < a.len() {
            assert(a.contains(s));
        } else {
            assert(b.contains(s));
        }
        lemma_filter_members(last, pre, s);
        lemma_filter_members(last, del, s);
        let i = choose|i: int| 0 <= i < last.len() && last[i] == s;
        assert(last[i].filename == n);
    }
    if exists|i: int|
        0 <= i < last.len() && ((#[trigger] last[i]).op == DirScatterInodeOp::PreDelete || last[i].op
            == DirScatterInodeOp::Delete) && last[i].filename == n {
        let i = choose|i: int|
            0 <= i < last.len() && ((#[trigger] last[i]).op == DirScatterInodeOp::PreDelete || last[i].op
                == DirScatterInodeOp::Delete) && last[i].filename == n;
        assert(last.contains(last[i]));
        lemma_filter_members(last, pre, last[i]);
        lemma_filter_members(last, del, last[i]);
        if last[i].op == DirScatterInodeOp::PreDelete {
            let k = choose|k: int| 0 <= k < a.len() && a[k] == last[i];
            assert(g[k] == n);
        } else {
            let k = choose|k: int| 0 <= k < b.len() && b[k] == last[i];
            assert(g[a.len() + k] == n);
        }
    }
}

/// A listing points at the child that resolving the name gives: where the
/// latest change of a name creates or updates it, some entry of the listing
/// shows the UUID of that change, all of it, under the name.
pub proof fn law_listing_points_at_the_resolved_child(
    all: Seq<Scatter>,
    last: Seq<Scatter>,
    entry_of: spec_fn(Scatter) -> DirFileEntryRaw,
    base: Seq<DirFileEntryRaw>,
    n: Seq<char>,
) -> (k: int)
    requires
        is_last_view(all, last),
        forall|s: Scatter|
            (#[trigger] entry_of(s)).uuid == s.uuid && entry_of(s).name@ == padded(trimmed(encode_utf8(s.filename))),
        apart(all, n),
        winner(all, n) matches Some(s) && is_live(s),
    ensures
        ({
            let shown = shown_entries(merged(base, made_entries(last, entry_of), index_names(gone_files(last))));
            &&& 0 <= k < shown.len()
            &&& shown[k].uuid.bits == winner(all, n)->Some_0.uuid.bits
            &&& shown[k].name == shown_name(n)
        }),
{
    law_listing_agrees_with_resolve(all, last, entry_of, base, n);
    lemma_winner_is_latest(all, n);
    let m = merged(base, made_entries(last, entry_of), index_names(gone_files(last)));
    lemma_find_entry(m, index_name(n));
    let e = find_entry(m, index_name(n)).unwrap();
    let k = choose|k: int| 0 <= k < m.len() && m[k] == e;
    law_listing_shows_every_entry(m, k);
    k
}

/// Entries have distinct names where any two of them, at whatever positions,
/// differ in their names.
pub proof fn law_distinct_names(s: Seq<DirFileEntryRaw>, i: int, j: int)
    ensures
        names_distinct(s) && 0 <= i < j < s.len() ==> s[i].filename() != s[j].filename(),
        (forall|a: int, b: int|
            0 <= a < b < s.len() ==> (#[trigger] s[a]).filename() != (#[trigger] s[b]).filename()) ==> names_distinct(s),
{
    if forall|a: int, b: int| 0 <= a < b < s.len() ==> (#[trigger] s[a]).filename() != (#[trigger] s[b]).filename() {
        assert forall|a: int, b: int|
            0 <= a < s.len() && 0 <= b < s.len() && (#[trigger] s[a]).filename() == (#[trigger] s[b]).filename() implies a
            == b by {
            if a < b {
                assert(s[a].filename() != s[b].filename());
            } else if b < a {
                assert(s[b].filename() != s[a].filename());
            }
        }
    }
}

} // verus!
