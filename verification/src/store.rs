//! What the library asks of the object store, and what it makes of the
//! store's replies.
use vstd::prelude::*;
use vstd::slice::slice_to_vec;
use vstd::utf8::encode_utf8;
use crate::error::{Error, ErrorKind};
use crate::ident::{key_text, Ulid, Uuid};
use crate::lease::{is_conflict, lost_race, PutReply, DEFAULT_COMPACT_LEASE_FILE};
use crate::outside::name_base64_decoded;
use crate::scatter::{
    decode_key, name_segment, scatter_key, DirScatterInode, DirScatterInodeOp, KeyFields, NAME_ALPHABET,
};
use crate::text::{
    ends_with, index_of, lemma_index_of, lemma_split_first, no_char, push_text, split, starts_with,
    string_views,
};

verus! {

// ---------------------------------------------------------------------------
// Paths under a directory's prefix
// ---------------------------------------------------------------------------

/// LIST prefix of a directory's scatter objects.
pub open spec fn scatter_dir(root: Seq<char>) -> Seq<char> {
    root + "/!/"@
}

/// LIST prefix of the scatter objects of one name.
pub open spec fn scatter_name_dir(root: Seq<char>, filename: Seq<char>) -> Seq<char> {
    scatter_dir(root) + name_segment(filename) + "/"@
}

/// LIST prefix of a directory's scatter objects.
pub fn scatter_inodes_path(root: &str) -> (r: String)
    ensures
        r@ == scatter_dir(root@),
{
    let mut s: String = root.to_string();
    push_text(&mut s, "/!/");
    s
}

/// LIST prefix of the scatter objects of one name.
pub fn scatter_name_path(root: &str, filename: &str) -> (r: String)
    ensures
        r@ == scatter_name_dir(root@, filename@),
        no_char(root@, '!') ==> forall|key: Seq<char>|
            #![trigger decode_key(key)]
            starts_with(key, r@) && decode_key(key) is Some ==> decode_key(key).unwrap().filename == filename@,
{
    let mut s: String = scatter_inodes_path(root);
    let name: String = DirScatterInode::encode_filename(filename);
    push_text(&mut s, name.as_str());
    push_text(&mut s, "/");
    proof {
        if no_char(root@, '!') {
            assert forall|key: Seq<char>|
                #![trigger decode_key(key)]
                starts_with(key, s@) && decode_key(key) is Some implies decode_key(key).unwrap().filename
                == filename@ by {
                lemma_listed_key_is_of_name(root@, filename@, key);
            }
        }
    }
    s
}

/// Path of a directory's compactor lease object.
pub fn compact_lease_path(root: &str) -> (r: String)
    ensures
        r@ == root@ + "/"@ + DEFAULT_COMPACT_LEASE_FILE@,
{
    let mut s: String = root.to_string();
    push_text(&mut s, "/");
    push_text(&mut s, DEFAULT_COMPACT_LEASE_FILE);
    s
}

/// URI of the inode object of the directory whose prefix has the URI `root`.
pub fn dir_inode_uri(root: &str) -> (r: String)
    requires
        !ends_with(root@, "/"@),
    ensures
        r@ == root@ + "/inode"@,
{
    let mut s: String = root.to_string();
    push_text(&mut s, "/inode");
    s
}

/// A listing of one name finds all of its changes: the key of each has the
/// listed prefix.
pub proof fn law_name_listing_finds_every_change(
    root: Seq<char>,
    filename: Seq<char>,
    ulid: Ulid,
    uuid: Uuid,
    op: u8,
)
    ensures
        starts_with(scatter_key(root, filename, ulid, uuid, op), scatter_name_dir(root, filename)),
        starts_with(scatter_key(root, filename, ulid, uuid, op), scatter_dir(root)),
{
    let key = scatter_key(root, filename, ulid, uuid, op);
    let a = scatter_name_dir(root, filename);
    let b = scatter_dir(root);
    assert(key.take(a.len() as int) =~= a);
    assert(key.take(b.len() as int) =~= b);
}

/// A listing of one name finds no change of another.
proof fn lemma_listed_key_is_of_name(root: Seq<char>, filename: Seq<char>, key: Seq<char>)
    requires
        no_char(root, '!'),
        key_text(name_segment(filename)),
        name_base64_decoded(NAME_ALPHABET@, name_segment(filename)) == Some(encode_utf8(filename)),
        starts_with(key, scatter_name_dir(root, filename)),
        decode_key(key) is Some,
    ensures
        decode_key(key).unwrap().filename == filename,
{
    reveal_strlit("/!/");
    reveal_strlit("/");
    let name = name_segment(filename);
    let prefix = scatter_name_dir(root, filename);
    let rest = key.skip(prefix.len() as int);
    let head = root.push('/');
    let tail = seq!['/'] + (name.push('/') + rest);
    assert(key =~= prefix + rest);
    assert(key =~= head.push('!') + tail);
    assert(no_char(head, '!'));
    lemma_split_first(head, '!', tail);
    let halves = split(key, '!');
    assert(halves =~= seq![head] + split(tail, '!'));
    // what is behind the `!` is one piece
    assert(split(tail, '!').len() == 1);
    lemma_single_piece(tail, '!');
    assert(halves[1] == tail);
    assert(no_char(name, '/')) by {
        assert forall|i: int| 0 <= i < name.len() implies name[i] != '/' by {
            assert(crate::ident::key_char(name[i]));
        }
    }
    assert(tail =~= Seq::<char>::empty().push('/') + (name.push('/') + rest));
    lemma_split_first(Seq::<char>::empty(), '/', name.push('/') + rest);
    lemma_split_first(name, '/', rest);
    let segs = split(tail, '/');
    assert(segs =~= seq![Seq::<char>::empty()] + (seq![name] + split(rest, '/')));
    assert(segs[1] == name);
    vstd::utf8::encode_utf8_decode_utf8(filename);
}

/// A text of one piece is that piece.
proof fn lemma_single_piece(s: Seq<char>, c: char)
    requires
        split(s, c).len() == 1,
    ensures
        split(s, c) == seq![s],
{
    lemma_index_of(s, c);
    let i = index_of(s, c);
    if i < s.len() {
        lemma_split_nonempty(s.skip(i as int + 1), c);
    }
}

proof fn lemma_split_nonempty(s: Seq<char>, c: char)
    ensures
        split(s, c).len() > 0,
    decreases s.len(),
{
    lemma_index_of(s, c);
    let i = index_of(s, c);
    if i < s.len() {
        lemma_split_nonempty(s.skip(i as int + 1), c);
    }
}

// ---------------------------------------------------------------------------
// Emitting a scatter object
// ---------------------------------------------------------------------------

/// A scatter object to be written on the condition that none has its key.
#[derive(Debug)]
pub struct ScatterPut {
    pub key: String,
    pub body: Vec<u8>,
}

/// The scatter object of a change of a child: the commit point of the change.
/// The body is the child's inode for a creation or update, a tombstone for a
/// delete, and an unlink marker for an unlink.
pub fn scatter_event(
    root: &str,
    filename: &str,
    child: &Uuid,
    body: &[u8],
    op: DirScatterInodeOp,
    ulid: &Ulid,
) -> (r: Result<ScatterPut, Error>)
    requires
        !ends_with(root@, "/"@),
    ensures
        match op {
            DirScatterInodeOp::Unknown => r == Err::<ScatterPut, Error>(Error::UnknownOp),
            _ => r matches Ok(p) && p.key@ == scatter_key(root@, filename@, *ulid, *child, op.code()) && p.body@
                == body@ && (no_char(root@, '!') ==> decode_key(p.key@) == Some(
                KeyFields { filename: filename@, ulid: *ulid, uuid: *child, op: op.code() },
            )),
        },
{
    match op {
        DirScatterInodeOp::Unknown => Err(Error::UnknownOp),
        _ => Ok(
            ScatterPut {
                key: DirScatterInode::path_encode_with(root, filename, child, op.as_u8(), ulid),
                body: slice_to_vec(body),
            },
        ),
    }
}

/// After the conditional PUT of a scatter object: one that exists already was
/// committed before.
pub fn scatter_put_outcome(reply: &PutReply) -> (r: Result<(), Error>)
    ensures
        r == match *reply {
            PutReply::Stored(_) => Ok::<(), Error>(()),
            PutReply::Failed(status) => if lost_race(status) {
                Ok::<(), Error>(())
            } else {
                Err::<(), Error>(Error::StoreFailed)
            },
        },
{
    match reply {
        PutReply::Stored(_) => Ok(()),
        PutReply::Failed(status) => if is_conflict(*status) {
            Ok(())
        } else {
            Err(Error::StoreFailed)
        },
    }
}

// ---------------------------------------------------------------------------
// Removing objects
// ---------------------------------------------------------------------------

/// Most objects that one request removes.
pub const DELETE_BATCH: usize = 1000;

/// The keys in batches, in order.
pub open spec fn batches(keys: Seq<Seq<char>>) -> Seq<Seq<Seq<char>>>
    decreases keys.len(),
{
    if keys.len() == 0 {
        seq![]
    } else if keys.len() <= DELETE_BATCH {
        seq![keys]
    } else {
        seq![keys.take(DELETE_BATCH as int)] + batches(keys.skip(DELETE_BATCH as int))
    }
}

/// The values of several batches.
pub open spec fn batch_views(v: Seq<Vec<String>>) -> Seq<Seq<Seq<char>>> {
    v.map_values(|b: Vec<String>| string_views(b@))
}

/// Parts the keys of objects to be removed into batches of 1000, but for the
/// last.
pub fn key_batches(keys: &Vec<String>) -> (r: Vec<Vec<String>>)
    ensures
        batch_views(r@) == batches(string_views(keys@)),
{
    let ghost all = string_views(keys@);
    let mut out: Vec<Vec<String>> = Vec::new();
    let mut start: usize = 0;
    assert(all.skip(0) =~= all);
    assert(batch_views(out@) =~= seq![]);
    assert(batch_views(out@) + batches(all) =~= batches(all));
    while start < keys.len()
        invariant
            all == string_views(keys@),
            start <= keys.len(),
            batch_views(out@) + batches(all.skip(start as int)) == batches(all),
        decreases keys.len() - start,
    {
        let ghost rest = all.skip(start as int);
        let ghost before = batch_views(out@);
        let end: usize = if keys.len() - start <= DELETE_BATCH {
            keys.len()
        } else {
            start + DELETE_BATCH
        };
        let mut batch: Vec<String> = Vec::new();
        for i in start..end
            invariant
                all == string_views(keys@),
                start <= i,
                end <= keys.len(),
                rest == all.skip(start as int),
                string_views(batch@) == rest.take(i - start),
        {
            let ghost now = string_views(batch@);
            let k: String = keys[i].clone();
            batch.push(k);
            assert(string_views(batch@) =~= now.push(k@));
            assert(all[i as int] == keys@[i as int]@);
            assert(rest.take(i + 1 - start) =~= rest.take(i - start).push(all[i as int]));
        }
        let ghost b = string_views(batch@);
        out.push(batch);
        assert(batch_views(out@) =~= before.push(b));
        assert(all.skip(end as int) =~= rest.skip(end - start));
        if end == keys.len() {
            assert(b =~= rest);
            assert(batches(rest) =~= seq![b]);
            assert(batches(all.skip(end as int)) =~= seq![]);
        }
        assert(before + batches(rest) =~= batch_views(out@) + batches(all.skip(end as int)));
        start = end;
    }
    assert(batch_views(out@) + batches(all.skip(start as int)) =~= batch_views(out@));
    out
}

/// Every key is in exactly one batch: put together, the batches are the keys.
/// No batch is empty or larger than a request takes.
pub proof fn law_batches_partition_the_keys(keys: Seq<Seq<char>>)
    ensures
        batches(keys).flatten() == keys,
        forall|i: int|
            0 <= i < batches(keys).len() ==> 0 < (#[trigger] batches(keys)[i]).len() && batches(keys)[i].len()
                <= DELETE_BATCH,
    decreases keys.len(),
{
    if keys.len() == 0 {
        assert(batches(keys).flatten() =~= keys);
    } else if keys.len() <= DELETE_BATCH {
        seq![keys].lemma_flatten_one_element();
    } else {
        let rest = batches(keys.skip(DELETE_BATCH as int));
        law_batches_partition_the_keys(keys.skip(DELETE_BATCH as int));
        let b = batches(keys);
        assert(b.drop_first() =~= rest);
        assert(b.first() == keys.take(DELETE_BATCH as int));
        assert(b.flatten() == b.first() + rest.flatten());
        assert(keys =~= keys.take(DELETE_BATCH as int) + keys.skip(DELETE_BATCH as int));
        assert forall|i: int| 0 <= i < b.len() implies 0 < (#[trigger] b[i]).len() && b[i].len() <= DELETE_BATCH by {
            if i > 0 {
                assert(b[i] == rest[i - 1]);
            }
        }
    }
}

/// What a removal comes to, given whether each request went through.
pub fn removal_outcome(done: &Vec<bool>) -> (r: Result<(), Error>)
    ensures
        r == if forall|i: int| 0 <= i < done.len() ==> #[trigger] done@[i] {
            Ok::<(), Error>(())
        } else {
            Err::<(), Error>(Error::RemovalFailed)
        },
{
    for i in 0..done.len()
        invariant
            forall|j: int| 0 <= j < i ==> #[trigger] done@[j],
    {
        if !done[i] {
            assert(!done@[i as int]);
            return Err(Error::RemovalFailed);
        }
    }
    Ok(())
}

// ---------------------------------------------------------------------------
// Opening
// ---------------------------------------------------------------------------

/// A directory as it was at a past checkpoint can only be opened for reading.
pub fn open_checkpoint_check(read_only: bool) -> (r: Result<(), Error>)
    ensures
        r == if read_only {
            Ok::<(), Error>(())
        } else {
            Err::<(), Error>(Error::ReadOnlyCheckpoint)
        },
{
    if read_only {
        Ok(())
    } else {
        Err(Error::ReadOnlyCheckpoint)
    }
}

/// Whether a directory that could not be opened is to be created: where that
/// was asked for and it does not exist.
pub fn create_after(failure: ErrorKind, create: bool) -> (r: bool)
    ensures
        r == (create && failure == ErrorKind::NotFound),
{
    create && failure == ErrorKind::NotFound
}

// ---------------------------------------------------------------------------
// Laws of paths and batches
// ---------------------------------------------------------------------------

/// The prefixes under which scatter objects are listed.
pub proof fn law_listing_prefixes(root: Seq<char>, filename: Seq<char>)
    ensures
        scatter_dir(root) == root + "/!/"@,
        scatter_name_dir(root, filename) == root + "/!/"@ + name_segment(filename) + "/"@,
{
}

/// The keys are taken a thousand at a time, in order: as long as there are more,
/// the next thousand make a batch; what is left makes the last.
pub proof fn law_batches_are_full_but_for_the_last(keys: Seq<Seq<char>>, rest: Seq<Seq<char>>)
    ensures
        batches(Seq::<Seq<char>>::empty()) == Seq::<Seq<Seq<char>>>::empty(),
        0 < keys.len() <= 1000 ==> batches(keys) == seq![keys],
        keys.len() == 1000 && rest.len() > 0 ==> batches(keys + rest) == seq![keys] + batches(rest),
{
    if keys.len() == 1000 && rest.len() > 0 {
        let all = keys + rest;
        assert(all.take(1000) =~= keys);
        assert(all.skip(1000) =~= rest);
    }
}

/// The values of several batches are theirs one by one.
pub proof fn law_batches_are_their_keys(v: Seq<Vec<String>>, i: int, j: int)
    requires
        0 <= i < v.len(),
        0 <= j < v[i].len(),
    ensures
        batch_views(v).len() == v.len(),
        batch_views(v)[i].len() == v[i].len(),
        batch_views(v)[i][j] == v[i][j]@,
{
    assert(batch_views(v)[i] == string_views(v[i]@));
}

} // verus!
