//! Advisory byte-range locks kept in one object per file or directory.
//!
//! [`LockTable`] is the lock engine: read/write compatibility, overlap,
//! replacing and splitting of an owner's own locks, release of a whole owner
//! and expiry. A table is persisted in the `_lock` object under the prefix of
//! the file or directory it guards, and every change of that object is a
//! conditional write. [`setlk_step`], [`unlock_owner_step`] and
//! [`lock_renew_step`] say what one round of such a read-modify-write does.
use vstd::prelude::*;
use vstd::slice::slice_to_vec;
use vstd::utf8::{decode_utf8, encode_utf8, valid_utf8};
use crate::clock::{expires_at, expiry};
use crate::outside::utf8_text;
use crate::text::{
    chars_of, decimal, decimal_int, lemma_decimal, lemma_decimal_int_chars, lemma_lines_first,
    lemma_parse_decimal, lemma_parse_decimal_int, lemma_split_first, lemma_split_none, lines, lines_of, no_char,
    parse_i64, parse_i64_spec, parse_nat, parse_u32, parse_u64, parse_u64_spec, push_i64, push_text, push_u64,
    same_text, split, split_on, string_of, strip_cr, texts,
};



verus! {

/// Object name (under each child's prefix) holding its lock table.
pub const LOCK_OBJECT: &'static str = "_lock";

/// Default lock lease TTL. A holder that crashes frees its locks within this.
pub const DEFAULT_LOCK_TTL_MS: u64 = 60_000;

/// Max optimistic-concurrency retries for a `_lock` read-modify-write.
pub const LOCK_OCC_RETRIES: usize = 8;

/// A lock's mode. `Unlock` is only ever passed to [`LockTable::set`]; it is
/// never stored in an entry.
#[derive(Clone, Copy, PartialEq, Eq, Debug, Structural)]
pub enum LockKind {
    Read,
    Write,
    Unlock,
}

impl LockKind {
    pub open spec fn letter(self) -> char {
        match self {
            LockKind::Read => 'R',
            LockKind::Write => 'W',
            LockKind::Unlock => 'U',
        }
    }

    /// The mode that a stored letter stands for.
    pub open spec fn of_letter(c: char) -> Option<LockKind> {
        if c == 'R' {
            Some(LockKind::Read)
        } else if c == 'W' {
            Some(LockKind::Write)
        } else {
            None
        }
    }

    /// The letter that stands for the mode in an encoded table.
    pub fn as_char(self) -> (r: char)
        ensures
            r == self.letter(),
    {
        match self {
            LockKind::Read => 'R',
            LockKind::Write => 'W',
            LockKind::Unlock => 'U',
        }
    }

    /// The mode of a stored lock: only `R` and `W` are ones.
    pub fn from_char(c: char) -> (r: Option<LockKind>)
        ensures
            r == LockKind::of_letter(c),
    {
        match c {
            'R' => Some(LockKind::Read),
            'W' => Some(LockKind::Write),
            _ => None,
        }
    }
}

/// An existing lock that conflicts with a requested one (returned by getlk /
/// a failed setlk). Carries enough to fill a FUSE getlk reply.
#[derive(Clone, Debug, PartialEq, Eq, Structural)]
pub struct Conflict {
    pub start: u64,
    pub end: u64,
    pub kind: LockKind,
    pub pid: u32,
}

/// Outcome of a non-blocking setlk.
#[derive(Debug, PartialEq, Eq, Structural)]
pub enum SetLkOutcome {
    Granted,
    Conflict(Conflict),
}

/// One held lock. `kind` is `Read` or `Write`, the range is inclusive, and
/// the lock counts as held while the time is before `expire_ms`.
#[derive(Clone, Debug)]
pub struct Entry {
    pub owner: String,
    pub kind: LockKind,
    pub start: u64,
    pub end: u64,
    pub pid: u32,
    pub expire_ms: i64,
}

/// The mathematical value of an [`Entry`].
pub struct Held {
    pub owner: Seq<char>,
    pub kind: LockKind,
    pub start: u64,
    pub end: u64,
    pub pid: u32,
    pub expire_ms: i64,
}

impl View for Entry {
    type V = Held;

    open spec fn view(&self) -> Held {
        Held {
            owner: self.owner@,
            kind: self.kind,
            start: self.start,
            end: self.end,
            pid: self.pid,
            expire_ms: self.expire_ms,
        }
    }
}

/// The set of locks held on one file/dir. Ranges are inclusive `[start, end]`.
#[derive(Debug)]
pub struct LockTable {
    pub entries: Vec<Entry>,
}

impl View for LockTable {
    type V = Seq<Held>;

    open spec fn view(&self) -> Seq<Held> {
        self.entries@.map_values(|e: Entry| e@)
    }
}

// ---------------------------------------------------------------------------
// The model
// ---------------------------------------------------------------------------

pub open spec fn ranges_overlap(a_start: u64, a_end: u64, b_start: u64, b_end: u64) -> bool {
    a_start <= b_end && b_start <= a_end
}

/// The locks of `t` that have not expired at `now_ms`.
pub open spec fn live(t: Seq<Held>, now_ms: i64) -> Seq<Held> {
    t.filter(|e: Held| e.expire_ms > now_ms)
}

/// `e` keeps `owner` from locking `[start, end]` in mode `kind` at `now_ms`.
pub open spec fn blocks(e: Held, owner: Seq<char>, kind: LockKind, start: u64, end: u64, now_ms: i64) -> bool {
    &&& e.expire_ms > now_ms
    &&& e.owner != owner
    &&& ranges_overlap(start, end, e.start, e.end)
    &&& (kind == LockKind::Write || e.kind == LockKind::Write)
}

pub open spec fn report(e: Held) -> Conflict {
    Conflict { start: e.start, end: e.end, kind: e.kind, pid: e.pid }
}

/// The first lock of `t` that blocks the request, as it is reported.
pub open spec fn first_block(
    t: Seq<Held>,
    owner: Seq<char>,
    kind: LockKind,
    start: u64,
    end: u64,
    now_ms: i64,
) -> Option<Conflict>
    decreases t.len(),
{
    if t.len() == 0 {
        None
    } else {
        match first_block(t.drop_last(), owner, kind, start, end, now_ms) {
            Some(c) => Some(c),
            None => if blocks(t.last(), owner, kind, start, end, now_ms) {
                Some(report(t.last()))
            } else {
                None
            },
        }
    }
}

/// What is left of the lock `e` once `owner` gives up `[start, end]`: all of
/// it where it is another owner's or lies outside, else the part below the
/// range and the part above it.
pub open spec fn pieces(e: Held, owner: Seq<char>, start: u64, end: u64) -> Seq<Held> {
    if e.owner != owner || !ranges_overlap(start, end, e.start, e.end) {
        seq![e]
    } else {
        let low = Held { end: (start - 1) as u64, ..e };
        let high = Held { start: (end + 1) as u64, ..e };
        (if e.start < start { seq![low] } else { seq![] })
            + (if e.end > end { seq![high] } else { seq![] })
    }
}

/// The table once `owner` gives up `[start, end]`.
pub open spec fn without_range(t: Seq<Held>, owner: Seq<char>, start: u64, end: u64) -> Seq<Held>
    decreases t.len(),
{
    if t.len() == 0 {
        seq![]
    } else {
        without_range(t.drop_last(), owner, start, end) + pieces(t.last(), owner, start, end)
    }
}

/// The table after a request that nothing blocks.
pub open spec fn granted(t: Seq<Held>, new: Held, now_ms: i64) -> Seq<Held> {
    let kept = without_range(live(t, now_ms), new.owner, new.start, new.end);
    if new.kind == LockKind::Unlock {
        kept
    } else {
        kept.push(new)
    }
}

/// What [`LockTable::set`] returns and leaves.
pub open spec fn set_result(t: Seq<Held>, new: Held, now_ms: i64) -> (Option<Conflict>, Seq<Held>) {
    let block = first_block(t, new.owner, new.kind, new.start, new.end, now_ms);
    if new.kind != LockKind::Unlock && block is Some {
        (block, live(t, now_ms))
    } else {
        (None, granted(t, new, now_ms))
    }
}

/// The table without the locks of `owner`.
pub open spec fn without_owner(t: Seq<Held>, owner: Seq<char>) -> Seq<Held> {
    t.filter(|e: Held| e.owner != owner)
}

/// `owner` holds some lock in `t`, expired or not.
pub open spec fn has_owner(t: Seq<Held>, owner: Seq<char>) -> bool {
    exists|i: int| 0 <= i < t.len() && (#[trigger] t[i]).owner == owner
}

/// `e` with the expiry `expire_ms` where it is `owner`'s.
pub open spec fn renewed(e: Held, owner: Seq<char>, expire_ms: i64) -> Held {
    if e.owner == owner {
        Held { expire_ms, ..e }
    } else {
        e
    }
}

/// True iff the inclusive ranges share a byte.
pub fn overlaps(a_start: u64, a_end: u64, b_start: u64, b_end: u64) -> (r: bool)
    ensures
        r == ranges_overlap(a_start, a_end, b_start, b_end),
{
    a_start <= b_end && b_start <= a_end
}

impl Entry {
    /// A copy of the entry over another range.
    fn over(&self, start: u64, end: u64) -> (r: Entry)
        ensures
            r@ == (Held { start, end, ..self@ }),
    {
        Entry {
            owner: self.owner.clone(),
            kind: self.kind,
            start,
            end,
            pid: self.pid,
            expire_ms: self.expire_ms,
        }
    }
}

impl Default for LockTable {
    /// A table without locks.
    fn default() -> (r: LockTable)
        ensures
            r@ == Seq::<Held>::empty(),
    {
        let t: LockTable = LockTable { entries: Vec::new() };
        assert(t@ =~= Seq::<Held>::empty());
        t
    }
}

impl LockTable {
    /// Drops the locks that have expired at `now_ms`.
    pub fn purge_expired(&mut self, now_ms: i64)
        ensures
            final(self)@ == live(old(self)@, now_ms),
    {
        let ghost t = self@;
        let mut out: Vec<Entry> = Vec::new();
        proof {
            reveal(Seq::filter);
        }
        assert(out@.map_values(|e: Entry| e@) =~= live(t.take(0), now_ms));
        for i in 0..self.entries.len()
            invariant
                t == self@,
                out@.map_values(|e: Entry| e@) == live(t.take(i as int), now_ms),
        {
            let e: &Entry = &self.entries[i];
            assert(t.take(i + 1).drop_last() =~= t.take(i as int));
            assert(t.take(i + 1).last() == e@);
            proof {
                reveal(Seq::filter);
            }
            if e.expire_ms > now_ms {
                let ghost before = out@;
                let kept: Entry = e.over(e.start, e.end);
                out.push(kept);
                assert(out@.map_values(|e: Entry| e@) =~= before.map_values(|e: Entry| e@).push(kept@));
            }
        }
        assert(t.take(t.len() as int) =~= t);
        self.entries = out;
    }

    /// Return a conflicting lock held by a *different* owner, or `None`.
    /// `kind` is the requested mode (Read/Write). Expired entries are ignored.
    pub fn test(&self, owner: &str, kind: LockKind, start: u64, end: u64, now_ms: i64) -> (r: Option<Conflict>)
        ensures
            r == first_block(self@, owner@, kind, start, end, now_ms),
    {
        let want_write: bool = kind == LockKind::Write;
        let ghost t = self@;
        for i in 0..self.entries.len()
            invariant
                t == self@,
                want_write == (kind == LockKind::Write),
                first_block(t.take(i as int), owner@, kind, start, end, now_ms) is None,
        {
            let e: &Entry = &self.entries[i];
            assert(t.take(i + 1).drop_last() =~= t.take(i as int));
            assert(t.take(i + 1).last() == e@);
            if e.expire_ms > now_ms && !same_text(e.owner.as_str(), owner) {
                if overlaps(start, end, e.start, e.end) && (want_write || e.kind == LockKind::Write) {
                    let c: Conflict = Conflict { start: e.start, end: e.end, kind: e.kind, pid: e.pid };
                    proof {
                        lemma_first_block_stays(t, i + 1, owner@, kind, start, end, now_ms);
                    }
                    return Some(c);
                }
            }
        }
        assert(t.take(t.len() as int) =~= t);
        None
    }

    /// Drop/split the given owner's own locks within `[start, end]`.
    pub fn remove_range(&mut self, owner: &str, start: u64, end: u64)
        ensures
            final(self)@ == without_range(old(self)@, owner@, start, end),
    {
        let ghost t = self@;
        let mut out: Vec<Entry> = Vec::new();
        assert(out@.map_values(|e: Entry| e@) =~= without_range(t.take(0), owner@, start, end));
        for i in 0..self.entries.len()
            invariant
                t == self@,
                out@.map_values(|e: Entry| e@) == without_range(t.take(i as int), owner@, start, end),
        {
            let e: &Entry = &self.entries[i];
            assert(t.take(i + 1).drop_last() =~= t.take(i as int));
            assert(t.take(i + 1).last() == e@);
            let ghost before = out@.map_values(|e: Entry| e@);
            if !same_text(e.owner.as_str(), owner) || !overlaps(start, end, e.start, e.end) {
                let kept: Entry = e.over(e.start, e.end);
                out.push(kept);
            } else {
                if e.start < start {
                    let low: Entry = e.over(e.start, start - 1);
                    out.push(low);
                }
                if e.end > end {
                    let high: Entry = e.over(end + 1, e.end);
                    out.push(high);
                }
            }
            assert(out@.map_values(|e: Entry| e@) =~= before + pieces(e@, owner@, start, end));
        }
        assert(t.take(t.len() as int) =~= t);
        self.entries = out;
    }

    /// Apply a lock/unlock for `owner`. On `Unlock`, removes the owner's locks
    /// in range. Otherwise, fails with the conflict if another owner holds an
    /// incompatible overlapping lock; on success replaces the owner's own
    /// locks in range with the new one.
    #[allow(clippy::too_many_arguments)]
    pub fn set(
        &mut self,
        owner: &str,
        kind: LockKind,
        start: u64,
        end: u64,
        pid: u32,
        expire_ms: i64,
        now_ms: i64,
    ) -> (r: Result<(), Conflict>)
        ensures
            ({
                let new = Held { owner: owner@, kind, start, end, pid, expire_ms };
                let (block, after) = set_result(old(self)@, new, now_ms);
                &&& final(self)@ == after
                &&& r == match block {
                    Some(c) => Err(c),
                    None => Ok(()),
                }
            }),
    {
        let ghost t = self@;
        self.purge_expired(now_ms);
        proof {
            lemma_first_block_live(t, owner@, kind, start, end, now_ms);
        }
        if kind == LockKind::Unlock {
            self.remove_range(owner, start, end);
            return Ok(());
        }
        if let Some(c) = self.test(owner, kind, start, end, now_ms) {
            return Err(c);
        }
        self.remove_range(owner, start, end);
        let ghost before = self@;
        let new: Entry = Entry { owner: owner.to_string(), kind, start, end, pid, expire_ms };
        self.entries.push(new);
        assert(self@ =~= before.push(new@));
        Ok(())
    }

    /// Remove all of an owner's locks (FUSE release/flush). Returns true if
    /// anything was removed.
    pub fn release_owner(&mut self, owner: &str) -> (r: bool)
        ensures
            final(self)@ == without_owner(old(self)@, owner@),
            r == has_owner(old(self)@, owner@),
    {
        let ghost t = self@;
        let mut out: Vec<Entry> = Vec::new();
        let mut any: bool = false;
        proof {
            reveal(Seq::filter);
        }
        assert(out@.map_values(|e: Entry| e@) =~= without_owner(t.take(0), owner@));
        for i in 0..self.entries.len()
            invariant
                t == self@,
                out@.map_values(|e: Entry| e@) == without_owner(t.take(i as int), owner@),
                any == has_owner(t.take(i as int), owner@),
        {
            let e: &Entry = &self.entries[i];
            let ghost head = t.take(i as int);
            let ghost next = t.take(i + 1);
            assert(next.drop_last() =~= head);
            assert(next.last() == e@);
            assert(forall|j: int| 0 <= j < i ==> #[trigger] next[j] == head[j]);
            proof {
                reveal(Seq::filter);
            }
            if same_text(e.owner.as_str(), owner) {
                any = true;
                assert(next[i as int].owner == owner@);
            } else {
                let ghost before = out@;
                let kept: Entry = e.over(e.start, e.end);
                out.push(kept);
                assert(out@.map_values(|e: Entry| e@) =~= before.map_values(|e: Entry| e@).push(kept@));
                proof {
                    if has_owner(head, owner@) {
                        let j = choose|j: int| 0 <= j < head.len() && (#[trigger] head[j]).owner == owner@;
                        assert(next[j].owner == owner@);
                    }
                }
            }
        }
        assert(t.take(t.len() as int) =~= t);
        self.entries = out;
        any
    }

    /// Refresh the expiry of all of an owner's locks. Returns true if the
    /// owner held any.
    pub fn renew(&mut self, owner: &str, expire_ms: i64) -> (r: bool)
        ensures
            final(self)@ == old(self)@.map_values(|e: Held| renewed(e, owner@, expire_ms)),
            r == has_owner(old(self)@, owner@),
    {
        let ghost t = self@;
        let mut any: bool = false;
        let n: usize = self.entries.len();
        for i in 0..n
            invariant
                n == self.entries.len(),
                t.len() == n,
                forall|j: int| 0 <= j < i ==> (#[trigger] self.entries@[j])@ == renewed(t[j], owner@, expire_ms),
                forall|j: int| i <= j < n ==> (#[trigger] self.entries@[j])@ == t[j],
                any == (exists|j: int| 0 <= j < i && (#[trigger] t[j]).owner == owner@),
        {
            assert(self.entries@[i as int]@ == t[i as int]);
            if same_text(self.entries[i].owner.as_str(), owner) {
                let mut e: Entry = self.entries[i].over(self.entries[i].start, self.entries[i].end);
                e.expire_ms = expire_ms;
                self.entries.set(i, e);
                any = true;
                assert(t[i as int].owner == owner@);
            }
        }
        assert(self@ =~= t.map_values(|e: Held| renewed(e, owner@, expire_ms)));
        any
    }
}

proof fn lemma_first_block_stays(
    t: Seq<Held>,
    n: int,
    owner: Seq<char>,
    kind: LockKind,
    start: u64,
    end: u64,
    now_ms: i64,
)
    requires
        0 <= n <= t.len(),
        first_block(t.take(n), owner, kind, start, end, now_ms) is Some,
    ensures
        first_block(t, owner, kind, start, end, now_ms) == first_block(
            t.take(n),
            owner,
            kind,
            start,
            end,
            now_ms,
        ),
    decreases t.len() - n,
{
    if n < t.len() {
        assert(t.take(n + 1).drop_last() =~= t.take(n));
        lemma_first_block_stays(t, n + 1, owner, kind, start, end, now_ms);
    } else {
        assert(t.take(n) =~= t);
    }
}

/// Dropping the expired locks first does not change what blocks a request.
proof fn lemma_first_block_live(
    t: Seq<Held>,
    owner: Seq<char>,
    kind: LockKind,
    start: u64,
    end: u64,
    now_ms: i64,
)
    ensures
        first_block(live(t, now_ms), owner, kind, start, end, now_ms) == first_block(
            t,
            owner,
            kind,
            start,
            end,
            now_ms,
        ),
    decreases t.len(),
{
    reveal(Seq::filter);
    if t.len() > 0 {
        let p = |e: Held| e.expire_ms > now_ms;
        lemma_first_block_live(t.drop_last(), owner, kind, start, end, now_ms);
        let rest = live(t.drop_last(), now_ms);
        if p(t.last()) {
            assert(live(t, now_ms) =~= rest.push(t.last()));
            assert(rest.push(t.last()).drop_last() =~= rest);
        } else {
            assert(live(t, now_ms) =~= rest);
        }
    }
}

// ---------------------------------------------------------------------------
// The stored form
// ---------------------------------------------------------------------------

/// The line that stores a lock, without its newline.
pub open spec fn record(e: Held) -> Seq<char> {
    e.owner.push('\t').push(e.kind.letter()).push('\t') + decimal(e.start as nat).push('\t') + decimal(
        e.end as nat,
    ).push('\t') + decimal(e.pid as nat).push('\t') + decimal_int(e.expire_ms as int)
}

/// The lines that store the locks of `t`, in order.
pub open spec fn records(t: Seq<Held>) -> Seq<char>
    decreases t.len(),
{
    if t.len() == 0 {
        seq![]
    } else {
        record(t[0]).push('\n') + records(t.skip(1))
    }
}

/// The text of the `_lock` object for the table `t`: a header line, then one
/// line per lock.
pub open spec fn table_text(t: Seq<Held>) -> Seq<char> {
    "v1\n"@ + records(t)
}

/// The lock that a line stores, where it stores one.
pub open spec fn parse_record(line: Seq<char>) -> Option<Held> {
    let f = split(line, '\t');
    if f.len() != 6 || f[1].len() == 0 {
        None
    } else {
        match (
            LockKind::of_letter(f[1][0]),
            parse_u64_spec(f[2]),
            parse_u64_spec(f[3]),
            parse_nat(f[4], u32::MAX as nat),
            parse_i64_spec(f[5]),
        ) {
            (Some(kind), Some(start), Some(end), Some(pid), Some(expire_ms)) => Some(
                Held {
                    owner: f[0],
                    kind,
                    start: start as u64,
                    end: end as u64,
                    pid: pid as u32,
                    expire_ms: expire_ms as i64,
                },
            ),
            _ => None,
        }
    }
}

/// The locks stored by those of the lines that store one, in order.
pub open spec fn parse_records(ls: Seq<Seq<char>>) -> Seq<Held>
    decreases ls.len(),
{
    if ls.len() == 0 {
        seq![]
    } else {
        let before = parse_records(ls.drop_last());
        match parse_record(ls.last()) {
            Some(e) => before.push(e),
            None => before,
        }
    }
}

/// The table that the bytes of a `_lock` object store: the locks on the lines
/// after the first, and none where the bytes are not text.
pub open spec fn table_of(buf: Seq<u8>) -> Seq<Held> {
    if valid_utf8(buf) {
        let ls = lines(decode_utf8(buf));
        if ls.len() == 0 {
            seq![]
        } else {
            parse_records(ls.skip(1))
        }
    } else {
        seq![]
    }
}

/// A lock that its stored line keeps apart from its neighbours: the owner is
/// a single-line token, and the mode is one that is stored.
pub open spec fn storable(e: Held) -> bool {
    no_char(e.owner, '\t') && no_char(e.owner, '\n') && e.kind != LockKind::Unlock
}

/// The lock that one line stores.
fn decode_record(line: &[char]) -> (r: Option<Entry>)
    ensures
        r is Some <==> parse_record(line@) is Some,
        r matches Some(e) ==> parse_record(line@) == Some(e@),
{
    let f: Vec<Vec<char>> = split_on(line, '\t');
    let ghost g = split(line@, '\t');
    assert(forall|i: int| 0 <= i < f.len() ==> (#[trigger] f@[i])@ == g[i]);
    if f.len() != 6 || f[1].len() == 0 {
        return None;
    }
    match (
        LockKind::from_char(f[1][0]),
        parse_u64(f[2].as_slice()),
        parse_u64(f[3].as_slice()),
        parse_u32(f[4].as_slice()),
        parse_i64(f[5].as_slice()),
    ) {
        (Some(kind), Some(start), Some(end), Some(pid), Some(expire_ms)) => Some(
            Entry { owner: string_of(f[0].as_slice()), kind, start, end, pid, expire_ms },
        ),
        _ => None,
    }
}

impl LockTable {
    /// Encode as a line-based ASCII body: a `v1` header then one
    /// tab-separated record per entry. `owner` must contain no tab/newline
    /// for the table to be read back as it was.
    pub fn encode(&self) -> (r: Vec<u8>)
        ensures
            r@ == encode_utf8(table_text(self@)),
            (forall|i: int| 0 <= i < self@.len() ==> storable(#[trigger] self@[i])) ==> table_of(r@) == self@,
    {
        let mut s: String = "v1\n".to_string();
        let ghost t = self@;
        assert(t.skip(0) =~= t);
        for i in 0..self.entries.len()
            invariant
                t == self@,
                s@ + records(t.skip(i as int)) == table_text(t),
        {
            let e: &Entry = &self.entries[i];
            let ghost before = s@;
            push_text(&mut s, e.owner.as_str());
            s.push('\t');
            s.push(e.kind.as_char());
            s.push('\t');
            push_u64(&mut s, e.start);
            s.push('\t');
            push_u64(&mut s, e.end);
            s.push('\t');
            push_u64(&mut s, e.pid as u64);
            s.push('\t');
            push_i64(&mut s, e.expire_ms);
            s.push('\n');
            assert(t[i as int] == e@);
            assert(s@ =~= before + record(e@).push('\n'));
            assert(t.skip(i as int).skip(1) =~= t.skip(i + 1));
            assert(s@ + records(t.skip(i + 1)) =~= before + records(t.skip(i as int)));
        }
        assert(s@ + records(t.skip(t.len() as int)) =~= s@);
        proof {
            if forall|i: int| 0 <= i < t.len() ==> storable(#[trigger] t[i]) {
                law_lock_table_round_trip(t);
            }
        }
        slice_to_vec(s.as_str().as_bytes())
    }

    /// Decode [`encode`]'s format. Unparseable / unknown lines are skipped, so
    /// a partial or future-versioned body degrades to "fewer locks" rather
    /// than an error.
    ///
    /// [`encode`]: LockTable::encode
    pub fn decode(buf: &[u8]) -> (r: LockTable)
        ensures
            r@ == table_of(buf@),
    {
        let mut entries: Vec<Entry> = Vec::new();
        assert(entries@.map_values(|e: Entry| e@) =~= seq![]);
        let s: String = match utf8_text(slice_to_vec(buf)) {
            Some(s) => s,
            None => {
                return LockTable { entries };
            },
        };
        let cs: Vec<char> = chars_of(s.as_str());
        let ls: Vec<Vec<char>> = lines_of(cs.as_slice());
        let ghost all = lines(decode_utf8(buf@));
        if ls.len() == 0 {
            return LockTable { entries };
        }
        let ghost tail = all.skip(1);
        for i in 1..ls.len()
            invariant
                texts(ls@) == all,
                tail == all.skip(1),
                1 <= i,
                entries@.map_values(|e: Entry| e@) == parse_records(tail.take(i - 1)),
        {
            let ghost before = entries@.map_values(|e: Entry| e@);
            assert(tail.take(i as int).drop_last() =~= tail.take(i - 1));
            assert(tail.take(i as int).last() == texts(ls@)[i as int]);
            assert(texts(ls@)[i as int] == ls@[i as int]@);
            match decode_record(ls[i].as_slice()) {
                Some(e) => {
                    entries.push(e);
                    assert(entries@.map_values(|e: Entry| e@) =~= before.push(e@));
                },
                None => {},
            }
        }
        assert(tail.take(tail.len() as int) =~= tail);
        LockTable { entries }
    }
}

/// The fields of a storable lock's line are read back as they were written.
proof fn lemma_record_round_trip(e: Held)
    requires
        storable(e),
    ensures
        parse_record(record(e)) == Some(e),
        no_char(record(e), '\n'),
        strip_cr(record(e)) == record(e),
{
    let k = seq![e.kind.letter()];
    let a = decimal(e.start as nat);
    let b = decimal(e.end as nat);
    let c = decimal(e.pid as nat);
    let d = decimal_int(e.expire_ms as int);
    lemma_decimal(e.start as nat);
    lemma_decimal(e.end as nat);
    lemma_decimal(e.pid as nat);
    lemma_decimal_int_chars(e.expire_ms as int);
    assert(no_char(a, '\t') && no_char(a, '\n'));
    assert(no_char(b, '\t') && no_char(b, '\n'));
    assert(no_char(c, '\t') && no_char(c, '\n'));
    assert(no_char(d, '\t') && no_char(d, '\n'));
    let r5 = d;
    let r4 = c.push('\t') + r5;
    let r3 = b.push('\t') + r4;
    let r2 = a.push('\t') + r3;
    let r1 = k.push('\t') + r2;
    assert(record(e) =~= e.owner.push('\t') + r1);
    lemma_split_none(d, '\t');
    lemma_split_first(c, '\t', r5);
    lemma_split_first(b, '\t', r4);
    lemma_split_first(a, '\t', r3);
    lemma_split_first(k, '\t', r2);
    lemma_split_first(e.owner, '\t', r1);
    assert(split(record(e), '\t') =~= seq![e.owner, k, a, b, c, d]);
    lemma_parse_decimal(e.start as nat, u64::MAX as nat);
    lemma_parse_decimal(e.end as nat, u64::MAX as nat);
    lemma_parse_decimal(e.pid as nat, u32::MAX as nat);
    lemma_parse_decimal_int(e.expire_ms as int, (i64::MAX + 1) as nat, i64::MAX as nat);
    assert(no_char(r4, '\n'));
    assert(no_char(r3, '\n'));
    assert(no_char(r2, '\n'));
    assert(no_char(r1, '\n'));
    assert(record(e).last() == d.last());
}

/// The lines of the stored locks are one line per lock.
proof fn lemma_record_lines(t: Seq<Held>)
    requires
        forall|i: int| 0 <= i < t.len() ==> storable(#[trigger] t[i]),
    ensures
        lines(records(t)) == t.map_values(|e: Held| record(e)),
    decreases t.len(),
{
    if t.len() > 0 {
        assert(storable(t[0]));
        lemma_record_round_trip(t[0]);
        assert forall|i: int| 0 <= i < t.skip(1).len() implies storable(#[trigger] t.skip(1)[i]) by {
            assert(t.skip(1)[i] == t[i + 1]);
        }
        lemma_record_lines(t.skip(1));
        lemma_lines_first(record(t[0]), records(t.skip(1)));
    }
    assert(lines(records(t)) =~= t.map_values(|e: Held| record(e)));
}

proof fn lemma_parse_record_lines(t: Seq<Held>)
    requires
        forall|i: int| 0 <= i < t.len() ==> storable(#[trigger] t[i]),
    ensures
        parse_records(t.map_values(|e: Held| record(e))) == t,
    decreases t.len(),
{
    let ls = t.map_values(|e: Held| record(e));
    if t.len() > 0 {
        assert forall|i: int| 0 <= i < t.drop_last().len() implies storable(#[trigger] t.drop_last()[i]) by {
            assert(t.drop_last()[i] == t[i]);
        }
        lemma_parse_record_lines(t.drop_last());
        assert(ls.drop_last() =~= t.drop_last().map_values(|e: Held| record(e)));
        assert(storable(t[t.len() - 1]));
        lemma_record_round_trip(t.last());
        assert(t.drop_last().push(t.last()) =~= t);
    } else {
        assert(ls =~= seq![]);
        assert(t =~= seq![]);
    }
}

/// A table of locks with single-line owners is read back from its stored form
/// as it was: the same locks in the same order.
pub proof fn law_lock_table_round_trip(t: Seq<Held>)
    requires
        forall|i: int| 0 <= i < t.len() ==> storable(#[trigger] t[i]),
    ensures
        table_of(encode_utf8(table_text(t))) == t,
{
    let text = table_text(t);
    vstd::utf8::encode_utf8_valid_utf8(text);
    vstd::utf8::encode_utf8_decode_utf8(text);
    reveal_strlit("v1\n");
    let head = seq!['v', '1'];
    assert(text =~= head.push('\n') + records(t));
    lemma_lines_first(head, records(t));
    lemma_record_lines(t);
    lemma_parse_record_lines(t);
    assert(lines(text).skip(1) =~= t.map_values(|e: Held| record(e)));
}

// ---------------------------------------------------------------------------
// Laws of the lock engine
// ---------------------------------------------------------------------------

/// No two locks of different owners overlap unless both are read locks.
pub open spec fn compatible(t: Seq<Held>) -> bool {
    forall|i: int, j: int|
        #![trigger t[i], t[j]]
        0 <= i < t.len() && 0 <= j < t.len() && t[i].owner != t[j].owner && ranges_overlap(
            t[i].start,
            t[i].end,
            t[j].start,
            t[j].end,
        ) ==> t[i].kind != LockKind::Write && t[j].kind != LockKind::Write
}

/// `owner` holds a lock of mode `kind` on the byte `at`.
pub open spec fn holds(t: Seq<Held>, owner: Seq<char>, kind: LockKind, at: u64) -> bool {
    exists|i: int|
        0 <= i < t.len() && (#[trigger] t[i]).owner == owner && t[i].kind == kind && t[i].start <= at <= t[i].end
}

/// `w` is `e` on a part of its range.
spec fn part_of(w: Held, e: Held) -> bool {
    w.owner == e.owner && w.kind == e.kind && e.start <= w.start && w.end <= e.end
}

proof fn lemma_live_members(t: Seq<Held>, now_ms: i64)
    ensures
        forall|i: int|
            0 <= i < live(t, now_ms).len() ==> t.contains(#[trigger] live(t, now_ms)[i]) && live(
                t,
                now_ms,
            )[i].expire_ms > now_ms,
    decreases t.len(),
{
    reveal(Seq::filter);
    if t.len() > 0 {
        lemma_live_members(t.drop_last(), now_ms);
        let rest = live(t.drop_last(), now_ms);
        assert forall|i: int| 0 <= i < live(t, now_ms).len() implies t.contains(#[trigger] live(t, now_ms)[i])
            && live(t, now_ms)[i].expire_ms > now_ms by {
            if i < rest.len() {
                assert(live(t, now_ms)[i] == rest[i]);
                assert(t.drop_last().contains(rest[i]));
                let k = choose|k: int| 0 <= k < t.drop_last().len() && t.drop_last()[k] == rest[i];
                assert(t[k] == rest[i]);
            } else {
                assert(live(t, now_ms)[i] == t.last());
            }
        }
    }
}

proof fn lemma_without_range_members(t: Seq<Held>, owner: Seq<char>, start: u64, end: u64)
    ensures
        forall|i: int|
            0 <= i < without_range(t, owner, start, end).len() ==> exists|k: int|
                0 <= k < t.len() && part_of(#[trigger] without_range(t, owner, start, end)[i], #[trigger] t[k]),
    decreases t.len(),
{
    if t.len() > 0 {
        lemma_without_range_members(t.drop_last(), owner, start, end);
        let w = without_range(t, owner, start, end);
        let rest = without_range(t.drop_last(), owner, start, end);
        assert forall|i: int| 0 <= i < w.len() implies exists|k: int|
            0 <= k < t.len() && part_of(#[trigger] w[i], #[trigger] t[k]) by {
            if i < rest.len() {
                assert(w[i] == rest[i]);
                let k = choose|k: int|
                    0 <= k < t.drop_last().len() && part_of(rest[i], #[trigger] t.drop_last()[k]);
                assert(t[k] == t.drop_last()[k]);
            } else {
                assert(w[i] == pieces(t.last(), owner, start, end)[i - rest.len()]);
                assert(part_of(w[i], t[t.len() - 1]));
            }
        }
    }
}

proof fn lemma_no_block(t: Seq<Held>, owner: Seq<char>, kind: LockKind, start: u64, end: u64, now_ms: i64)
    ensures
        first_block(t, owner, kind, start, end, now_ms) is None <==> forall|i: int|
            0 <= i < t.len() ==> !blocks(#[trigger] t[i], owner, kind, start, end, now_ms),
    decreases t.len(),
{
    if t.len() > 0 {
        let r = t.drop_last();
        lemma_no_block(r, owner, kind, start, end, now_ms);
        if first_block(t, owner, kind, start, end, now_ms) is None {
            assert forall|i: int| 0 <= i < t.len() implies !blocks(#[trigger] t[i], owner, kind, start, end, now_ms) by {
                if i < r.len() {
                    assert(t[i] == r[i]);
                }
            }
        } else {
            if first_block(r, owner, kind, start, end, now_ms) is Some {
                let i = choose|i: int| 0 <= i < r.len() && blocks(#[trigger] r[i], owner, kind, start, end, now_ms);
                assert(t[i] == r[i]);
            } else {
                assert(blocks(t[t.len() - 1], owner, kind, start, end, now_ms));
            }
        }
    }
}

/// A lock or unlock request, granted or refused, keeps the table compatible.
pub proof fn law_set_keeps_compatible(t: Seq<Held>, new: Held, now_ms: i64)
    requires
        compatible(t),
    ensures
        compatible(set_result(t, new, now_ms).1),
{
    let l = live(t, now_ms);
    lemma_live_members(t, now_ms);
    assert(compatible(l)) by {
        assert forall|i: int, j: int|
            #![trigger l[i], l[j]]
            0 <= i < l.len() && 0 <= j < l.len() && l[i].owner != l[j].owner && ranges_overlap(
                l[i].start,
                l[i].end,
                l[j].start,
                l[j].end,
            ) implies l[i].kind != LockKind::Write && l[j].kind != LockKind::Write by {
            let a = choose|k: int| 0 <= k < t.len() && t[k] == l[i];
            let b = choose|k: int| 0 <= k < t.len() && t[k] == l[j];
            assert(t[a].owner != t[b].owner);
        }
    }
    let w = without_range(l, new.owner, new.start, new.end);
    lemma_without_range_members(l, new.owner, new.start, new.end);
    assert(compatible(w)) by {
        assert forall|i: int, j: int|
            #![trigger w[i], w[j]]
            0 <= i < w.len() && 0 <= j < w.len() && w[i].owner != w[j].owner && ranges_overlap(
                w[i].start,
                w[i].end,
                w[j].start,
                w[j].end,
            ) implies w[i].kind != LockKind::Write && w[j].kind != LockKind::Write by {
            let a = choose|k: int| 0 <= k < l.len() && part_of(w[i], #[trigger] l[k]);
            let b = choose|k: int| 0 <= k < l.len() && part_of(w[j], #[trigger] l[k]);
            assert(l[a].owner != l[b].owner);
        }
    }
    lemma_no_block(t, new.owner, new.kind, new.start, new.end, now_ms);
    if new.kind != LockKind::Unlock && first_block(t, new.owner, new.kind, new.start, new.end, now_ms) is None {
        let g = w.push(new);
        assert forall|i: int, j: int|
            #![trigger g[i], g[j]]
            0 <= i < g.len() && 0 <= j < g.len() && g[i].owner != g[j].owner && ranges_overlap(
                g[i].start,
                g[i].end,
                g[j].start,
                g[j].end,
            ) implies g[i].kind != LockKind::Write && g[j].kind != LockKind::Write by {
            if i < w.len() && j < w.len() {
                assert(w[i] == g[i] && w[j] == g[j]);
            } else {
                let o = if i < w.len() { i } else { j };
                assert(o < w.len());
                assert(g[o] == w[o]);
                let a = choose|k: int| 0 <= k < l.len() && part_of(w[o], #[trigger] l[k]);
                assert(l[a].expire_ms > now_ms);
                assert(t.contains(l[a]));
                let b = choose|k: int| 0 <= k < t.len() && t[k] == l[a];
                assert(!blocks(t[b], new.owner, new.kind, new.start, new.end, now_ms));
            }
        }
    }
}

/// Releasing an owner and renewing an owner keep the table compatible.
pub proof fn law_release_and_renew_keep_compatible(t: Seq<Held>, owner: Seq<char>, expire_ms: i64)
    requires
        compatible(t),
    ensures
        compatible(without_owner(t, owner)),
        compatible(t.map_values(|e: Held| renewed(e, owner, expire_ms))),
{
    let w = without_owner(t, owner);
    lemma_without_owner_members(t, owner);
    assert forall|i: int, j: int|
        #![trigger w[i], w[j]]
        0 <= i < w.len() && 0 <= j < w.len() && w[i].owner != w[j].owner && ranges_overlap(
            w[i].start,
            w[i].end,
            w[j].start,
            w[j].end,
        ) implies w[i].kind != LockKind::Write && w[j].kind != LockKind::Write by {
        let a = choose|k: int| 0 <= k < t.len() && t[k] == w[i];
        let b = choose|k: int| 0 <= k < t.len() && t[k] == w[j];
        assert(t[a].owner != t[b].owner);
    }
    let r = t.map_values(|e: Held| renewed(e, owner, expire_ms));
    assert forall|i: int, j: int|
        #![trigger r[i], r[j]]
        0 <= i < r.len() && 0 <= j < r.len() && r[i].owner != r[j].owner && ranges_overlap(
            r[i].start,
            r[i].end,
            r[j].start,
            r[j].end,
        ) implies r[i].kind != LockKind::Write && r[j].kind != LockKind::Write by {
        assert(t[i].owner != t[j].owner);
    }
}

proof fn lemma_without_owner_members(t: Seq<Held>, owner: Seq<char>)
    ensures
        forall|i: int|
            0 <= i < without_owner(t, owner).len() ==> t.contains(#[trigger] without_owner(t, owner)[i])
                && without_owner(t, owner)[i].owner != owner,
    decreases t.len(),
{
    reveal(Seq::filter);
    if t.len() > 0 {
        lemma_without_owner_members(t.drop_last(), owner);
        let w = without_owner(t, owner);
        let rest = without_owner(t.drop_last(), owner);
        assert forall|i: int| 0 <= i < w.len() implies t.contains(#[trigger] w[i]) && w[i].owner != owner by {
            if i < rest.len() {
                assert(w[i] == rest[i]);
                assert(t.drop_last().contains(rest[i]));
                let k = choose|k: int| 0 <= k < t.drop_last().len() && t.drop_last()[k] == rest[i];
                assert(t[k] == rest[i]);
            } else {
                assert(w[i] == t.last());
            }
        }
    }
}

/// The table is as a lock table should be: every lock is for reading or
/// writing and covers at least one byte, no two locks of one owner overlap,
/// and locks of different owners are compatible.
pub open spec fn table_ok(t: Seq<Held>) -> bool {
    &&& forall|i: int| 0 <= i < t.len() ==> (#[trigger] t[i]).kind != LockKind::Unlock && t[i].start <= t[i].end
    &&& own_disjoint(t)
    &&& compatible(t)
}

/// No two locks of one owner overlap.
pub open spec fn own_disjoint(t: Seq<Held>) -> bool {
    forall|i: int, j: int|
        #![trigger t[i], t[j]]
        0 <= i < t.len() && 0 <= j < t.len() && i != j && t[i].owner == t[j].owner ==> !ranges_overlap(
            t[i].start,
            t[i].end,
            t[j].start,
            t[j].end,
        )
}

/// Dropping locks leaves the rest as it should be.
proof fn lemma_filter_table_ok(t: Seq<Held>, p: spec_fn(Held) -> bool)
    requires
        table_ok(t),
    ensures
        table_ok(t.filter(p)),
        forall|i: int| 0 <= i < t.filter(p).len() ==> t.contains(#[trigger] t.filter(p)[i]) && p(t.filter(p)[i]),
    decreases t.len(),
{
    reveal(Seq::filter);
    if t.len() > 0 {
        let r = t.drop_last();
        let e = t.last();
        let z = t.len() - 1;
        assert(forall|i: int| 0 <= i < r.len() ==> #[trigger] r[i] == t[i]);
        assert(table_ok(r));
        lemma_filter_table_ok(r, p);
        let f = r.filter(p);
        let g = t.filter(p);
        assert forall|i: int| 0 <= i < f.len() implies exists|k: int| 0 <= k < z && t[k] == #[trigger] f[i] by {
            assert(r.contains(f[i]));
            let k = choose|k: int| 0 <= k < r.len() && r[k] == f[i];
            assert(t[k] == f[i]);
        }
        if p(e) {
            assert(g =~= f.push(e));
            assert forall|i: int| 0 <= i < f.len() implies (f[i].owner == e.owner ==> !ranges_overlap(
                (#[trigger] f[i]).start,
                f[i].end,
                e.start,
                e.end,
            )) && (f[i].owner != e.owner && ranges_overlap(f[i].start, f[i].end, e.start, e.end) ==> f[i].kind
                != LockKind::Write && e.kind != LockKind::Write) by {
                let k = choose|k: int| 0 <= k < z && t[k] == f[i];
                assert(t[z] == e);
                assert(t[k].owner == t[k].owner);
            }
            assert(t[z] == e);
            lemma_push_table_ok(f, e);
        } else {
            assert(g =~= f);
        }
        assert forall|i: int| 0 <= i < g.len() implies t.contains(#[trigger] g[i]) && p(g[i]) by {
            if i < f.len() {
                assert(g[i] == f[i]);
                let k = choose|k: int| 0 <= k < z && t[k] == f[i];
                assert(t[k] == g[i]);
            } else {
                assert(t[z] == g[i]);
            }
        }
    }
}

/// A lock that goes with all others can be added.
proof fn lemma_push_table_ok(t: Seq<Held>, e: Held)
    requires
        table_ok(t),
        e.kind != LockKind::Unlock,
        e.start <= e.end,
        forall|i: int|
            0 <= i < t.len() ==> ((#[trigger] t[i]).owner == e.owner ==> !ranges_overlap(
                t[i].start,
                t[i].end,
                e.start,
                e.end,
            )) && (t[i].owner != e.owner && ranges_overlap(t[i].start, t[i].end, e.start, e.end) ==> t[i].kind
                != LockKind::Write && e.kind != LockKind::Write),
    ensures
        table_ok(t.push(e)),
{
    let g = t.push(e);
    assert forall|i: int| 0 <= i < g.len() implies (#[trigger] g[i]).kind != LockKind::Unlock && g[i].start
        <= g[i].end by {
        if i < t.len() {
            assert(g[i] == t[i]);
        }
    }
    assert forall|i: int, j: int|
        #![trigger g[i], g[j]]
        0 <= i < g.len() && 0 <= j < g.len() && i != j && g[i].owner == g[j].owner implies !ranges_overlap(
        g[i].start,
        g[i].end,
        g[j].start,
        g[j].end,
    ) by {
        if i < t.len() && j < t.len() {
            assert(t[i] == g[i] && t[j] == g[j]);
        } else if i < t.len() {
            assert(t[i] == g[i]);
        } else {
            assert(t[j] == g[j]);
        }
    }
    assert forall|i: int, j: int|
        #![trigger g[i], g[j]]
        0 <= i < g.len() && 0 <= j < g.len() && g[i].owner != g[j].owner && ranges_overlap(
            g[i].start,
            g[i].end,
            g[j].start,
            g[j].end,
        ) implies g[i].kind != LockKind::Write && g[j].kind != LockKind::Write by {
        if i < t.len() && j < t.len() {
            assert(t[i] == g[i] && t[j] == g[j]);
        } else if i < t.len() {
            assert(t[i] == g[i]);
        } else {
            assert(t[j] == g[j]);
        }
    }
}

/// Giving a range up leaves a table as it should be, in which the owner holds
/// nothing of the range and every lock is a part of one that was there.
proof fn lemma_without_range_table_ok(t: Seq<Held>, owner: Seq<char>, start: u64, end: u64)
    requires
        table_ok(t),
        start <= end,
    ensures
        ({
            let w = without_range(t, owner, start, end);
            &&& table_ok(w)
            &&& forall|i: int|
                0 <= i < w.len() ==> is_part(t, #[trigger] w[i]) && (w[i].owner == owner ==> !ranges_overlap(
                    w[i].start,
                    w[i].end,
                    start,
                    end,
                ))
        }),
    decreases t.len(),
{
    if t.len() > 0 {
        let r = t.drop_last();
        let e = t.last();
        let z = t.len() - 1;
        assert(forall|i: int| 0 <= i < r.len() ==> #[trigger] r[i] == t[i]);
        assert(t[z] == e);
        assert(table_ok(r));
        lemma_without_range_table_ok(r, owner, start, end);
        let f = without_range(r, owner, start, end);
        let p = pieces(e, owner, start, end);
        assert forall|x: Held| #[trigger] is_part(r, x) implies is_part(t, x) && (x.owner == e.owner ==> !ranges_overlap(
            x.start,
            x.end,
            e.start,
            e.end,
        )) && (x.owner != e.owner && ranges_overlap(x.start, x.end, e.start, e.end) ==> x.kind != LockKind::Write
            && e.kind != LockKind::Write) by {
            let k = choose|k: int| 0 <= k < r.len() && part_of(x, #[trigger] r[k]);
            assert(part_of(x, t[k]));
            assert(t[k].owner == t[k].owner);
        }
        assert forall|i: int| 0 <= i < p.len() implies part_of(#[trigger] p[i], e) && is_part(t, p[i]) by {
            assert(part_of(p[i], t[z]));
        }
        let w = without_range(t, owner, start, end);
        if p.len() == 0 {
            assert(w =~= f);
        } else if p.len() == 1 {
            assert(w =~= f.push(p[0]));
            lemma_push_table_ok(f, p[0]);
        } else {
            assert(w =~= f.push(p[0]).push(p[1]));
            lemma_push_table_ok(f, p[0]);
            lemma_push_table_ok(f.push(p[0]), p[1]);
        }
        assert forall|i: int| 0 <= i < w.len() implies is_part(t, #[trigger] w[i]) && (w[i].owner == owner
            ==> !ranges_overlap(w[i].start, w[i].end, start, end)) by {
            if i < f.len() {
                assert(w[i] == f[i]);
            } else {
                assert(w[i] == p[i - f.len()]);
            }
        }
    }
}

/// The lock is a part of one in the table.
spec fn is_part(t: Seq<Held>, w: Held) -> bool {
    exists|k: int| 0 <= k < t.len() && part_of(w, #[trigger] t[k])
}

/// A table without locks is as it should be, and a lock or unlock request over
/// at least one byte, granted or refused, leaves it so.
pub proof fn law_set_keeps_the_table(t: Seq<Held>, new: Held, now_ms: i64)
    requires
        table_ok(t),
        new.start <= new.end,
    ensures
        table_ok(Seq::<Held>::empty()),
        table_ok(set_result(t, new, now_ms).1),
{
    let l = live(t, now_ms);
    lemma_filter_table_ok(t, |e: Held| e.expire_ms > now_ms);
    lemma_without_range_table_ok(l, new.owner, new.start, new.end);
    lemma_no_block(t, new.owner, new.kind, new.start, new.end, now_ms);
    let w = without_range(l, new.owner, new.start, new.end);
    if new.kind != LockKind::Unlock && first_block(t, new.owner, new.kind, new.start, new.end, now_ms) is None {
        assert forall|i: int| 0 <= i < w.len() implies ((#[trigger] w[i]).owner == new.owner ==> !ranges_overlap(
            w[i].start,
            w[i].end,
            new.start,
            new.end,
        )) && (w[i].owner != new.owner && ranges_overlap(w[i].start, w[i].end, new.start, new.end) ==> w[i].kind
            != LockKind::Write && new.kind != LockKind::Write) by {
            assert(is_part(l, w[i]));
            let k = choose|k: int| 0 <= k < l.len() && part_of(w[i], #[trigger] l[k]);
            assert(t.contains(l[k]));
            let b = choose|b: int| 0 <= b < t.len() && t[b] == l[k];
            assert(!blocks(t[b], new.owner, new.kind, new.start, new.end, now_ms));
        }
        lemma_push_table_ok(w, new);
    }
}

/// Releasing an owner and renewing an owner leave the table as it should be.
pub proof fn law_release_and_renew_keep_the_table(t: Seq<Held>, owner: Seq<char>, expire_ms: i64)
    requires
        table_ok(t),
    ensures
        table_ok(without_owner(t, owner)),
        table_ok(t.map_values(|e: Held| renewed(e, owner, expire_ms))),
{
    lemma_filter_table_ok(t, |e: Held| e.owner != owner);
    law_release_and_renew_keep_compatible(t, owner, expire_ms);
    let r = t.map_values(|e: Held| renewed(e, owner, expire_ms));
    assert(forall|i: int|
        0 <= i < t.len() ==> (#[trigger] r[i]).owner == t[i].owner && r[i].kind == t[i].kind && r[i].start == t[i].start
            && r[i].end == t[i].end);
    assert(own_disjoint(r)) by {
        assert forall|i: int, j: int|
            #![trigger r[i], r[j]]
            0 <= i < r.len() && 0 <= j < r.len() && i != j && r[i].owner == r[j].owner implies !ranges_overlap(
            r[i].start,
            r[i].end,
            r[j].start,
            r[j].end,
        ) by {
            assert(t[i].owner == t[j].owner);
        }
    }
}

/// In a compatible table, a byte that one owner has locked for writing is
/// locked by no other owner.
pub proof fn law_write_lock_is_exclusive(t: Seq<Held>, a: Seq<char>, b: Seq<char>, kind: LockKind, at: u64)
    requires
        compatible(t),
        a != b,
        holds(t, a, LockKind::Write, at),
    ensures
        !holds(t, b, kind, at),
{
    let i = choose|i: int|
        0 <= i < t.len() && (#[trigger] t[i]).owner == a && t[i].kind == LockKind::Write && t[i].start <= at
            <= t[i].end;
    if holds(t, b, kind, at) {
        let j = choose|j: int|
            0 <= j < t.len() && (#[trigger] t[j]).owner == b && t[j].kind == kind && t[j].start <= at <= t[j].end;
        assert(t[i].owner != t[j].owner);
    }
}

proof fn lemma_holds_push(t: Seq<Held>, e: Held, o: Seq<char>, k: LockKind, at: u64)
    ensures
        holds(t.push(e), o, k, at) <==> holds(t, o, k, at) || (e.owner == o && e.kind == k && e.start <= at
            <= e.end),
{
    let p = t.push(e);
    if holds(t, o, k, at) {
        let i = choose|i: int|
            0 <= i < t.len() && (#[trigger] t[i]).owner == o && t[i].kind == k && t[i].start <= at <= t[i].end;
        assert(p[i] == t[i]);
    }
    if e.owner == o && e.kind == k && e.start <= at <= e.end {
        assert(p[t.len() as int] == e);
    }
    if holds(p, o, k, at) {
        let i = choose|i: int|
            0 <= i < p.len() && (#[trigger] p[i]).owner == o && p[i].kind == k && p[i].start <= at <= p[i].end;
        if i < t.len() {
            assert(t[i] == p[i]);
        }
    }
}

proof fn lemma_without_range_holds(
    t: Seq<Held>,
    owner: Seq<char>,
    start: u64,
    end: u64,
    o: Seq<char>,
    k: LockKind,
    at: u64,
)
    requires
        start <= end,
    ensures
        holds(without_range(t, owner, start, end), o, k, at) <==> holds(t, o, k, at) && !(o == owner && start <= at
            <= end),
    decreases t.len(),
{
    if t.len() > 0 {
        let r = t.drop_last();
        let e = t.last();
        lemma_without_range_holds(r, owner, start, end, o, k, at);
        assert(t =~= r.push(e));
        lemma_holds_push(r, e, o, k, at);
        let w = without_range(r, owner, start, end);
        let p = pieces(e, owner, start, end);
        if p.len() == 0 {
            assert(w + p =~= w);
        } else if p.len() == 1 {
            assert(w + p =~= w.push(p[0]));
            lemma_holds_push(w, p[0], o, k, at);
        } else {
            assert(w + p =~= w.push(p[0]).push(p[1]));
            lemma_holds_push(w, p[0], o, k, at);
            lemma_holds_push(w.push(p[0]), p[1], o, k, at);
        }
    }
}

/// A granted request decides, byte by byte, who holds what: in its range the
/// owner then holds exactly the requested mode (nothing after an unlock);
/// everywhere else, and for every other owner, the locks that had not expired
/// stay as they were.
pub proof fn law_granted_request_replaces_range(
    t: Seq<Held>,
    new: Held,
    now_ms: i64,
    o: Seq<char>,
    k: LockKind,
    at: u64,
)
    requires
        new.start <= new.end,
        k != LockKind::Unlock,
        set_result(t, new, now_ms).0 is None,
    ensures
        holds(set_result(t, new, now_ms).1, o, k, at) <==> if o == new.owner && new.start <= at <= new.end {
            k == new.kind
        } else {
            holds(live(t, now_ms), o, k, at)
        },
{
    let l = live(t, now_ms);
    let w = without_range(l, new.owner, new.start, new.end);
    lemma_without_range_holds(l, new.owner, new.start, new.end, o, k, at);
    lemma_holds_push(w, new, o, k, at);
}

/// While a granted lock has not expired, another owner's overlapping request
/// is refused if either of the two is for writing. So of two contending
/// requests on one table exactly one is granted.
pub proof fn law_granted_lock_blocks_others(t: Seq<Held>, first: Held, second: Held, now_ms: i64, later_ms: i64)
    requires
        first.kind != LockKind::Unlock,
        second.kind != LockKind::Unlock,
        set_result(t, first, now_ms).0 is None,
        first.owner != second.owner,
        ranges_overlap(first.start, first.end, second.start, second.end),
        first.kind == LockKind::Write || second.kind == LockKind::Write,
        later_ms < first.expire_ms,
    ensures
        set_result(set_result(t, first, now_ms).1, second, later_ms).0 is Some,
{
    let g = set_result(t, first, now_ms).1;
    lemma_no_block(g, second.owner, second.kind, second.start, second.end, later_ms);
    assert(g[g.len() - 1] == first);
    assert(blocks(g[g.len() - 1], second.owner, second.kind, second.start, second.end, later_ms));
}

/// An owner's own locks never stand in its way: it can change, split and
/// upgrade what it holds.
pub proof fn law_own_locks_do_not_block(t: Seq<Held>, new: Held, now_ms: i64)
    requires
        forall|i: int| 0 <= i < t.len() ==> (#[trigger] t[i]).owner == new.owner,
    ensures
        set_result(t, new, now_ms).0 is None,
{
    lemma_no_block(t, new.owner, new.kind, new.start, new.end, now_ms);
}

/// Releasing an owner frees all that it holds and leaves every other owner's
/// locks as they were.
pub proof fn law_release_frees_one_owner(t: Seq<Held>, owner: Seq<char>, o: Seq<char>, k: LockKind, at: u64)
    ensures
        holds(without_owner(t, owner), o, k, at) <==> o != owner && holds(t, o, k, at),
    decreases t.len(),
{
    reveal(Seq::filter);
    if t.len() > 0 {
        let r = t.drop_last();
        let e = t.last();
        law_release_frees_one_owner(r, owner, o, k, at);
        assert(t =~= r.push(e));
        lemma_holds_push(r, e, o, k, at);
        let w = without_owner(r, owner);
        if e.owner != owner {
            assert(without_owner(t, owner) =~= w.push(e));
            lemma_holds_push(w, e, o, k, at);
        } else {
            assert(without_owner(t, owner) =~= w);
        }
    }
}

/// An expired lock stands in nobody's way: a request is refused only on
/// account of a lock that has not expired.
pub proof fn law_expired_locks_block_nothing(t: Seq<Held>, new: Held, now_ms: i64)
    requires
        forall|i: int| 0 <= i < t.len() ==> (#[trigger] t[i]).expire_ms <= now_ms,
    ensures
        set_result(t, new, now_ms).0 is None,
{
    lemma_no_block(t, new.owner, new.kind, new.start, new.end, now_ms);
}

// ---------------------------------------------------------------------------
// One round of a read-modify-write of the `_lock` object
// ---------------------------------------------------------------------------

/// How a conditional PUT of the table ended.
#[derive(Clone, Copy, PartialEq, Eq, Debug, Structural)]
pub enum PutOutcome {
    Written,
    /// The precondition failed: the table changed in between.
    Retry,
}

/// What a failed conditional PUT means, by its HTTP status where there was a
/// response: 412 and 409 are lost races, anything else is an error (`None`).
pub fn put_failure(status: Option<u16>) -> (r: Option<PutOutcome>)
    ensures
        r == if status == Some(412u16) || status == Some(409u16) {
            Some(PutOutcome::Retry)
        } else {
            None
        },
{
    match status {
        Some(code) => if code == 412 || code == 409 {
            Some(PutOutcome::Retry)
        } else {
            None
        },
        None => None,
    }
}

/// What follows a conditional PUT in an optimistic retry loop.
#[derive(Clone, Copy, PartialEq, Eq, Debug, Structural)]
pub enum OccNext {
    Done,
    Again,
    Busy,
}

/// Decides after the conditional PUT of round `round` (counted from zero) of
/// at most `limit` rounds.
pub fn occ_next(round: usize, limit: usize, outcome: PutOutcome) -> (r: OccNext)
    ensures
        r == match outcome {
            PutOutcome::Written => OccNext::Done,
            PutOutcome::Retry => if round + 1 < limit {
                OccNext::Again
            } else {
                OccNext::Busy
            },
        },
{
    match outcome {
        PutOutcome::Written => OccNext::Done,
        PutOutcome::Retry => if limit > 0 && round < limit - 1 {
            OccNext::Again
        } else {
            OccNext::Busy
        },
    }
}

/// What a round of setlk does once the object has been read.
#[derive(Debug)]
pub enum SetLkStep {
    /// The request is answered without a write.
    Done(SetLkOutcome),
    /// This body is to be written, on the condition that the object has not
    /// changed; the request is granted once it is.
    Put(Vec<u8>),
}

/// The table that a read of the `_lock` object gave; no object is no lock.
pub open spec fn loaded(body: Option<Seq<u8>>) -> Seq<Held> {
    match body {
        Some(b) => table_of(b),
        None => seq![],
    }
}

fn load(body: Option<&Vec<u8>>) -> (r: LockTable)
    ensures
        r@ == loaded(match body {
            Some(b) => Some(b@),
            None => None,
        }),
{
    match body {
        Some(b) => LockTable::decode(b.as_slice()),
        None => LockTable::default(),
    }
}

/// One round of setlk on the body of the `_lock` object (`None` where there
/// is none), at `now_ms`.
#[allow(clippy::too_many_arguments)]
pub fn setlk_step(
    body: Option<&Vec<u8>>,
    owner: &str,
    kind: LockKind,
    start: u64,
    end: u64,
    pid: u32,
    ttl_ms: u64,
    now_ms: i64,
) -> (r: SetLkStep)
    ensures
        ({
            let t = loaded(match body {
                Some(b) => Some(b@),
                None => None,
            });
            let new = Held { owner: owner@, kind, start, end, pid, expire_ms: expiry(now_ms, ttl_ms) };
            let (block, after) = set_result(t, new, now_ms);
            if kind == LockKind::Unlock && body is None {
                r == SetLkStep::Done(SetLkOutcome::Granted)
            } else {
                match block {
                    Some(c) => r == SetLkStep::Done(SetLkOutcome::Conflict(c)),
                    None => r matches SetLkStep::Put(b) && b@ == encode_utf8(table_text(after)),
                }
            }
        }),
{
    if kind == LockKind::Unlock && body.is_none() {
        return SetLkStep::Done(SetLkOutcome::Granted);
    }
    let mut table: LockTable = load(body);
    let expire: i64 = expires_at(now_ms, ttl_ms);
    match table.set(owner, kind, start, end, pid, expire, now_ms) {
        Err(c) => SetLkStep::Done(SetLkOutcome::Conflict(c)),
        Ok(()) => SetLkStep::Put(table.encode()),
    }
}

/// A test for a conflicting lock on the body of the `_lock` object.
pub fn getlk_answer(
    body: Option<&Vec<u8>>,
    owner: &str,
    kind: LockKind,
    start: u64,
    end: u64,
    now_ms: i64,
) -> (r: Option<Conflict>)
    ensures
        r == first_block(
            loaded(match body {
                Some(b) => Some(b@),
                None => None,
            }),
            owner@,
            kind,
            start,
            end,
            now_ms,
        ),
{
    load(body).test(owner, kind, start, end, now_ms)
}

/// One round of releasing all locks of `owner`: the body to write, or `None`
/// where there is no object or the owner holds nothing.
pub fn unlock_owner_step(body: Option<&Vec<u8>>, owner: &str) -> (r: Option<Vec<u8>>)
    ensures
        ({
            let t = loaded(match body {
                Some(b) => Some(b@),
                None => None,
            });
            &&& r is Some <==> has_owner(t, owner@)
            &&& r matches Some(b) ==> b@ == encode_utf8(table_text(without_owner(t, owner@)))
        }),
{
    let mut table: LockTable = load(body);
    if table.release_owner(owner) {
        Some(table.encode())
    } else {
        None
    }
}

/// One round of renewing all locks of `owner` for another `ttl_ms`: the body
/// to write, or `None` where there is no object or the owner holds nothing.
pub fn lock_renew_step(body: Option<&Vec<u8>>, owner: &str, ttl_ms: u64, now_ms: i64) -> (r: Option<Vec<u8>>)
    ensures
        ({
            let t = loaded(match body {
                Some(b) => Some(b@),
                None => None,
            });
            let after = t.map_values(|e: Held| renewed(e, owner@, expiry(now_ms, ttl_ms)));
            &&& r is Some <==> has_owner(t, owner@)
            &&& r matches Some(b) ==> b@ == encode_utf8(table_text(after))
        }),
{
    let mut table: LockTable = load(body);
    if table.renew(owner, expires_at(now_ms, ttl_ms)) {
        Some(table.encode())
    } else {
        None
    }
}

// ---------------------------------------------------------------------------
// Laws of single requests, lock by lock
// ---------------------------------------------------------------------------

/// The value of a lock table is its locks one by one, in order, field by field.
pub proof fn law_table_is_its_entries(t: LockTable, i: int)
    requires
        0 <= i < t.entries.len(),
    ensures
        t@.len() == t.entries.len(),
        t@[i].owner == t.entries[i].owner@,
        t@[i].kind == t.entries[i].kind,
        t@[i].start == t.entries[i].start,
        t@[i].end == t.entries[i].end,
        t@[i].pid == t.entries[i].pid,
        t@[i].expire_ms == t.entries[i].expire_ms,
{
}

/// Modes are stored as letters; only read and write locks are.
pub proof fn law_letters_of_modes(c: char)
    ensures
        LockKind::Read.letter() == 'R',
        LockKind::Write.letter() == 'W',
        LockKind::Unlock.letter() == 'U',
        LockKind::of_letter('R') == Some(LockKind::Read),
        LockKind::of_letter('W') == Some(LockKind::Write),
        c != 'R' && c != 'W' ==> LockKind::of_letter(c) is None,
{
}

/// Two ranges overlap where some byte `x` is in both, and only there.
pub proof fn law_ranges_overlap_at_a_byte(a: u64, b: u64, c: u64, d: u64, y: u64) -> (x: u64)
    requires
        a <= b,
        c <= d,
    ensures
        ranges_overlap(a, b, c, d) ==> a <= x <= b && c <= x <= d,
        a <= y <= b && c <= y <= d ==> ranges_overlap(a, b, c, d),
        ranges_overlap(a, b, c, d) == ranges_overlap(c, d, a, b),
{
    if a <= c {
        c
    } else {
        a
    }
}

/// Ranges that do not overlap lie one before the other, and the other way
/// round.
pub proof fn law_ranges_apart(a: u64, b: u64, c: u64, d: u64)
    ensures
        ranges_overlap(a, b, c, d) <==> !(b < c || d < a),
{
}

/// A request meets a conflict exactly where some lock in the table, at whatever
/// position, is another owner's, has not expired, shares the range, and either
/// of the two is for writing. What is reported is the first such lock.
pub proof fn law_conflict_is_the_first_lock_in_the_way(
    t: Seq<Held>,
    owner: Seq<char>,
    kind: LockKind,
    start: u64,
    end: u64,
    now_ms: i64,
)
    ensures
        match first_block(t, owner, kind, start, end, now_ms) {
            Some(c) => exists|i: int|
                0 <= i < t.len() && (#[trigger] t[i]).owner != owner && t[i].expire_ms > now_ms && t[i].start <= end
                    && start <= t[i].end && (kind == LockKind::Write || t[i].kind == LockKind::Write) && c.start
                    == t[i].start && c.end == t[i].end && c.kind == t[i].kind && c.pid == t[i].pid && forall|j: int|
                    0 <= j < i ==> !((#[trigger] t[j]).owner != owner && t[j].expire_ms > now_ms && t[j].start <= end
                        && start <= t[j].end && (kind == LockKind::Write || t[j].kind == LockKind::Write)),
            None => forall|i: int|
                0 <= i < t.len() ==> !((#[trigger] t[i]).owner != owner && t[i].expire_ms > now_ms && t[i].start <= end
                    && start <= t[i].end && (kind == LockKind::Write || t[i].kind == LockKind::Write)),
        },
    decreases t.len(),
{
    if t.len() > 0 {
        let r = t.drop_last();
        let z = t.len() - 1;
        law_conflict_is_the_first_lock_in_the_way(r, owner, kind, start, end, now_ms);
        assert(forall|i: int| 0 <= i < z ==> #[trigger] t[i] == r[i]);
        if first_block(r, owner, kind, start, end, now_ms) is Some {
            let c = first_block(r, owner, kind, start, end, now_ms).unwrap();
            let i = choose|i: int|
                0 <= i < r.len() && (#[trigger] r[i]).owner != owner && r[i].expire_ms > now_ms && r[i].start <= end
                    && start <= r[i].end && (kind == LockKind::Write || r[i].kind == LockKind::Write) && c.start
                    == r[i].start && c.end == r[i].end && c.kind == r[i].kind && c.pid == r[i].pid && forall|j: int|
                    0 <= j < i ==> !((#[trigger] r[j]).owner != owner && r[j].expire_ms > now_ms && r[j].start <= end
                        && start <= r[j].end && (kind == LockKind::Write || r[j].kind == LockKind::Write));
            assert(t[i] == r[i]);
            assert forall|j: int| 0 <= j < i implies !((#[trigger] t[j]).owner != owner && t[j].expire_ms > now_ms
                && t[j].start <= end && start <= t[j].end && (kind == LockKind::Write || t[j].kind
                == LockKind::Write)) by {
                assert(t[j] == r[j]);
            }
        } else {
            assert forall|j: int| 0 <= j < z implies !((#[trigger] t[j]).owner != owner && t[j].expire_ms > now_ms
                && t[j].start <= end && start <= t[j].end && (kind == LockKind::Write || t[j].kind
                == LockKind::Write)) by {
                assert(t[j] == r[j]);
            }
            assert(t[z] == t.last());
        }
    }
}

/// A lock or unlock request is refused exactly where it is not an unlock and
/// some lock is in its way; then the table keeps what has not expired.
pub proof fn law_set_is_refused_by_a_lock_in_the_way(t: Seq<Held>, new: Held, now_ms: i64)
    ensures
        set_result(t, new, now_ms).0 is Some <==> new.kind != LockKind::Unlock && exists|i: int|
            0 <= i < t.len() && (#[trigger] t[i]).owner != new.owner && t[i].expire_ms > now_ms && t[i].start <= new.end
                && new.start <= t[i].end && (new.kind == LockKind::Write || t[i].kind == LockKind::Write),
        set_result(t, new, now_ms).0 is Some ==> set_result(t, new, now_ms).0 == first_block(
            t,
            new.owner,
            new.kind,
            new.start,
            new.end,
            now_ms,
        ),
        set_result(t, new, now_ms).0 is Some ==> set_result(t, new, now_ms).1 == live(t, now_ms),
{
    law_conflict_is_the_first_lock_in_the_way(t, new.owner, new.kind, new.start, new.end, now_ms);
}

/// A granted lock stands in the table as it was asked for, with its owner,
/// range, process and expiry; before it stands what an unlock of the same range
/// would leave.
pub proof fn law_granted_lock_is_an_unlock_and_the_lock(t: Seq<Held>, new: Held, now_ms: i64)
    requires
        new.kind != LockKind::Unlock,
        set_result(t, new, now_ms).0 is None,
    ensures
        set_result(t, new, now_ms).1 == set_result(t, Held { kind: LockKind::Unlock, ..new }, now_ms).1.push(new),
        set_result(t, Held { kind: LockKind::Unlock, ..new }, now_ms).0 is None,
{
}

/// An unlock goes through the table lock by lock. It drops what has expired and
/// leaves what is another owner's or outside the range; of a lock that it meets
/// it leaves the part below the range and the part above it, each with the
/// lock's mode, process and expiry.
pub proof fn law_unlock_lock_by_lock(t: Seq<Held>, e: Held, new: Held, now_ms: i64)
    requires
        new.kind == LockKind::Unlock,
    ensures
        set_result(Seq::<Held>::empty(), new, now_ms).1 == Seq::<Held>::empty(),
        ({
            let before = set_result(t, new, now_ms).1;
            let after = set_result(t.push(e), new, now_ms).1;
            if e.expire_ms <= now_ms {
                after == before
            } else if e.owner != new.owner || e.end < new.start || new.end < e.start {
                after == before.push(e)
            } else {
                &&& e.start >= new.start && e.end <= new.end ==> after == before
                &&& e.start < new.start && e.end <= new.end ==> after == before.push(
                    Held { end: (new.start - 1) as u64, ..e },
                )
                &&& e.start >= new.start && e.end > new.end ==> after == before.push(
                    Held { start: (new.end + 1) as u64, ..e },
                )
                &&& e.start < new.start && e.end > new.end ==> after == before.push(
                    Held { end: (new.start - 1) as u64, ..e },
                ).push(Held { start: (new.end + 1) as u64, ..e })
            }
        }),
{
    reveal(Seq::filter);
    let s = t.push(e);
    assert(s.drop_last() =~= t);
    let p = |x: Held| x.expire_ms > now_ms;
    let l = live(t, now_ms);
    assert(live(Seq::<Held>::empty(), now_ms) =~= Seq::<Held>::empty());
    if p(e) {
        assert(live(s, now_ms) =~= l.push(e));
        assert(l.push(e).drop_last() =~= l);
        let w = without_range(l, new.owner, new.start, new.end);
        let q = pieces(e, new.owner, new.start, new.end);
        assert(without_range(live(s, now_ms), new.owner, new.start, new.end) == w + q);
        let low = Held { end: (new.start - 1) as u64, ..e };
        let high = Held { start: (new.end + 1) as u64, ..e };
        if e.owner != new.owner || e.end < new.start || new.end < e.start {
            assert(w + q =~= w.push(e));
        } else if e.start >= new.start && e.end <= new.end {
            assert(w + q =~= w);
        } else if e.start < new.start && e.end <= new.end {
            assert(w + q =~= w.push(low));
        } else if e.start >= new.start && e.end > new.end {
            assert(w + q =~= w.push(high));
        } else {
            assert(w + q =~= w.push(low).push(high));
        }
    } else {
        assert(live(s, now_ms) =~= l);
    }
}

/// Giving up a range goes through the table lock by lock in the same way,
/// whether the locks have expired or not.
pub proof fn law_giving_up_a_range_lock_by_lock(t: Seq<Held>, e: Held, owner: Seq<char>, start: u64, end: u64)
    ensures
        without_range(Seq::<Held>::empty(), owner, start, end) == Seq::<Held>::empty(),
        ({
            let before = without_range(t, owner, start, end);
            let after = without_range(t.push(e), owner, start, end);
            if e.owner != owner || e.end < start || end < e.start {
                after == before.push(e)
            } else {
                &&& e.start >= start && e.end <= end ==> after == before
                &&& e.start < start && e.end <= end ==> after == before.push(Held { end: (start - 1) as u64, ..e })
                &&& e.start >= start && e.end > end ==> after == before.push(Held { start: (end + 1) as u64, ..e })
                &&& e.start < start && e.end > end ==> after == before.push(Held { end: (start - 1) as u64, ..e }).push(
                    Held { start: (end + 1) as u64, ..e },
                )
            }
        }),
{
    assert(t.push(e).drop_last() =~= t);
    let w = without_range(t, owner, start, end);
    let q = pieces(e, owner, start, end);
    let low = Held { end: (start - 1) as u64, ..e };
    let high = Held { start: (end + 1) as u64, ..e };
    if e.owner != owner || e.end < start || end < e.start {
        assert(w + q =~= w.push(e));
    } else if e.start >= start && e.end <= end {
        assert(w + q =~= w);
    } else if e.start < start && e.end <= end {
        assert(w + q =~= w.push(low));
    } else if e.start >= start && e.end > end {
        assert(w + q =~= w.push(high));
    } else {
        assert(w + q =~= w.push(low).push(high));
    }
}

/// Purging goes through the table lock by lock and keeps those whose expiry
/// lies ahead, as they are and in their order.
pub proof fn law_purge_lock_by_lock(t: Seq<Held>, e: Held, now_ms: i64)
    ensures
        live(Seq::<Held>::empty(), now_ms) == Seq::<Held>::empty(),
        e.expire_ms > now_ms ==> live(t.push(e), now_ms) == live(t, now_ms).push(e),
        e.expire_ms <= now_ms ==> live(t.push(e), now_ms) == live(t, now_ms),
{
    reveal(Seq::filter);
    assert(t.push(e).drop_last() =~= t);
}

/// A release takes out every lock of the owner, at whatever position, and
/// leaves all others as they are and in their order. It says that there was
/// something to release exactly where the table has become shorter.
pub proof fn law_release_lock_by_lock(t: Seq<Held>, e: Held, owner: Seq<char>)
    ensures
        without_owner(Seq::<Held>::empty(), owner) == Seq::<Held>::empty(),
        e.owner == owner ==> without_owner(t.push(e), owner) == without_owner(t, owner),
        e.owner != owner ==> without_owner(t.push(e), owner) == without_owner(t, owner).push(e),
        without_owner(t, owner).len() <= t.len(),
        has_owner(t, owner) <==> without_owner(t, owner).len() < t.len(),
        has_owner(t, owner) <==> exists|i: int| 0 <= i < t.len() && (#[trigger] t[i]).owner == owner,
    decreases t.len(),
{
    reveal(Seq::filter);
    assert(t.push(e).drop_last() =~= t);
    if t.len() > 0 {
        let r = t.drop_last();
        let z = t.len() - 1;
        law_release_lock_by_lock(r, t.last(), owner);
        assert(r.push(t.last()) =~= t);
        if has_owner(r, owner) {
            let i = choose|i: int| 0 <= i < r.len() && (#[trigger] r[i]).owner == owner;
            assert(t[i].owner == owner);
        }
        if has_owner(t, owner) && !has_owner(r, owner) {
            let i = choose|i: int| 0 <= i < t.len() && (#[trigger] t[i]).owner == owner;
            if i < z {
                assert(r[i].owner == owner);
            }
        }
        if t.last().owner == owner {
            assert(t[z].owner == owner);
        }
    }
}

/// Whoever has a lock in the table, at whatever position, holds something:
/// their release and their renewal find it.
pub proof fn law_every_lock_counts_for_its_owner(t: Seq<Held>, i: int, owner: Seq<char>, kind: LockKind, at: u64)
    requires
        0 <= i < t.len(),
    ensures
        has_owner(t, t[i].owner),
        !without_owner(t, t[i].owner).contains(t[i]),
        holds(t, owner, kind, at) ==> has_owner(t, owner),
        t[i].start <= at <= t[i].end ==> holds(t, t[i].owner, t[i].kind, at),
{
    law_release_lock_by_lock(t, t[i], t[i].owner);
    law_release_lock_by_lock(t, t[i], owner);
    assert(t[i].owner == t[i].owner);
    lemma_without_owner_members(t, t[i].owner);
    if holds(t, owner, kind, at) {
        let k = choose|k: int|
            0 <= k < t.len() && (#[trigger] t[k]).owner == owner && t[k].kind == kind && t[k].start <= at <= t[k].end;
        assert(t[k].owner == owner);
    }
}

/// A renewal gives every lock of the owner, at whatever position, the new
/// expiry and changes nothing else of any lock.
pub proof fn law_renewal_moves_only_the_expiry(t: Seq<Held>, owner: Seq<char>, expire_ms: i64, i: int)
    requires
        0 <= i < t.len(),
    ensures
        ({
            let r = t.map_values(|e: Held| renewed(e, owner, expire_ms));
            &&& r.len() == t.len()
            &&& r[i].owner == t[i].owner
            &&& r[i].kind == t[i].kind
            &&& r[i].start == t[i].start
            &&& r[i].end == t[i].end
            &&& r[i].pid == t[i].pid
            &&& t[i].owner == owner ==> r[i].expire_ms == expire_ms
            &&& t[i].owner != owner ==> r[i].expire_ms == t[i].expire_ms
        }),
{
}

/// The locks of different owners that a compatible table holds on one byte are
/// all for reading.
pub proof fn law_compatible_locks_share_bytes_only_for_reading(t: Seq<Held>, i: int, j: int, at: u64)
    requires
        compatible(t),
        0 <= i < t.len(),
        0 <= j < t.len(),
        t[i].owner != t[j].owner,
        t[i].start <= at <= t[i].end,
        t[j].start <= at <= t[j].end,
    ensures
        t[i].kind != LockKind::Write,
        t[j].kind != LockKind::Write,
{
}

/// A stored table is read line by line: the first line is a heading, a line of
/// six fields between tabs that holds a lock adds that lock, and any other line
/// adds nothing.
pub proof fn law_stored_locks_line_by_line(ls: Seq<Seq<char>>, line: Seq<char>)
    ensures
        parse_records(Seq::<Seq<char>>::empty()) == Seq::<Held>::empty(),
        parse_records(ls.push(line)) == match parse_record(line) {
            Some(e) => parse_records(ls).push(e),
            None => parse_records(ls),
        },
        parse_record(line) is Some ==> split(line, '\t').len() == 6,
        parse_record(line) matches Some(e) ==> {
            let f = split(line, '\t');
            &&& e.owner == f[0]
            &&& f[1].len() > 0 && (f[1][0] == 'R' && e.kind == LockKind::Read || f[1][0] == 'W' && e.kind
                == LockKind::Write)
            &&& parse_u64_spec(f[2]) == Some(e.start as nat)
            &&& parse_u64_spec(f[3]) == Some(e.end as nat)
            &&& parse_nat(f[4], 0xffff_ffff) == Some(e.pid as nat)
            &&& parse_i64_spec(f[5]) == Some(e.expire_ms as int)
        },
        ({
            let f = split(line, '\t');
            f.len() == 6 && f[1].len() > 0 && (f[1][0] == 'R' || f[1][0] == 'W') && parse_u64_spec(f[2]) is Some
                && parse_u64_spec(f[3]) is Some && parse_nat(f[4], 0xffff_ffff) is Some && parse_i64_spec(f[5]) is Some
                ==> parse_record(line) is Some
        }),
{
    assert(ls.push(line).drop_last() =~= ls);
}

/// A body that is not text stores no lock, and no body stores none; a body of
/// text stores what its lines after the first do.
pub proof fn law_stored_table(buf: Seq<u8>, heading: Seq<char>, rest: Seq<Seq<char>>)
    ensures
        !valid_utf8(buf) ==> table_of(buf) == Seq::<Held>::empty(),
        valid_utf8(buf) && lines(decode_utf8(buf)) == Seq::<Seq<char>>::empty() ==> table_of(buf) == Seq::<
            Held,
        >::empty(),
        valid_utf8(buf) && lines(decode_utf8(buf)) == seq![heading] + rest ==> table_of(buf) == parse_records(rest),
        loaded(None) == Seq::<Held>::empty(),
        loaded(Some(buf)) == table_of(buf),
{
    assert((seq![heading] + rest).skip(1) =~= rest);
}

/// Every lock that is stored in a table's text is on a line of its own: owner,
/// mode, range, process and expiry, between tabs.
pub proof fn law_table_text_lock_by_lock(t: Seq<Held>, e: Held)
    ensures
        table_text(Seq::<Held>::empty()) == "v1\n"@,
        table_text(t.push(e)) == table_text(t) + (e.owner + seq!['\t', e.kind.letter(), '\t'] + decimal(e.start as nat)
            + seq!['\t'] + decimal(e.end as nat) + seq!['\t'] + decimal(e.pid as nat) + seq!['\t'] + decimal_int(
            e.expire_ms as int,
        ) + seq!['\n']),
{
    lemma_records_push(t, e);
    assert(table_text(Seq::<Held>::empty()) =~= "v1\n"@);
    assert(record(e).push('\n') =~= e.owner + seq!['\t', e.kind.letter(), '\t'] + decimal(e.start as nat) + seq!['\t']
        + decimal(e.end as nat) + seq!['\t'] + decimal(e.pid as nat) + seq!['\t'] + decimal_int(e.expire_ms as int)
        + seq!['\n']);
    assert(table_text(t.push(e)) =~= table_text(t) + record(e).push('\n'));
}

proof fn lemma_records_push(t: Seq<Held>, e: Held)
    ensures
        records(t.push(e)) == records(t) + record(e).push('\n'),
    decreases t.len(),
{
    let s = t.push(e);
    if t.len() > 0 {
        lemma_records_push(t.skip(1), e);
        assert(s.skip(1) =~= t.skip(1).push(e));
        assert(records(s) =~= records(t) + record(e).push('\n'));
    } else {
        assert(s.skip(1) =~= Seq::<Held>::empty());
        assert(records(Seq::<Held>::empty()) =~= Seq::<char>::empty());
        assert(s[0] == e);
        assert(records(s) =~= record(e).push('\n'));
        assert(t =~= Seq::<Held>::empty());
        assert(records(t) + record(e).push('\n') =~= record(e).push('\n'));
    }
}

/// The locks that are stored and read back are those of owners without a tab or
/// a newline, for reading or writing.
pub proof fn law_locks_that_can_be_stored(e: Held)
    ensures
        storable(e) <==> !e.owner.contains('\t') && !e.owner.contains('\n') && (e.kind == LockKind::Read || e.kind
            == LockKind::Write),
{
    if storable(e) {
        assert forall|c: char| c == '\t' || c == '\n' implies !e.owner.contains(c) by {}
    } else if !e.owner.contains('\t') && !e.owner.contains('\n') {
        assert(no_char(e.owner, '\t') && no_char(e.owner, '\n')) by {
            assert forall|i: int| 0 <= i < e.owner.len() implies e.owner[i] != '\t' && e.owner[i] != '\n' by {
                assert(e.owner.contains(e.owner[i]));
            }
        }
    }
}

// ---------------------------------------------------------------------------
// Laws of what the next reader finds
// ---------------------------------------------------------------------------

/// What a release writes, the next reader finds without any lock of the owner
/// and with every lock of every other owner, at whatever position it stood.
pub proof fn law_a_release_is_seen_by_the_next_reader(t: Seq<Held>, owner: Seq<char>, i: int)
    requires
        forall|k: int| 0 <= k < t.len() ==> storable(#[trigger] t[k]),
        0 <= i < t.len(),
    ensures
        ({
            let found = table_of(encode_utf8(table_text(without_owner(t, owner))));
            &&& t[i].owner != owner ==> found.contains(t[i])
            &&& forall|k: int| 0 <= k < found.len() ==> (#[trigger] found[k]).owner != owner && t.contains(found[k])
        }),
{
    let w = without_owner(t, owner);
    lemma_without_owner_members(t, owner);
    assert forall|k: int| 0 <= k < w.len() implies storable(#[trigger] w[k]) by {
        assert(t.contains(w[k]));
        let j = choose|j: int| 0 <= j < t.len() && t[j] == w[k];
        assert(storable(t[j]));
    }
    law_lock_table_round_trip(w);
    crate::file::lemma_filter_members(t, |e: Held| e.owner != owner, t[i]);
    assert(t.contains(t[i]));
}

/// What a renewal writes, the next reader finds with the same locks in the same
/// order, those of the owner with the new expiry; so that until then they keep
/// other owners out.
pub proof fn law_a_renewal_is_seen_by_the_next_reader(
    t: Seq<Held>,
    owner: Seq<char>,
    expire_ms: i64,
    i: int,
    other: Seq<char>,
    kind: LockKind,
    start: u64,
    end: u64,
    now_ms: i64,
)
    requires
        forall|k: int| 0 <= k < t.len() ==> storable(#[trigger] t[k]),
        0 <= i < t.len(),
    ensures
        ({
            let found = table_of(encode_utf8(table_text(t.map_values(|e: Held| renewed(e, owner, expire_ms)))));
            &&& found.len() == t.len()
            &&& found[i].owner == t[i].owner
            &&& found[i].kind == t[i].kind
            &&& found[i].start == t[i].start
            &&& found[i].end == t[i].end
            &&& found[i].pid == t[i].pid
            &&& found[i].expire_ms == if t[i].owner == owner {
                expire_ms
            } else {
                t[i].expire_ms
            }
            &&& t[i].owner == owner && other != owner && now_ms < expire_ms && t[i].start <= end && start <= t[i].end && (
            kind == LockKind::Write || t[i].kind == LockKind::Write) ==> first_block(
                found,
                other,
                kind,
                start,
                end,
                now_ms,
            ) is Some
        }),
{
    let r = t.map_values(|e: Held| renewed(e, owner, expire_ms));
    assert forall|k: int| 0 <= k < r.len() implies storable(#[trigger] r[k]) by {
        assert(storable(t[k]));
    }
    law_lock_table_round_trip(r);
    law_conflict_is_the_first_lock_in_the_way(r, other, kind, start, end, now_ms);
    assert(r[i] == renewed(t[i], owner, expire_ms));
}

/// What a granted request writes, the next reader finds: the lock that was asked
/// for is there, as it was asked for.
pub proof fn law_a_granted_lock_is_seen_by_the_next_reader(t: Seq<Held>, new: Held, now_ms: i64)
    requires
        forall|k: int| 0 <= k < t.len() ==> storable(#[trigger] t[k]),
        storable(new),
        set_result(t, new, now_ms).0 is None,
    ensures
        table_of(encode_utf8(table_text(set_result(t, new, now_ms).1))) == set_result(t, new, now_ms).1,
        table_of(encode_utf8(table_text(set_result(t, new, now_ms).1))).contains(new),
{
    let l = live(t, now_ms);
    let w = without_range(l, new.owner, new.start, new.end);
    let g = w.push(new);
    lemma_live_members(t, now_ms);
    lemma_without_range_members(l, new.owner, new.start, new.end);
    assert(set_result(t, new, now_ms).1 == g);
    assert forall|k: int| 0 <= k < g.len() implies storable(#[trigger] g[k]) by {
        if k < w.len() {
            assert(g[k] == w[k]);
            let a = choose|a: int| 0 <= a < l.len() && part_of(w[k], #[trigger] l[a]);
            assert(t.contains(l[a]));
            let b = choose|b: int| 0 <= b < t.len() && t[b] == l[a];
            assert(storable(t[b]));
        }
    }
    law_lock_table_round_trip(g);
    assert(g[w.len() as int] == new);
}

} // verus!
