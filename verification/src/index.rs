//! The directory index: a map from slot numbers to entries, used as a hash
//! table with open addressing.
//!
//! A name's home slot is the CRC-64 of its bytes, as far as an entry holds
//! them: a longer name is kept, found and removed under its first 255 bytes.
//! Names that collide are kept apart by probing forward, one slot at a time, to
//! the first empty slot; entries are told apart by the full name they hold. Removing an entry
//! repairs the probe chains behind it by backward shift, so that no gap hides
//! a later entry.
//!
//! The slots live in a B-tree on remote storage. An operation therefore works
//! on a [`ProbeChain`]: the run of occupied slots from the name's home slot to
//! the first empty one, read slot by slot. The operation answers with the
//! slots to write.
use vstd::prelude::*;
use vstd::utf8::encode_utf8;
use crate::error::Error;
use crate::ondisk::{
    dummy_name, entry_name, index_name, law_every_file_can_be_indexed, lemma_dummy_name, name_in_index, padded, trimmed,
    DirFileEntryRaw,
};
use crate::outside::{crc64, crc64_of};

verus! {

/// The home slot of a file: the CRC-64 of its name as an entry holds it.
pub fn hash_filename(name: &str) -> (r: u64)
    ensures
        r == crc64_of(index_name(name@)),
{
    let own: Vec<u8> = name_in_index(name);
    crc64(own.as_slice())
}

// ---------------------------------------------------------------------------
// The model
// ---------------------------------------------------------------------------

/// Number of slots.
pub open spec fn slot_count() -> int {
    0x1_0000_0000_0000_0000
}

/// The slot `d` steps after `h`; the last slot is followed by the first.
pub open spec fn slot(h: u64, d: int) -> u64 {
    if h + d < slot_count() {
        (h + d) as u64
    } else {
        (h + d - slot_count()) as u64
    }
}

/// Number of steps from `a` forward to `b`.
pub open spec fn gap(a: u64, b: u64) -> int {
    if b >= a {
        b - a
    } else {
        b - a + slot_count()
    }
}

/// The home slot of an entry.
pub open spec fn home(e: DirFileEntryRaw) -> u64 {
    crc64_of(e.filename())
}

/// Every entry can be reached from its home slot over occupied slots.
pub open spec fn chains_unbroken(m: Map<u64, DirFileEntryRaw>) -> bool {
    forall|k: u64, d: int|
        #![trigger m.contains_key(k), slot(home(m[k]), d)]
        m.contains_key(k) && !m[k].dummy() && 0 <= d < gap(home(m[k]), k) ==> m.contains_key(
            slot(home(m[k]), d),
        )
}

/// No two entries have the same name.
pub open spec fn names_unique(m: Map<u64, DirFileEntryRaw>) -> bool {
    forall|j: u64, k: u64|
        #![trigger m[j], m[k]]
        m.contains_key(j) && m.contains_key(k) && !m[j].dummy() && !m[k].dummy() && m[j].filename()
            == m[k].filename() ==> j == k
}

/// The slots form an index: what every operation keeps.
pub open spec fn index_ok(m: Map<u64, DirFileEntryRaw>) -> bool {
    chains_unbroken(m) && names_unique(m)
}

/// The index holds the entry `e`. Placeholders are not entries.
pub open spec fn lists(m: Map<u64, DirFileEntryRaw>, e: DirFileEntryRaw) -> bool {
    !e.dummy() && exists|k: u64| m.contains_key(k) && #[trigger] m[k] == e
}

/// `c` is the run of occupied slots from `h` to the first empty one.
pub open spec fn is_run(m: Map<u64, DirFileEntryRaw>, h: u64, c: Seq<DirFileEntryRaw>) -> bool {
    &&& c.len() < slot_count()
    &&& forall|i: int| 0 <= i < c.len() ==> m.contains_key(#[trigger] slot(h, i)) && m[slot(h, i)] == c[i]
    &&& !m.contains_key(slot(h, c.len() as int))
}

/// Position in the run of the first entry named `name`, or the run's length.
pub open spec fn find_name(c: Seq<DirFileEntryRaw>, name: Seq<u8>) -> nat
    decreases c.len(),
{
    if c.len() == 0 || c[0].filename() == name {
        0
    } else {
        1 + find_name(c.skip(1), name)
    }
}

/// The entry named `name` in a run.
pub open spec fn lookup_in(c: Seq<DirFileEntryRaw>, name: Seq<u8>) -> Option<DirFileEntryRaw> {
    let i = find_name(c, name);
    if i < c.len() {
        Some(c[i as int])
    } else {
        None
    }
}

/// The entry at position `j` of a run may move into the hole at an earlier
/// position: its home slot does not lie behind the hole.
pub open spec fn may_fill(h: u64, c: Seq<DirFileEntryRaw>, hole: int, j: int) -> bool {
    !c[j].dummy() && gap(home(c[j]), slot(h, j)) >= j - hole
}

/// What closes the hole at position `hole`, looking from position `j` on: the
/// slots to write, in order, and the slot that is empty in the end.
pub open spec fn shift_back(h: u64, c: Seq<DirFileEntryRaw>, hole: int, j: int) -> (
    Seq<(u64, DirFileEntryRaw)>,
    u64,
)
    decreases c.len() - j,
{
    if j >= c.len() {
        (seq![], slot(h, hole))
    } else if may_fill(h, c, hole, j) {
        let (rest, clear) = shift_back(h, c, j, j + 1);
        (seq![(slot(h, hole), c[j])] + rest, clear)
    } else {
        shift_back(h, c, hole, j + 1)
    }
}

/// The slots after writing `moves` in order.
pub open spec fn written(m: Map<u64, DirFileEntryRaw>, moves: Seq<(u64, DirFileEntryRaw)>) -> Map<
    u64,
    DirFileEntryRaw,
>
    decreases moves.len(),
{
    if moves.len() == 0 {
        m
    } else {
        written(m.insert(moves[0].0, moves[0].1), moves.skip(1))
    }
}

/// The slots after the removal of the entry at position `i` of a run.
pub open spec fn removed_at(m: Map<u64, DirFileEntryRaw>, h: u64, c: Seq<DirFileEntryRaw>, i: int) -> Map<
    u64,
    DirFileEntryRaw,
> {
    let (moves, clear) = shift_back(h, c, i, i + 1);
    written(m, moves).remove(clear)
}

// ---------------------------------------------------------------------------
// Operations on a run
// ---------------------------------------------------------------------------

/// The run of occupied slots from a home slot on, as far as it has been read.
#[derive(Clone, Debug)]
pub struct ProbeChain {
    pub home: u64,
    /// What the slots from `home` on hold.
    pub entries: Vec<DirFileEntryRaw>,
    /// The slot behind them is known to be empty.
    pub ended: bool,
}

/// What is known of a run is what the slots hold.
pub open spec fn reads(m: Map<u64, DirFileEntryRaw>, h: u64, c: Seq<DirFileEntryRaw>, ended: bool) -> bool {
    &&& c.len() < slot_count()
    &&& forall|i: int| 0 <= i < c.len() ==> m.contains_key(#[trigger] slot(h, i)) && m[slot(h, i)] == c[i]
    &&& ended ==> !m.contains_key(slot(h, c.len() as int))
}

/// What a slot holds.
pub open spec fn content(m: Map<u64, DirFileEntryRaw>, s: u64) -> Option<DirFileEntryRaw> {
    if m.contains_key(s) {
        Some(m[s])
    } else {
        None
    }
}

/// An entry to be written to a slot.
#[derive(Clone, Copy, Debug)]
pub struct SlotWrite {
    pub slot: u64,
    pub entry: DirFileEntryRaw,
}

/// How an entry is removed: `moves` are written in order, then `clear` is
/// emptied.
#[derive(Debug)]
pub struct DeletePlan {
    pub moves: Vec<SlotWrite>,
    pub clear: u64,
}

/// The pairs of slot and entry that some writes stand for.
pub open spec fn write_pairs(v: Seq<SlotWrite>) -> Seq<(u64, DirFileEntryRaw)> {
    v.map_values(|w: SlotWrite| (w.slot, w.entry))
}

/// Whether an entry at the slot `at` may move back by `steps` slots, given its
/// home slot: it may not move past it.
pub fn shifts_back(own: u64, at: u64, steps: u64) -> (r: bool)
    ensures
        r == (gap(own, at) >= steps),
{
    at.wrapping_sub(own) >= steps
}

impl ProbeChain {
    /// The empty run at the home slot of `name`.
    pub fn at_home(name: &str) -> (r: ProbeChain)
        ensures
            r.home == crc64_of(index_name(name@)),
            r.entries@ == Seq::<DirFileEntryRaw>::empty(),
            !r.ended,
    {
        ProbeChain { home: hash_filename(name), entries: Vec::new(), ended: false }
    }

    /// The slot behind those that have been read.
    fn next_slot(&self) -> (r: u64)
        ensures
            r == slot(self.home, self.entries.len() as int),
    {
        self.home.wrapping_add(self.entries.len() as u64)
    }

    /// Takes in what the next slot holds; an empty slot ends the run.
    pub fn feed(&mut self, found: Option<DirFileEntryRaw>)
        ensures
            final(self).home == old(self).home,
            final(self).entries@ == match found {
                Some(e) => old(self).entries@.push(e),
                None => old(self).entries@,
            },
            final(self).ended == (old(self).ended || found is None),
    {
        match found {
            Some(entry) => {
                self.entries.push(entry);
            },
            None => {
                self.ended = true;
            },
        }
    }

    /// The slot that has to be read next for a change of the index: a change
    /// needs the whole run.
    pub fn wanted(&self) -> (r: Option<u64>)
        ensures
            r == if self.ended {
                None
            } else {
                Some(slot(self.home, self.entries.len() as int))
            },
    {
        if self.ended {
            None
        } else {
            Some(self.next_slot())
        }
    }

    /// The slot that has to be read next for a lookup: a lookup needs no more
    /// once it has met the name.
    pub fn wanted_for_lookup(&self, name: &str) -> (r: Option<u64>)
        ensures
            r == if self.ended || lookup_in(self.entries@, index_name(name@)) is Some {
                None
            } else {
                Some(slot(self.home, self.entries.len() as int))
            },
    {
        if self.found(name) {
            None
        } else {
            self.wanted()
        }
    }

    /// Position of the entry named `name`.
    fn position(&self, name: &[u8]) -> (r: usize)
        ensures
            r == find_name(self.entries@, name@),
            r <= self.entries.len(),
    {
        let mut i: usize = 0;
        let ghost c = self.entries@;
        assert(c.skip(0) =~= c);
        while i < self.entries.len()
            invariant
                i <= c.len(),
                c == self.entries@,
                find_name(c, name@) == i + find_name(c.skip(i as int), name@),
            decreases c.len() - i,
        {
            if self.entries[i].name_eq(name) {
                return i;
            }
            assert(c.skip(i as int).skip(1) =~= c.skip(i + 1));
            i += 1;
        }
        i
    }

    /// True once the entry named `name` has been read, so that a lookup need
    /// not read on.
    pub fn found(&self, name: &str) -> (r: bool)
        ensures
            r == (lookup_in(self.entries@, index_name(name@)) is Some),
    {
        self.position(name_in_index(name).as_slice()) < self.entries.len()
    }

    /// The entry named `name`, from the whole run or from a part of it that
    /// holds the entry.
    pub fn probe_lookup(&self, name: &str) -> (r: Option<DirFileEntryRaw>)
        ensures
            r == lookup_in(self.entries@, index_name(name@)),
    {
        let i: usize = self.position(name_in_index(name).as_slice());
        if i < self.entries.len() {
            Some(self.entries[i])
        } else {
            None
        }
    }

    /// The slot that an entry named `name` is to be written to: the slot of
    /// the entry that has the name, or the first empty slot.
    pub fn probe_upsert(&self, name: &str) -> (r: u64)
        ensures
            r == slot(self.home, find_name(self.entries@, index_name(name@)) as int),
    {
        let i: usize = self.position(name_in_index(name).as_slice());
        self.home.wrapping_add(i as u64)
    }

    /// The slot that a new entry named `name` is to be written to; refused
    /// where the name is taken.
    pub fn probe_insert_excl(&self, name: &str) -> (r: Result<u64, Error>)
        ensures
            r == match lookup_in(self.entries@, index_name(name@)) {
                Some(_) => Err(Error::NameTaken),
                None => Ok(slot(self.home, self.entries.len() as int)),
            },
    {
        let i: usize = self.position(name_in_index(name).as_slice());
        if i < self.entries.len() {
            Err(Error::NameTaken)
        } else {
            Ok(self.next_slot())
        }
    }

    /// How to remove the entry named `name`; `None` where there is none.
    pub fn probe_delete(&self, name: &str) -> (r: Option<DeletePlan>)
        ensures
            ({
                let i = find_name(self.entries@, index_name(name@));
                let (moves, clear) = shift_back(self.home, self.entries@, i as int, i as int + 1);
                &&& r is Some <==> i < self.entries.len()
                &&& r matches Some(p) ==> write_pairs(p.moves@) == moves && p.clear == clear
            }),
    {
        let i: usize = self.position(name_in_index(name).as_slice());
        if i >= self.entries.len() {
            return None;
        }
        let ghost c = self.entries@;
        let ghost whole = shift_back(self.home, c, i as int, i + 1);
        let mut hole: usize = i;
        let mut moves: Vec<SlotWrite> = Vec::new();
        let mut j: usize = i + 1;
        assert(write_pairs(moves@) =~= seq![]);
        assert(write_pairs(moves@) + whole.0 =~= whole.0);
        while j < self.entries.len()
            invariant
                c == self.entries@,
                hole < j <= c.len(),
                whole.1 == shift_back(self.home, c, hole as int, j as int).1,
                whole.0 == write_pairs(moves@) + shift_back(self.home, c, hole as int, j as int).0,
            decreases c.len() - j,
        {
            let e: DirFileEntryRaw = self.entries[j];
            let at: u64 = self.home.wrapping_add(j as u64);
            let own: u64 = crc64(e.name_bytes().as_slice());
            let ghost before = write_pairs(moves@);
            let ghost now = shift_back(self.home, c, hole as int, j as int);
            if !e.is_dummy() && shifts_back(own, at, (j - hole) as u64) {
                let w: SlotWrite = SlotWrite { slot: self.home.wrapping_add(hole as u64), entry: e };
                moves.push(w);
                assert(write_pairs(moves@) =~= before.push((w.slot, w.entry)));
                assert(may_fill(self.home, c, hole as int, j as int));
                hole = j;
                assert(before + now.0 =~= write_pairs(moves@) + shift_back(
                    self.home,
                    c,
                    hole as int,
                    j + 1,
                ).0);
            } else {
                assert(!may_fill(self.home, c, hole as int, j as int));
            }
            j += 1;
        }
        assert(whole.0 =~= write_pairs(moves@));
        Some(DeletePlan { moves, clear: self.home.wrapping_add(hole as u64) })
    }
}

// ---------------------------------------------------------------------------
// Laws of the index
// ---------------------------------------------------------------------------

proof fn lemma_find_name(c: Seq<DirFileEntryRaw>, name: Seq<u8>)
    ensures
        find_name(c, name) <= c.len(),
        forall|i: int| 0 <= i < find_name(c, name) ==> (#[trigger] c[i]).filename() != name,
        find_name(c, name) < c.len() ==> c[find_name(c, name) as int].filename() == name,
    decreases c.len(),
{
    if c.len() > 0 && c[0].filename() != name {
        lemma_find_name(c.skip(1), name);
        assert forall|i: int| 0 <= i < find_name(c, name) implies (#[trigger] c[i]).filename() != name by {
            if i > 0 {
                assert(c[i] == c.skip(1)[i - 1]);
            }
        }
    }
}

proof fn lemma_slot_gap(h: u64, k: u64)
    ensures
        slot(h, gap(h, k)) == k,
        0 <= gap(h, k) < slot_count(),
{
}

proof fn lemma_gap_slot(h: u64, d: int)
    requires
        0 <= d < slot_count(),
    ensures
        gap(h, slot(h, d)) == d,
{
}

/// Steps add up along a chain.
proof fn lemma_slot_slot(h: u64, a: int, b: int)
    requires
        0 <= a,
        0 <= b,
        a + b < slot_count(),
    ensures
        slot(slot(h, a), b) == slot(h, a + b),
{
}

/// An entry named `name` lies in the run from the name's home slot.
proof fn lemma_name_in_run(m: Map<u64, DirFileEntryRaw>, c: Seq<DirFileEntryRaw>, k: u64)
    requires
        chains_unbroken(m),
        m.contains_key(k),
        !m[k].dummy(),
        is_run(m, home(m[k]), c),
    ensures
        gap(home(m[k]), k) < c.len(),
        c[gap(home(m[k]), k)] == m[k],
{
    let h = home(m[k]);
    lemma_slot_gap(h, k);
    if gap(h, k) >= c.len() {
        if gap(h, k) > c.len() {
            assert(m.contains_key(slot(home(m[k]), c.len() as int)));
        }
        assert(false);
    }
}

/// Reading slot by slot gives the run: a run that has been fed with what the
/// slots hold is what they hold, one slot further each time, and a run that
/// has ended is the whole run.
pub proof fn law_reading_gives_the_run(
    m: Map<u64, DirFileEntryRaw>,
    h: u64,
    c: Seq<DirFileEntryRaw>,
    found: Option<DirFileEntryRaw>,
)
    requires
        reads(m, h, c, false),
        c.len() + 1 < slot_count(),
        found == content(m, slot(h, c.len() as int)),
    ensures
        reads(m, h, Seq::<DirFileEntryRaw>::empty(), false),
        match found {
            Some(e) => reads(m, h, c.push(e), false),
            None => reads(m, h, c, true) && is_run(m, h, c),
        },
{
    match found {
        Some(e) => {
            let n = c.push(e);
            assert forall|i: int| 0 <= i < n.len() implies m.contains_key(#[trigger] slot(h, i)) && m[slot(h, i)]
                == n[i] by {
                if i < c.len() {
                    assert(n[i] == c[i]);
                }
            }
        },
        None => {},
    }
}

/// A lookup that stops at the name gives what a lookup in the whole run gives.
pub proof fn law_lookup_may_stop_early(c: Seq<DirFileEntryRaw>, n: int, name: Seq<u8>)
    requires
        0 <= n <= c.len(),
        lookup_in(c.take(n), name) is Some,
    ensures
        lookup_in(c, name) == lookup_in(c.take(n), name),
{
    let t = c.take(n);
    lemma_find_name(t, name);
    lemma_find_name(c, name);
    let i = find_name(t, name) as int;
    let k = find_name(c, name) as int;
    if k < i {
        assert(t[k] == c[k]);
    }
    if i < k {
        assert(c[i] == t[i]);
    }
}

/// Where the index has no slots, it has no entries and is well-formed.
pub proof fn law_empty_index()
    ensures
        index_ok(Map::<u64, DirFileEntryRaw>::empty()),
        forall|e: DirFileEntryRaw| !lists(Map::<u64, DirFileEntryRaw>::empty(), e),
{
}

/// A lookup finds the entry that has the name, and finds nothing only where
/// no entry has it.
pub proof fn law_lookup_finds_the_entry(m: Map<u64, DirFileEntryRaw>, c: Seq<DirFileEntryRaw>, name: Seq<u8>)
    requires
        index_ok(m),
        entry_name(name),
        is_run(m, crc64_of(name), c),
    ensures
        match lookup_in(c, name) {
            Some(e) => e.filename() == name && lists(m, e),
            None => forall|e: DirFileEntryRaw| #[trigger] lists(m, e) ==> e.filename() != name,
        },
{
    let h = crc64_of(name);
    lemma_find_name(c, name);
    let i = find_name(c, name);
    if i < c.len() {
        let e = c[i as int];
        assert(m.contains_key(slot(h, i as int)) && m[slot(h, i as int)] == e);
        if e.dummy() {
            lemma_dummy_name(e);
        }
    } else {
        assert forall|e: DirFileEntryRaw| #[trigger] lists(m, e) implies e.filename() != name by {
            let k = choose|k: u64| m.contains_key(k) && #[trigger] m[k] == e;
            if e.filename() == name {
                lemma_name_in_run(m, c, k);
                assert(c[gap(h, k)].filename() != name);
            }
        }
    }
}

/// Writing an entry to the slot found for its name keeps the index
/// well-formed; the index then holds that entry under the name, and all
/// others as before.
pub proof fn law_upsert_replaces_one_name(
    m: Map<u64, DirFileEntryRaw>,
    c: Seq<DirFileEntryRaw>,
    e: DirFileEntryRaw,
)
    requires
        index_ok(m),
        !e.dummy(),
        is_run(m, home(e), c),
    ensures
        ({
            let after = m.insert(slot(home(e), find_name(c, e.filename()) as int), e);
            &&& index_ok(after)
            &&& forall|x: DirFileEntryRaw| #[trigger]
                lists(after, x) <==> x == e || (lists(m, x) && x.filename() != e.filename())
        }),
{
    let h = home(e);
    let name = e.filename();
    lemma_find_name(c, name);
    let i = find_name(c, name) as int;
    let s = slot(h, i);
    let after = m.insert(s, e);
    lemma_gap_slot(h, i);
    assert forall|k: u64, d: int|
        #![trigger after.contains_key(k), slot(home(after[k]), d)]
        after.contains_key(k) && !after[k].dummy() && 0 <= d < gap(home(after[k]), k) implies after.contains_key(
        slot(home(after[k]), d),
    ) by {
        if k == s {
            assert(m.contains_key(slot(h, d)));
        } else {
            assert(m.contains_key(k));
            assert(m.contains_key(slot(home(m[k]), d)));
        }
    }
    // Whoever has the name already stands in the slot that is written.
    assert forall|k: u64| m.contains_key(k) && !m[k].dummy() && (#[trigger] m[k]).filename() == name implies k
        == s by {
        lemma_name_in_run(m, c, k);
        let g = gap(h, k);
        assert(c[g].filename() == name);
        assert(i <= g);
        assert(m.contains_key(slot(h, i)) && m[slot(h, i)] == c[i]);
        if c[i].dummy() {
            lemma_dummy_name(c[i]);
            lemma_not_dummy_by_name(m[k], c[i]);
        }
        assert(m[s].filename() == m[k].filename());
    }
    assert forall|x: DirFileEntryRaw| #[trigger] lists(after, x) implies x == e || (lists(m, x) && x.filename()
        != e.filename()) by {
        let k = choose|k: u64| after.contains_key(k) && #[trigger] after[k] == x;
        if k != s {
            assert(m[k] == x);
        }
    }
    assert forall|x: DirFileEntryRaw| x == e || (lists(m, x) && x.filename() != e.filename()) implies #[trigger] lists(
        after,
        x,
    ) by {
        if x == e {
            assert(after[s] == e);
        } else {
            let k = choose|k: u64| m.contains_key(k) && #[trigger] m[k] == x;
            if k == s {
                assert(m.contains_key(s));
                assert(i < c.len());
                assert(m[slot(h, i)] == c[i]);
            }
            assert(after[k] == x);
        }
    }
}

/// An entry that has a placeholder's name is a placeholder.
proof fn lemma_not_dummy_by_name(a: DirFileEntryRaw, b: DirFileEntryRaw)
    requires
        a.filename() == b.filename(),
        b.dummy(),
    ensures
        a.dummy(),
{
    lemma_dummy_name(b);
    crate::ondisk::lemma_nul_at(a.name@);
    let n = crate::ondisk::nul_at(a.name@);
    assert(a.filename().len() == 255);
    assert(n == 255);
    assert forall|i: int| 0 <= i < 256 implies a.name@[i] == padded(dummy_name())[i] by {
        if i < 255 {
            assert(a.filename()[i] == a.name@[i]);
            assert(dummy_name()[i] == 0xff);
        }
    }
    assert(a.name@ =~= padded(dummy_name()));
}

/// The state of a removal: `m` is the slots without the hole, and the entries
/// before position `j` no longer need the hole.
spec fn shifting(
    m: Map<u64, DirFileEntryRaw>,
    h: u64,
    c: Seq<DirFileEntryRaw>,
    hole: int,
    j: int,
) -> bool {
    &&& 0 <= hole < j <= c.len() < slot_count()
    &&& !m.contains_key(slot(h, hole))
    &&& !m.contains_key(slot(h, c.len() as int))
    &&& names_unique(m)
    &&& forall|p: int| j <= p < c.len() ==> m.contains_key(#[trigger] slot(h, p)) && m[slot(h, p)] == c[p]
    &&& forall|k: u64, d: int|
        #![trigger m.contains_key(k), slot(home(m[k]), d)]
        m.contains_key(k) && !m[k].dummy() && 0 <= d < gap(home(m[k]), k) ==> m.contains_key(
            slot(home(m[k]), d),
        ) || slot(home(m[k]), d) == slot(h, hole)
    &&& forall|k: u64| #[trigger]
        m.contains_key(k) && !m[k].dummy() && gap(home(m[k]), slot(h, hole)) < gap(home(m[k]), k) ==> j <= gap(
            h,
            k,
        ) < c.len()
}

/// An entry whose chain runs over position `q` of the run stands behind it in
/// the run.
proof fn lemma_behind(
    m: Map<u64, DirFileEntryRaw>,
    h: u64,
    c: Seq<DirFileEntryRaw>,
    hole: int,
    q: int,
    k: u64,
)
    requires
        c.len() < slot_count(),
        0 <= hole < c.len(),
        0 <= q < c.len(),
        !m.contains_key(slot(h, c.len() as int)),
        m.contains_key(k),
        gap(home(m[k]), slot(h, q)) < gap(home(m[k]), k),
        forall|d: int|
            0 <= d < gap(home(m[k]), k) ==> m.contains_key(#[trigger] slot(home(m[k]), d)) || slot(home(m[k]), d)
                == slot(h, hole),
    ensures
        q < gap(h, k) < c.len(),
{
    let o = home(m[k]);
    let x = slot(h, q);
    let a = gap(o, x);
    let b = gap(o, k);
    lemma_slot_gap(o, x);
    lemma_slot_gap(o, k);
    // k is b - a steps after x
    lemma_slot_slot(o, a, b - a);
    assert(slot(x, b - a) == k);
    lemma_gap_slot(x, b - a);
    let rest = c.len() - q;
    if b - a >= rest {
        lemma_slot_slot(h, q, rest);
        lemma_slot_slot(o, a, rest);
        assert(slot(o, a + rest) == slot(h, c.len() as int));
        if b - a == rest {
            assert(k == slot(h, c.len() as int));
        } else {
            assert(m.contains_key(slot(o, a + rest)) || slot(o, a + rest) == slot(h, hole));
            lemma_gap_slot(h, c.len() as int);
            lemma_gap_slot(h, hole);
        }
        assert(false);
    }
    lemma_slot_slot(h, q, b - a);
    lemma_gap_slot(h, q + (b - a));
}

proof fn lemma_shift_step_move(m: Map<u64, DirFileEntryRaw>, h: u64, c: Seq<DirFileEntryRaw>, hole: int, j: int)
    requires
        shifting(m, h, c, hole, j),
        j < c.len(),
        may_fill(h, c, hole, j),
    ensures
        shifting(m.insert(slot(h, hole), c[j]).remove(slot(h, j)), h, c, j, j + 1),
        forall|x: DirFileEntryRaw| #[trigger]
            lists(m.insert(slot(h, hole), c[j]).remove(slot(h, j)), x) <==> lists(m, x),
{
    let hs = slot(h, hole);
    let js = slot(h, j);
    let e = c[j];
    let o = home(e);
    let n = m.insert(hs, e).remove(js);
    lemma_gap_slot(h, hole);
    lemma_gap_slot(h, j);
    lemma_gap_slot(h, c.len() as int);
    assert(m.contains_key(js) && m[js] == e);
    // The hole lies on the chain of the entry that moves.
    let b = gap(o, js);
    lemma_slot_gap(o, js);
    lemma_slot_slot(h, hole, j - hole);
    lemma_slot_slot(o, b - (j - hole), j - hole);
    assert(slot(slot(o, b - (j - hole)), j - hole) == slot(hs, j - hole));
    assert(slot(o, b - (j - hole)) == hs);
    lemma_gap_slot(o, b - (j - hole));
    assert(gap(o, hs) == b - (j - hole));
    assert forall|p: int| j + 1 <= p < c.len() implies n.contains_key(#[trigger] slot(h, p)) && n[slot(h, p)]
        == c[p] by {
        lemma_gap_slot(h, p);
        assert(m.contains_key(slot(h, p)));
    }
    assert forall|k: u64, d: int|
        #![trigger n.contains_key(k), slot(home(n[k]), d)]
        n.contains_key(k) && !n[k].dummy() && 0 <= d < gap(home(n[k]), k) implies n.contains_key(
        slot(home(n[k]), d),
    ) || slot(home(n[k]), d) == js by {
        if k == hs {
            assert(m.contains_key(js));
            assert(m.contains_key(slot(home(m[js]), d)) || slot(home(m[js]), d) == hs);
            lemma_gap_slot(o, d);
        } else {
            assert(m.contains_key(k));
            assert(m.contains_key(slot(home(m[k]), d)) || slot(home(m[k]), d) == hs);
        }
    }
    assert forall|k: u64| #[trigger]
        n.contains_key(k) && !n[k].dummy() && gap(home(n[k]), js) < gap(home(n[k]), k) implies j + 1 <= gap(h, k)
        < c.len() by {
        if k != hs {
            assert(m.contains_key(k));
            assert(m[k] == n[k]);
            lemma_behind(m, h, c, hole, j, k);
        }
    }
    assert forall|x: DirFileEntryRaw| #[trigger] lists(n, x) implies lists(m, x) by {
        let k = choose|k: u64| n.contains_key(k) && #[trigger] n[k] == x;
        if k == hs {
            assert(m[js] == x);
        } else {
            assert(m[k] == x);
        }
    }
    assert forall|x: DirFileEntryRaw| #[trigger] lists(m, x) implies lists(n, x) by {
        let k = choose|k: u64| m.contains_key(k) && #[trigger] m[k] == x;
        if k == js {
            assert(n[hs] == x);
        } else {
            assert(n[k] == x);
        }
    }
    assert forall|a: u64, z: u64|
        #![trigger n[a], n[z]]
        n.contains_key(a) && n.contains_key(z) && !n[a].dummy() && !n[z].dummy() && n[a].filename()
            == n[z].filename() implies a == z by {
        let a0 = if a == hs { js } else { a };
        let z0 = if z == hs { js } else { z };
        assert(m[a0] == n[a] && m[z0] == n[z]);
    }
}

proof fn lemma_shift_step_stay(m: Map<u64, DirFileEntryRaw>, h: u64, c: Seq<DirFileEntryRaw>, hole: int, j: int)
    requires
        shifting(m, h, c, hole, j),
        j < c.len(),
        !may_fill(h, c, hole, j),
    ensures
        shifting(m, h, c, hole, j + 1),
{
    let hs = slot(h, hole);
    let js = slot(h, j);
    assert(m.contains_key(js) && m[js] == c[j]);
    assert forall|k: u64| #[trigger]
        m.contains_key(k) && !m[k].dummy() && gap(home(m[k]), hs) < gap(home(m[k]), k) implies j + 1 <= gap(h, k)
        < c.len() by {
        if gap(h, k) == j {
            lemma_slot_gap(h, k);
            assert(k == js);
        }
    }
}

/// From any state of a removal on, the remaining shifts end in a well-formed
/// index with the same entries.
proof fn lemma_shift_back(
    m: Map<u64, DirFileEntryRaw>,
    cur: Map<u64, DirFileEntryRaw>,
    h: u64,
    c: Seq<DirFileEntryRaw>,
    hole: int,
    j: int,
)
    requires
        m == cur.remove(slot(h, hole)),
        shifting(m, h, c, hole, j),
    ensures
        ({
            let (moves, clear) = shift_back(h, c, hole, j);
            let after = written(cur, moves).remove(clear);
            &&& index_ok(after)
            &&& forall|x: DirFileEntryRaw| #[trigger] lists(after, x) <==> lists(m, x)
        }),
    decreases c.len() - j,
{
    let (moves, clear) = shift_back(h, c, hole, j);
    let after = written(cur, moves).remove(clear);
    let hs = slot(h, hole);
    if j >= c.len() {
        assert(after == m);
        assert forall|k: u64, d: int|
            #![trigger m.contains_key(k), slot(home(m[k]), d)]
            m.contains_key(k) && !m[k].dummy() && 0 <= d < gap(home(m[k]), k) implies m.contains_key(
            slot(home(m[k]), d),
        ) by {
            lemma_gap_slot(home(m[k]), d);
            lemma_slot_gap(home(m[k]), k);
        }
    } else if may_fill(h, c, hole, j) {
        let next = cur.insert(hs, c[j]);
        let n = m.insert(hs, c[j]).remove(slot(h, j));
        lemma_gap_slot(h, hole);
        lemma_gap_slot(h, j);
        assert(n =~= next.remove(slot(h, j)));
        lemma_shift_step_move(m, h, c, hole, j);
        lemma_shift_back(n, next, h, c, j, j + 1);
        let (rest, rest_clear) = shift_back(h, c, j, j + 1);
        assert(moves.skip(1) =~= rest);
    } else {
        lemma_shift_step_stay(m, h, c, hole, j);
        lemma_shift_back(m, cur, h, c, hole, j + 1);
    }
}

/// Removing the entry found under a name keeps the index well-formed; the
/// index then holds every entry as before but that one. In particular no gap
/// is left that would hide another entry, and a second removal of the name
/// finds nothing.
pub proof fn law_delete_removes_one_name(m: Map<u64, DirFileEntryRaw>, c: Seq<DirFileEntryRaw>, name: Seq<u8>)
    requires
        index_ok(m),
        entry_name(name),
        is_run(m, crc64_of(name), c),
        find_name(c, name) < c.len(),
    ensures
        ({
            let after = removed_at(m, crc64_of(name), c, find_name(c, name) as int);
            &&& index_ok(after)
            &&& forall|x: DirFileEntryRaw| #[trigger] lists(after, x) <==> lists(m, x) && x.filename() != name
        }),
{
    let h = crc64_of(name);
    let i = find_name(c, name) as int;
    lemma_find_name(c, name);
    let hs = slot(h, i);
    let n = m.remove(hs);
    assert(m.contains_key(hs) && m[hs] == c[i]);
    lemma_gap_slot(h, i);
    lemma_gap_slot(h, c.len() as int);
    if c[i].dummy() {
        lemma_dummy_name(c[i]);
    }
    assert forall|p: int| i + 1 <= p < c.len() implies n.contains_key(#[trigger] slot(h, p)) && n[slot(h, p)]
        == c[p] by {
        lemma_gap_slot(h, p);
        assert(m.contains_key(slot(h, p)));
    }
    assert forall|k: u64, d: int|
        #![trigger n.contains_key(k), slot(home(n[k]), d)]
        n.contains_key(k) && !n[k].dummy() && 0 <= d < gap(home(n[k]), k) implies n.contains_key(
        slot(home(n[k]), d),
    ) || slot(home(n[k]), d) == hs by {
        assert(m.contains_key(k));
        assert(m.contains_key(slot(home(m[k]), d)));
    }
    assert forall|k: u64| #[trigger]
        n.contains_key(k) && !n[k].dummy() && gap(home(n[k]), hs) < gap(home(n[k]), k) implies i + 1 <= gap(h, k)
        < c.len() by {
        assert(m.contains_key(k));
        assert forall|d: int| 0 <= d < gap(home(m[k]), k) implies m.contains_key(#[trigger] slot(home(m[k]), d))
            || slot(home(m[k]), d) == hs by {}
        lemma_behind(m, h, c, i, i, k);
    }
    assert(names_unique(n)) by {
        assert forall|a: u64, z: u64|
            #![trigger n[a], n[z]]
            n.contains_key(a) && n.contains_key(z) && !n[a].dummy() && !n[z].dummy() && n[a].filename()
                == n[z].filename() implies a == z by {
            assert(m[a] == n[a] && m[z] == n[z]);
        }
    }
    assert(shifting(n, h, c, i, i + 1));
    lemma_shift_back(n, m, h, c, i, i + 1);
    assert forall|x: DirFileEntryRaw| #[trigger] lists(n, x) <==> lists(m, x) && x.filename() != name by {
        if lists(n, x) {
            let k = choose|k: u64| n.contains_key(k) && #[trigger] n[k] == x;
            assert(m[k] == x);
            if x.filename() == name {
                assert(m[hs].filename() == m[k].filename());
            }
        }
        if lists(m, x) && x.filename() != name {
            let k = choose|k: u64| m.contains_key(k) && #[trigger] m[k] == x;
            assert(n[k] == x);
        }
    }
}

/// A rename inside one directory, which removes the old name and then writes
/// the entry `e` under the new one, moves that one entry: afterwards the new
/// name holds `e`, the old name is gone, and all other entries are as before.
pub proof fn law_rename_moves_one_entry(
    m: Map<u64, DirFileEntryRaw>,
    old_run: Seq<DirFileEntryRaw>,
    old_name: Seq<u8>,
    new_run: Seq<DirFileEntryRaw>,
    e: DirFileEntryRaw,
)
    requires
        index_ok(m),
        entry_name(old_name),
        is_run(m, crc64_of(old_name), old_run),
        find_name(old_run, old_name) < old_run.len(),
        !e.dummy(),
        e.filename() != old_name,
        is_run(removed_at(m, crc64_of(old_name), old_run, find_name(old_run, old_name) as int), home(e), new_run),
    ensures
        ({
            let between = removed_at(m, crc64_of(old_name), old_run, find_name(old_run, old_name) as int);
            let after = between.insert(slot(home(e), find_name(new_run, e.filename()) as int), e);
            &&& index_ok(after)
            &&& forall|x: DirFileEntryRaw| #[trigger]
                lists(after, x) <==> x == e || (lists(m, x) && x.filename() != old_name && x.filename()
                    != e.filename())
        }),
{
    law_delete_removes_one_name(m, old_run, old_name);
    let between = removed_at(m, crc64_of(old_name), old_run, find_name(old_run, old_name) as int);
    law_upsert_replaces_one_name(between, new_run, e);
}

/// Two names with one home slot live side by side: both entries are found
/// after they were written, and each survives the removal of the other.
pub proof fn law_colliding_names_coexist(
    m: Map<u64, DirFileEntryRaw>,
    a: DirFileEntryRaw,
    a_run: Seq<DirFileEntryRaw>,
    b: DirFileEntryRaw,
    b_run: Seq<DirFileEntryRaw>,
    both_run: Seq<DirFileEntryRaw>,
)
    requires
        index_ok(m),
        entry_name(a.filename()),
        entry_name(b.filename()),
        !a.dummy(),
        !b.dummy(),
        a.filename() != b.filename(),
        home(a) == home(b),
        is_run(m, home(a), a_run),
        is_run(m.insert(slot(home(a), find_name(a_run, a.filename()) as int), a), home(b), b_run),
        is_run(
            m.insert(slot(home(a), find_name(a_run, a.filename()) as int), a).insert(
                slot(home(b), find_name(b_run, b.filename()) as int),
                b,
            ),
            home(a),
            both_run,
        ),
    ensures
        lookup_in(both_run, a.filename()) == Some(a),
        lookup_in(both_run, b.filename()) == Some(b),
        ({
            let both = m.insert(slot(home(a), find_name(a_run, a.filename()) as int), a).insert(
                slot(home(b), find_name(b_run, b.filename()) as int),
                b,
            );
            let left = removed_at(both, home(a), both_run, find_name(both_run, a.filename()) as int);
            index_ok(left) && lists(left, b) && !lists(left, a)
        }),
{
    let one = m.insert(slot(home(a), find_name(a_run, a.filename()) as int), a);
    let both = one.insert(slot(home(b), find_name(b_run, b.filename()) as int), b);
    law_upsert_replaces_one_name(m, a_run, a);
    law_upsert_replaces_one_name(one, b_run, b);
    assert(lists(both, a) && lists(both, b));
    law_lookup_finds_the_entry(both, both_run, a.filename());
    law_lookup_finds_the_entry(both, both_run, b.filename());
    lemma_listed_once(both, a, lookup_in(both_run, a.filename()).unwrap());
    lemma_listed_once(both, b, lookup_in(both_run, b.filename()).unwrap());
    lemma_find_name(both_run, a.filename());
    law_delete_removes_one_name(both, both_run, a.filename());
}

/// An index holds one entry of a name.
pub proof fn lemma_listed_once(m: Map<u64, DirFileEntryRaw>, x: DirFileEntryRaw, y: DirFileEntryRaw)
    requires
        index_ok(m),
        lists(m, x),
        lists(m, y),
        x.filename() == y.filename(),
    ensures
        x == y,
{
    let j = choose|j: u64| m.contains_key(j) && #[trigger] m[j] == x;
    let k = choose|k: u64| m.contains_key(k) && #[trigger] m[k] == y;
    assert(m[j].filename() == m[k].filename());
}

/// An entry that was written under a file's name is found under it and removed
/// under it, whatever the name is, over-long ones included: the slot found for
/// it keeps the index well-formed, a lookup then gives the entry, and after its
/// removal a lookup gives nothing.
pub proof fn law_written_names_are_found_and_removed(
    m: Map<u64, DirFileEntryRaw>,
    filename: Seq<char>,
    e: DirFileEntryRaw,
    run: Seq<DirFileEntryRaw>,
    run_after: Seq<DirFileEntryRaw>,
)
    requires
        index_ok(m),
        e.name@ == padded(trimmed(encode_utf8(filename))),
        is_run(m, crc64_of(index_name(filename)), run),
        is_run(
            m.insert(slot(crc64_of(index_name(filename)), find_name(run, index_name(filename)) as int), e),
            crc64_of(index_name(filename)),
            run_after,
        ),
    ensures
        ({
            let h = crc64_of(index_name(filename));
            let after = m.insert(slot(h, find_name(run, index_name(filename)) as int), e);
            let left = removed_at(after, h, run_after, find_name(run_after, index_name(filename)) as int);
            &&& index_ok(after)
            &&& lookup_in(run_after, index_name(filename)) == Some(e)
            &&& index_ok(left)
            &&& forall|x: DirFileEntryRaw| #[trigger]
                lists(left, x) <==> lists(m, x) && x.filename() != index_name(filename)
        }),
{
    let n = index_name(filename);
    law_every_file_can_be_indexed(filename);
    assert(e.filename() == n);
    if e.dummy() {
        lemma_dummy_name(e);
    }
    let after = m.insert(slot(crc64_of(n), find_name(run, n) as int), e);
    law_upsert_replaces_one_name(m, run, e);
    law_lookup_finds_the_entry(after, run_after, n);
    assert(lists(after, e));
    lemma_listed_once(after, e, lookup_in(run_after, n).unwrap());
    lemma_find_name(run_after, n);
    law_delete_removes_one_name(after, run_after, n);
}

// ---------------------------------------------------------------------------
// Laws of slots and runs
// ---------------------------------------------------------------------------

/// Slots are counted round: steps forward are added, and the last slot is
/// followed by the first.
pub proof fn law_slots_go_round(h: u64, d: int, k: u64)
    requires
        0 <= d < 0x1_0000_0000_0000_0000,
    ensures
        slot(h, d) == (h + d) % 0x1_0000_0000_0000_0000,
        gap(h, k) == (k - h) % 0x1_0000_0000_0000_0000,
        slot(h, gap(h, k)) == k,
        gap(h, slot(h, d)) == d,
        slot_count() == 0x1_0000_0000_0000_0000,
{
}

/// The home slot of an entry is the CRC-64 of its name.
pub proof fn law_home_slot(e: DirFileEntryRaw)
    ensures
        home(e) == crc64_of(e.filename()),
{
}

/// An index holds what its slots do, in whatever slot it stands, but for
/// placeholders; and nothing else.
pub proof fn law_an_index_holds_what_its_slots_do(m: Map<u64, DirFileEntryRaw>, k: u64, e: DirFileEntryRaw)
    ensures
        m.contains_key(k) && !m[k].dummy() ==> lists(m, m[k]),
        (forall|j: u64| #[trigger] m.contains_key(j) ==> m[j] != e) ==> !lists(m, e),
        e.dummy() ==> !lists(m, e),
        content(m, k) == if m.contains_key(k) {
            Some(m[k])
        } else {
            None
        },
{
}

/// In a well-formed index every slot between an entry's home and the entry is
/// occupied, so that going on from the home slot reaches it, and no two entries
/// have one name.
pub proof fn law_entries_are_reached_from_home(m: Map<u64, DirFileEntryRaw>, k: u64, d: int, j: u64)
    requires
        index_ok(m),
        m.contains_key(k),
        !m[k].dummy(),
    ensures
        0 <= d < (k - crc64_of(m[k].filename())) % 0x1_0000_0000_0000_0000 ==> m.contains_key(
            ((crc64_of(m[k].filename()) + d) % 0x1_0000_0000_0000_0000) as u64,
        ),
        m.contains_key(j) && !m[j].dummy() && m[j].filename() == m[k].filename() ==> j == k,
{
    let h = home(m[k]);
    if 0 <= d < gap(h, k) {
        assert(m.contains_key(slot(h, d)));
        law_slots_go_round(h, d, k);
    }
    law_slots_go_round(h, 0, k);
}

/// A run is what the slots from its home on hold, one after the other, and the
/// slot behind it is empty.
pub proof fn law_runs_are_what_the_slots_hold(m: Map<u64, DirFileEntryRaw>, h: u64, c: Seq<DirFileEntryRaw>, i: int)
    requires
        is_run(m, h, c),
    ensures
        c.len() < 0x1_0000_0000_0000_0000,
        0 <= i < c.len() ==> m.contains_key(((h + i) % 0x1_0000_0000_0000_0000) as u64) && m[((h + i)
            % 0x1_0000_0000_0000_0000) as u64] == c[i],
        !m.contains_key(((h + c.len()) % 0x1_0000_0000_0000_0000) as u64),
        reads(m, h, c, true),
{
    law_slots_go_round(h, c.len() as int, h);
    if 0 <= i < c.len() {
        law_slots_go_round(h, i, h);
        assert(m.contains_key(slot(h, i)));
    }
}

/// The entry found in a run is the first that has the name, whatever the others
/// are; none is found exactly where none has it.
pub proof fn law_lookup_gives_the_first_of_the_name(c: Seq<DirFileEntryRaw>, name: Seq<u8>, i: int)
    ensures
        0 <= i < c.len() && c[i].filename() == name && (forall|k: int| 0 <= k < i ==> (#[trigger] c[k]).filename()
            != name) ==> lookup_in(c, name) == Some(c[i]) && find_name(c, name) == i,
        (forall|k: int| 0 <= k < c.len() ==> (#[trigger] c[k]).filename() != name) ==> lookup_in(c, name) is None
            && find_name(c, name) == c.len(),
        0 <= i < c.len() && c[i].filename() == name ==> lookup_in(c, name) is Some && find_name(c, name) <= i,
{
    lemma_find_name(c, name);
    let f = find_name(c, name) as int;
    if f < c.len() {
        assert(c[f].filename() == name);
    }
    if 0 <= i < c.len() && c[i].filename() == name && i < f {
        assert(c[i].filename() != name);
    }
}

/// Writes are done in order, each to its slot; the values of several writes are
/// theirs one by one.
pub proof fn law_writes_are_done_in_order(
    m: Map<u64, DirFileEntryRaw>,
    moves: Seq<(u64, DirFileEntryRaw)>,
    k: u64,
    e: DirFileEntryRaw,
    v: Seq<SlotWrite>,
    i: int,
)
    ensures
        written(m, Seq::<(u64, DirFileEntryRaw)>::empty()) == m,
        written(m, moves.push((k, e))) == written(m, moves).insert(k, e),
        write_pairs(v).len() == v.len(),
        0 <= i < v.len() ==> write_pairs(v)[i] == (v[i].slot, v[i].entry),
    decreases moves.len(),
{
    let p = moves.push((k, e));
    if moves.len() > 0 {
        law_writes_are_done_in_order(m.insert(moves[0].0, moves[0].1), moves.skip(1), k, e, v, i);
        assert(p.skip(1) =~= moves.skip(1).push((k, e)));
    } else {
        assert(p.skip(1) =~= Seq::<(u64, DirFileEntryRaw)>::empty());
        assert(written(m.insert(k, e), p.skip(1)) == m.insert(k, e));
    }
}

/// A removal loses nothing else: every entry of another name, in whatever slot
/// it stood, stands in some slot afterwards, which is the result; and the index
/// stays one in which each is reached from its home.
pub proof fn law_removal_loses_nothing_else(
    m: Map<u64, DirFileEntryRaw>,
    c: Seq<DirFileEntryRaw>,
    name: Seq<u8>,
    i: int,
    k: u64,
) -> (at: u64)
    requires
        index_ok(m),
        entry_name(name),
        is_run(m, crc64_of(name), c),
        0 <= i < c.len(),
        c[i].filename() == name,
        m.contains_key(k),
        !m[k].dummy(),
        m[k].filename() != name,
    ensures
        ({
            let first = find_name(c, name) as int;
            let (moves, clear) = shift_back(crc64_of(name), c, first, first + 1);
            let after = written(m, moves).remove(clear);
            &&& after.contains_key(at)
            &&& after[at] == m[k]
            &&& index_ok(after)
        }),
{
    law_lookup_gives_the_first_of_the_name(c, name, i);
    law_delete_removes_one_name(m, c, name);
    let after = removed_at(m, crc64_of(name), c, find_name(c, name) as int);
    assert(lists(m, m[k]));
    assert(lists(after, m[k]));
    choose|j: u64| after.contains_key(j) && #[trigger] after[j] == m[k]
}

/// A removal leaves nothing of the name and adds nothing: every entry that is
/// left, in whatever slot, is of another name and stood in some slot before,
/// which is the result.
pub proof fn law_removal_leaves_nothing_of_the_name(
    m: Map<u64, DirFileEntryRaw>,
    c: Seq<DirFileEntryRaw>,
    name: Seq<u8>,
    i: int,
    k: u64,
) -> (at: u64)
    requires
        index_ok(m),
        entry_name(name),
        is_run(m, crc64_of(name), c),
        0 <= i < c.len(),
        c[i].filename() == name,
        ({
            let first = find_name(c, name) as int;
            let (moves, clear) = shift_back(crc64_of(name), c, first, first + 1);
            let after = written(m, moves).remove(clear);
            after.contains_key(k) && !after[k].dummy()
        }),
    ensures
        ({
            let first = find_name(c, name) as int;
            let (moves, clear) = shift_back(crc64_of(name), c, first, first + 1);
            let after = written(m, moves).remove(clear);
            &&& after[k].filename() != name
            &&& m.contains_key(at)
            &&& m[at] == after[k]
        }),
{
    law_lookup_gives_the_first_of_the_name(c, name, i);
    law_delete_removes_one_name(m, c, name);
    let after = removed_at(m, crc64_of(name), c, find_name(c, name) as int);
    assert(lists(after, after[k]));
    assert(lists(m, after[k]));
    choose|j: u64| m.contains_key(j) && #[trigger] m[j] == after[k]
}

/// A written entry stands in a slot of its own or in that of the entry that had
/// its name: every entry of another name stays where it is, and the index stays
/// one in which each is reached from its home.
pub proof fn law_writing_moves_nothing_else(
    m: Map<u64, DirFileEntryRaw>,
    c: Seq<DirFileEntryRaw>,
    e: DirFileEntryRaw,
    k: u64,
)
    requires
        index_ok(m),
        !e.dummy(),
        is_run(m, crc64_of(e.filename()), c),
        m.contains_key(k),
        !m[k].dummy(),
    ensures
        ({
            let at = slot(crc64_of(e.filename()), find_name(c, e.filename()) as int);
            let after = m.insert(at, e);
            &&& index_ok(after)
            &&& after[at] == e
            &&& m[k].filename() != e.filename() ==> k != at && after[k] == m[k]
            &&& m[k].filename() == e.filename() ==> k == at
        }),
{
    let h = home(e);
    law_upsert_replaces_one_name(m, c, e);
    lemma_find_name(c, e.filename());
    let f = find_name(c, e.filename()) as int;
    let at = slot(h, f);
    if m[k].filename() == e.filename() {
        lemma_name_in_run(m, c, k);
        lemma_slot_gap(h, k);
        let g = gap(h, k);
        if f < c.len() {
            assert(m.contains_key(slot(h, f)) && m[slot(h, f)] == c[f]);
            if c[f].dummy() {
                lemma_dummy_name(c[f]);
                lemma_not_dummy_by_name(m[k], c[f]);
            }
            assert(m[at].filename() == m[k].filename());
        } else {
            assert(c[g].filename() != e.filename());
        }
    } else if k == at {
        if f < c.len() {
            assert(m.contains_key(slot(h, f)) && m[slot(h, f)] == c[f]);
        }
    }
}

} // verus!
