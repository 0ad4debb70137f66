//! The compactor's leader lease: one object per directory, created on the
//! condition that it does not exist, taken over on the condition that an
//! expired one has not changed.
//!
//! [`LeaseBid`] decides each step of an acquisition from the store's reply to
//! the step before it.
use vstd::prelude::*;
use vstd::slice::slice_to_vec;
use vstd::utf8::{decode_utf8, encode_utf8, valid_utf8};
use crate::clock::{expires_at, expiry};
use crate::error::Error;
use crate::ident::{lemma_ulid_text, ulid_text, Ulid};
use crate::outside::utf8_text;
use crate::text::{
    chars_from, chars_of, decimal_int, has_prefix, lemma_decimal_int_chars, lemma_lines_first,
    lemma_parse_decimal_int, lines, lines_of, no_char, parse_i64, parse_i64_spec, push_i64, push_text, starts_with,
    string_of, strip_cr, texts,
};

verus! {

/// Default TTL for the compactor leader lease. A compactor that holds the
/// lease but crashes will block another compactor for at most this duration.
pub const DEFAULT_COMPACT_LEASE_TTL_MS: u64 = 60_000;

/// Object name (under each directory's prefix) used for the compactor lease.
pub const DEFAULT_COMPACT_LEASE_FILE: &'static str = "_compact.lease";

/// Handle to an acquired compactor lease, to be handed back for release.
///
/// Holds no resources on its own; dropping it without a release simply waits
/// for the TTL to expire.
#[derive(Debug, Clone)]
pub struct CompactLeaseGuard {
    /// Identifier of the lease holder (a fresh ULID per acquire).
    pub holder_id: String,
    /// ETag of the lease object as last written by the holder. The
    /// conditional delete of a release uses it, so that a lease that has since
    /// been taken over is not released.
    pub etag: String,
    /// Key of the lease object.
    pub lease_key: String,
    /// Wall-clock expiration the lease was acquired with. Past this time, any
    /// other client may take over the lease.
    pub expires_at_unix_ms: i64,
}

/// The mathematical value of a [`CompactLeaseGuard`].
pub struct Guard {
    pub holder_id: Seq<char>,
    pub etag: Seq<char>,
    pub lease_key: Seq<char>,
    pub expires_at_unix_ms: i64,
}

impl View for CompactLeaseGuard {
    type V = Guard;

    open spec fn view(&self) -> Guard {
        Guard {
            holder_id: self.holder_id@,
            etag: self.etag@,
            lease_key: self.lease_key@,
            expires_at_unix_ms: self.expires_at_unix_ms,
        }
    }
}

// ---------------------------------------------------------------------------
// The lease object's body
// ---------------------------------------------------------------------------

/// The text of a lease: two lines, the holder and the expiry.
pub open spec fn lease_text(holder: Seq<char>, expires_at_unix_ms: i64) -> Seq<char> {
    "holder="@ + holder + "\nexpires_at_unix_ms="@ + decimal_int(expires_at_unix_ms as int) + "\n"@
}

/// What has been read of a lease.
pub struct LeaseFields {
    pub holder: Option<Seq<char>>,
    pub expires: Option<int>,
}

/// What is known after one more line. The last line of each kind counts;
/// other lines are passed over.
pub open spec fn lease_line(f: LeaseFields, line: Seq<char>) -> LeaseFields {
    if starts_with(line, "holder="@) {
        LeaseFields { holder: Some(line.skip("holder="@.len() as int)), ..f }
    } else if starts_with(line, "expires_at_unix_ms="@) {
        LeaseFields { expires: parse_i64_spec(line.skip("expires_at_unix_ms="@.len() as int)), ..f }
    } else {
        f
    }
}

/// What the lines of a lease say.
pub open spec fn lease_fields(ls: Seq<Seq<char>>) -> LeaseFields
    decreases ls.len(),
{
    if ls.len() == 0 {
        LeaseFields { holder: None, expires: None }
    } else {
        lease_line(lease_fields(ls.drop_last()), ls.last())
    }
}

/// Holder and expiry that the body of a lease object gives.
pub open spec fn lease_of(buf: Seq<u8>) -> Result<(Seq<char>, i64), Error> {
    if !valid_utf8(buf) {
        Err(Error::LeaseNotText)
    } else {
        let f = lease_fields(lines(decode_utf8(buf)));
        match f.holder {
            None => Err(Error::LeaseWithoutHolder),
            Some(holder) => match f.expires {
                None => Err(Error::LeaseWithoutExpiry),
                Some(e) => Ok((holder, e as i64)),
            },
        }
    }
}

/// A holder that fills a line of its own: it has no line break, and does not
/// end in a carriage return, which would count as part of one.
pub open spec fn one_line(holder: Seq<char>) -> bool {
    no_char(holder, '\n') && (holder.len() > 0 ==> holder.last() != '\r')
}

/// A lease is read back as it was written, for a holder that fits a line.
pub proof fn law_lease_round_trip(holder: Seq<char>, expires_at_unix_ms: i64)
    requires
        one_line(holder),
    ensures
        lease_of(encode_utf8(lease_text(holder, expires_at_unix_ms))) == Ok::<(Seq<char>, i64), Error>(
            (holder, expires_at_unix_ms),
        ),
{
    reveal_strlit("holder=");
    reveal_strlit("\nexpires_at_unix_ms=");
    reveal_strlit("expires_at_unix_ms=");
    reveal_strlit("\n");
    let d = decimal_int(expires_at_unix_ms as int);
    let a = "holder="@ + holder;
    let b = "expires_at_unix_ms="@ + d;
    let text = lease_text(holder, expires_at_unix_ms);
    lemma_decimal_int_chars(expires_at_unix_ms as int);
    assert(no_char(d, '\n'));
    assert(no_char(a, '\n'));
    assert(no_char(b, '\n'));
    assert(text =~= a.push('\n') + (b.push('\n') + Seq::<char>::empty()));
    lemma_lines_first(b, Seq::<char>::empty());
    lemma_lines_first(a, b.push('\n') + Seq::<char>::empty());
    assert(holder.len() > 0 ==> a.last() == holder.last());
    assert(a.last() != '\r');
    assert(b.last() == d.last());
    assert(strip_cr(a) == a);
    assert(strip_cr(b) == b);
    let ls = lines(text);
    assert(ls =~= seq![a, b]);
    let f0 = LeaseFields { holder: None, expires: None };
    assert(ls.drop_last() =~= seq![a]);
    assert(seq![a].drop_last() =~= Seq::<Seq<char>>::empty());
    assert(lease_fields(Seq::<Seq<char>>::empty()) == f0);
    assert(a.take(7) =~= "holder="@);
    assert(a.skip(7) =~= holder);
    assert(lease_fields(seq![a]) == lease_line(f0, a));
    assert(lease_fields(ls) == lease_line(lease_line(f0, a), b));
    assert(b[0] == 'e');
    assert("holder="@[0] == 'h');
    assert(b.take(7)[0] == 'e');
    assert(!starts_with(b, "holder="@));
    assert(b.take(19) =~= "expires_at_unix_ms="@);
    assert(b.skip(19) =~= d);
    lemma_parse_decimal_int(expires_at_unix_ms as int, (i64::MAX + 1) as nat, i64::MAX as nat);
    vstd::utf8::encode_utf8_valid_utf8(text);
    vstd::utf8::encode_utf8_decode_utf8(text);
}

/// The body of a lease object: two lines, the holder and the expiry.
pub fn format_lease_body(holder: &str, expires_at_unix_ms: i64) -> (r: String)
    ensures
        r@ == lease_text(holder@, expires_at_unix_ms),
{
    let mut s: String = "holder=".to_string();
    push_text(&mut s, holder);
    push_text(&mut s, "\nexpires_at_unix_ms=");
    push_i64(&mut s, expires_at_unix_ms);
    push_text(&mut s, "\n");
    s
}

/// Holder and expiry that the body of a lease object gives.
pub fn parse_lease_body(buf: &[u8]) -> (r: Result<(String, i64), Error>)
    ensures
        match lease_of(buf@) {
            Ok(v) => r matches Ok(w) && w.0@ == v.0 && w.1 == v.1,
            Err(e) => r == Err::<(String, i64), Error>(e),
        },
{
    let s: String = match utf8_text(slice_to_vec(buf)) {
        Some(s) => s,
        None => {
            return Err(Error::LeaseNotText);
        },
    };
    let cs: Vec<char> = chars_of(s.as_str());
    let ls: Vec<Vec<char>> = lines_of(cs.as_slice());
    let ghost all = lines(decode_utf8(buf@));
    let mut holder: Option<String> = None;
    let mut expires_at: Option<i64> = None;
    for i in 0..ls.len()
        invariant
            texts(ls@) == all,
            ({
                let f = lease_fields(all.take(i as int));
                &&& holder is Some <==> f.holder is Some
                &&& holder matches Some(h) ==> f.holder == Some(h@)
                &&& expires_at is Some <==> f.expires is Some
                &&& expires_at matches Some(e) ==> f.expires == Some(e as int)
            }),
    {
        assert(all.take(i + 1).drop_last() =~= all.take(i as int));
        assert(all.take(i + 1).last() == texts(ls@)[i as int]);
        let line: &[char] = ls[i].as_slice();
        if has_prefix(line, "holder=") {
            proof {
                reveal_strlit("holder=");
            }
            holder = Some(string_of(chars_from(line, 7).as_slice()));
        } else if has_prefix(line, "expires_at_unix_ms=") {
            proof {
                reveal_strlit("expires_at_unix_ms=");
            }
            expires_at = parse_i64(chars_from(line, 19).as_slice());
        }
    }
    assert(all.take(all.len() as int) =~= all);
    match holder {
        None => Err(Error::LeaseWithoutHolder),
        Some(h) => match expires_at {
            None => Err(Error::LeaseWithoutExpiry),
            Some(e) => Ok((h, e)),
        },
    }
}

// ---------------------------------------------------------------------------
// Acquiring the lease
// ---------------------------------------------------------------------------

/// The store's reply to a conditional PUT.
#[derive(Debug)]
pub enum PutReply {
    /// The object was stored, with this ETag where one was given.
    Stored(Option<String>),
    /// The request failed, with this HTTP status where there was a response.
    Failed(Option<u16>),
}

/// The store's reply to a GET of the lease object.
#[derive(Debug)]
pub enum LeaseReply {
    /// The object, with its ETag where one was given.
    Found(Option<String>, Vec<u8>),
    /// The request failed.
    Failed,
    /// The request succeeded and the body could not be read to its end.
    Broken,
}

/// What an acquisition does next.
#[derive(Debug)]
pub enum LeaseStep {
    /// The lease is held.
    Acquired(CompactLeaseGuard),
    /// A lease object exists: it is to be read.
    Inspect,
    /// The existing lease has expired: `body` is to be written on the
    /// condition that the object still has this ETag.
    TakeOver(String, String),
    /// The lease cannot be had.
    Refused(Error),
}

/// A failed conditional PUT lost against another writer.
pub open spec fn lost_race(status: Option<u16>) -> bool {
    status == Some(412u16) || status == Some(409u16)
}

/// An ETag without the quotes that the store puts round it; empty where the
/// store gave none.
pub open spec fn bare_etag(etag: Option<Seq<char>>) -> Seq<char> {
    match etag {
        Some(t) => t.filter(|c: char| c != '"'),
        None => seq![],
    }
}

pub open spec fn etag_view(etag: Option<String>) -> Option<Seq<char>> {
    match etag {
        Some(t) => Some(t@),
        None => None,
    }
}

/// True iff a failed conditional PUT lost against another writer.
pub fn is_conflict(status: Option<u16>) -> (r: bool)
    ensures
        r == lost_race(status),
{
    match status {
        Some(code) => code == 412 || code == 409,
        None => false,
    }
}

/// An ETag without its quotes; empty where there is none.
pub fn clean_etag(etag: &Option<String>) -> (r: String)
    ensures
        r@ == bare_etag(etag_view(*etag)),
{
    let mut out: String = String::new();
    match etag {
        None => {
            assert(out@ =~= seq![]);
            out
        },
        Some(t) => {
            let cs: Vec<char> = chars_of(t.as_str());
            let ghost p = |c: char| c != '"';
            proof {
                reveal(Seq::filter);
            }
            assert(out@ =~= t@.take(0).filter(p));
            for i in 0..cs.len()
                invariant
                    cs@ == t@,
                    p == (|c: char| c != '"'),
                    out@ == t@.take(i as int).filter(p),
            {
                proof {
                    reveal(Seq::filter);
                }
                assert(t@.take(i + 1).drop_last() =~= t@.take(i as int));
                assert(t@.take(i + 1).last() == t@[i as int]);
                let c: char = cs[i];
                if c != '"' {
                    out.push(c);
                }
            }
            assert(t@.take(t@.len() as int) =~= t@);
            out
        },
    }
}

/// An attempt begun at `now_ms` that finds a lease with this body takes it
/// over.
pub open spec fn takes_over(now_ms: i64, body: Seq<u8>) -> bool {
    lease_of(body) matches Ok(v) && v.1 <= now_ms
}

/// One attempt at acquiring a lease, begun at `now_ms`.
#[derive(Debug)]
pub struct LeaseBid {
    pub holder_id: String,
    pub lease_key: String,
    pub now_ms: i64,
    pub ttl_ms: u64,
}

impl LeaseBid {
    /// The lease that the attempt gets once the store has accepted its body.
    pub open spec fn guard(self, etag: Option<Seq<char>>) -> Guard {
        Guard {
            holder_id: self.holder_id@,
            etag: bare_etag(etag),
            lease_key: self.lease_key@,
            expires_at_unix_ms: expiry(self.now_ms, self.ttl_ms),
        }
    }

    /// The body that the attempt writes.
    pub open spec fn text(self) -> Seq<char> {
        lease_text(self.holder_id@, expiry(self.now_ms, self.ttl_ms))
    }

    /// Begins an attempt, under a fresh identifier that fills a line.
    pub fn begin(lease_key: &str, now_ms: i64, ttl_ms: u64) -> (r: LeaseBid)
        ensures
            exists|u: Ulid| r.holder_id@ == #[trigger] ulid_text(u.bits),
            one_line(r.holder_id@),
            r.lease_key@ == lease_key@,
            r.now_ms == now_ms,
            r.ttl_ms == ttl_ms,
    {
        let u: Ulid = Ulid::fresh();
        let holder_id: String = u.to_text();
        proof {
            lemma_ulid_text(u.bits);
            assert forall|i: int| 0 <= i < holder_id@.len() implies holder_id@[i] != '\n' && holder_id@[i]
                != '\r' by {
                assert(crate::ident::key_char(holder_id@[i]));
            }
        }
        LeaseBid { holder_id, lease_key: lease_key.to_string(), now_ms, ttl_ms }
    }

    /// The body to be written, on the condition that no object exists, and
    /// again on a take-over.
    pub fn body(&self) -> (r: String)
        ensures
            r@ == self.text(),
    {
        format_lease_body(self.holder_id.as_str(), expires_at(self.now_ms, self.ttl_ms))
    }

    fn granted(&self, etag: &Option<String>) -> (r: CompactLeaseGuard)
        ensures
            r@ == self.guard(etag_view(*etag)),
    {
        CompactLeaseGuard {
            holder_id: self.holder_id.clone(),
            etag: clean_etag(etag),
            lease_key: self.lease_key.clone(),
            expires_at_unix_ms: expires_at(self.now_ms, self.ttl_ms),
        }
    }

    /// After the PUT that creates the object: an object that exists already
    /// has to be looked at.
    pub fn after_create(&self, reply: &PutReply) -> (r: LeaseStep)
        ensures
            match *reply {
                PutReply::Stored(etag) => r matches LeaseStep::Acquired(g) && g@ == self.guard(etag_view(etag)),
                PutReply::Failed(status) => r == if lost_race(status) {
                    LeaseStep::Inspect
                } else {
                    LeaseStep::Refused(Error::StoreFailed)
                },
            },
    {
        match reply {
            PutReply::Stored(etag) => LeaseStep::Acquired(self.granted(etag)),
            PutReply::Failed(status) => if is_conflict(*status) {
                LeaseStep::Inspect
            } else {
                LeaseStep::Refused(Error::StoreFailed)
            },
        }
    }

    /// After the GET of an existing lease: only an expired lease is taken
    /// over.
    pub fn after_inspect(&self, reply: &LeaseReply) -> (r: LeaseStep)
        ensures
            match *reply {
                LeaseReply::Failed => r == LeaseStep::Refused(Error::LeaseGone),
                LeaseReply::Broken => r == LeaseStep::Refused(Error::StoreFailed),
                LeaseReply::Found(etag, body) => match lease_of(body@) {
                    Err(e) => r == LeaseStep::Refused(e),
                    Ok((holder, expires)) => if expires > self.now_ms {
                        r == LeaseStep::Refused(Error::LeaseHeld)
                    } else {
                        r matches LeaseStep::TakeOver(t, b) && t@ == bare_etag(etag_view(etag)) && b@ == self.text()
                    },
                },
            },
            r is TakeOver <==> (*reply matches LeaseReply::Found(_, body) && takes_over(self.now_ms, body@)),
    {
        match reply {
            LeaseReply::Failed => LeaseStep::Refused(Error::LeaseGone),
            LeaseReply::Broken => LeaseStep::Refused(Error::StoreFailed),
            LeaseReply::Found(etag, body) => match parse_lease_body(body.as_slice()) {
                Err(e) => LeaseStep::Refused(e),
                Ok((_, expires)) => if expires > self.now_ms {
                    LeaseStep::Refused(Error::LeaseHeld)
                } else {
                    LeaseStep::TakeOver(clean_etag(etag), self.body())
                },
            },
        }
    }

    /// After the PUT that takes an expired lease over.
    pub fn after_take_over(&self, reply: &PutReply) -> (r: LeaseStep)
        ensures
            match *reply {
                PutReply::Stored(etag) => r matches LeaseStep::Acquired(g) && g@ == self.guard(etag_view(etag)),
                PutReply::Failed(status) => r == LeaseStep::Refused(
                    if lost_race(status) {
                        Error::LeaseRaceLost
                    } else {
                        Error::StoreFailed
                    },
                ),
            },
    {
        match reply {
            PutReply::Stored(etag) => LeaseStep::Acquired(self.granted(etag)),
            PutReply::Failed(status) => if is_conflict(*status) {
                LeaseStep::Refused(Error::LeaseRaceLost)
            } else {
                LeaseStep::Refused(Error::StoreFailed)
            },
        }
    }
}

/// A lease that one client has written keeps every other attempt out until it
/// expires, and none after: an attempt that finds it takes it over exactly
/// from the expiry on.
pub proof fn law_lease_excludes_until_expiry(holder: Seq<char>, taken_ms: i64, ttl_ms: u64, now_ms: i64)
    requires
        one_line(holder),
    ensures
        takes_over(now_ms, encode_utf8(lease_text(holder, expiry(taken_ms, ttl_ms)))) <==> now_ms >= expiry(
            taken_ms,
            ttl_ms,
        ),
{
    law_lease_round_trip(holder, expiry(taken_ms, ttl_ms));
}

// ---------------------------------------------------------------------------
// Laws of single steps
// ---------------------------------------------------------------------------

/// The value of a lease is what it holds, field by field.
pub proof fn law_lease_is_its_fields(g: CompactLeaseGuard)
    ensures
        g@.holder_id == g.holder_id@,
        g@.etag == g.etag@,
        g@.lease_key == g.lease_key@,
        g@.expires_at_unix_ms == g.expires_at_unix_ms,
{
}

/// A lease body is read line by line: a holder's line says who holds it, an
/// expiry's line until when, and the last of each counts; an expiry that is no
/// number takes back one before it; other lines say nothing.
pub proof fn law_lease_line_by_line(ls: Seq<Seq<char>>, v: Seq<char>, line: Seq<char>)
    ensures
        lease_fields(Seq::<Seq<char>>::empty()).holder is None,
        lease_fields(Seq::<Seq<char>>::empty()).expires is None,
        lease_fields(ls.push("holder="@ + v)).holder == Some(v),
        lease_fields(ls.push("holder="@ + v)).expires == lease_fields(ls).expires,
        lease_fields(ls.push("expires_at_unix_ms="@ + v)).holder == lease_fields(ls).holder,
        lease_fields(ls.push("expires_at_unix_ms="@ + v)).expires == parse_i64_spec(v),
        !starts_with(line, "holder="@) && !starts_with(line, "expires_at_unix_ms="@) ==> lease_fields(ls.push(line))
            == lease_fields(ls),
{
    reveal_strlit("holder=");
    reveal_strlit("expires_at_unix_ms=");
    let h = "holder="@ + v;
    let e = "expires_at_unix_ms="@ + v;
    assert(ls.push(h).drop_last() =~= ls);
    assert(ls.push(e).drop_last() =~= ls);
    assert(ls.push(line).drop_last() =~= ls);
    assert(h.take(7) =~= "holder="@);
    assert(h.skip(7) =~= v);
    assert(e.take(19) =~= "expires_at_unix_ms="@);
    assert(e.skip(19) =~= v);
    assert(e.take(7)[0] == 'e' && "holder="@[0] == 'h');
}

/// A body gives a lease exactly where it is text whose lines say who holds it
/// and until when; each thing that is missing is an error of its own.
pub proof fn law_what_a_lease_body_gives(buf: Seq<u8>)
    ensures
        !valid_utf8(buf) ==> lease_of(buf) == Err::<(Seq<char>, i64), Error>(Error::LeaseNotText),
        valid_utf8(buf) ==> {
            let f = lease_fields(lines(decode_utf8(buf)));
            &&& f.holder is None ==> lease_of(buf) == Err::<(Seq<char>, i64), Error>(Error::LeaseWithoutHolder)
            &&& f.holder is Some && f.expires is None ==> lease_of(buf) == Err::<(Seq<char>, i64), Error>(
                Error::LeaseWithoutExpiry,
            )
            &&& f.holder is Some && (f.expires matches Some(e) && i64::MIN <= e <= i64::MAX) ==> lease_of(buf) == Ok::<
                (Seq<char>, i64),
                Error,
            >((f.holder->Some_0, f.expires->Some_0 as i64))
        },
{
}

/// The body of a lease is two lines: who holds it and until when.
pub proof fn law_lease_text(holder: Seq<char>, expires_at_unix_ms: i64)
    ensures
        lease_text(holder, expires_at_unix_ms) == "holder="@ + holder + "\nexpires_at_unix_ms="@ + decimal_int(
            expires_at_unix_ms as int,
        ) + "\n"@,
        one_line(holder) <==> !holder.contains('\n') && (holder.len() == 0 || holder.last() != '\r'),
{
    if !holder.contains('\n') {
        assert forall|i: int| 0 <= i < holder.len() implies holder[i] != '\n' by {
            assert(holder.contains(holder[i]));
        }
    }
}

/// A failed conditional PUT lost a race where the store answered 412 or 409,
/// and not where it answered anything else or not at all.
pub proof fn law_lost_races(code: u16)
    ensures
        lost_race(Some(412)),
        lost_race(Some(409)),
        code != 412 && code != 409 ==> !lost_race(Some(code)),
        !lost_race(None),
{
}

/// An ETag loses its quotes, wherever they stand, and keeps every other
/// character in its order.
pub proof fn law_etags_lose_their_quotes(t: Seq<char>, c: char, s: String)
    ensures
        bare_etag(None) == Seq::<char>::empty(),
        bare_etag(Some(Seq::<char>::empty())) == Seq::<char>::empty(),
        c != '"' ==> bare_etag(Some(t.push(c))) == bare_etag(Some(t)).push(c),
        bare_etag(Some(t.push('"'))) == bare_etag(Some(t)),
        etag_view(Some(s)) == Some(s@),
        etag_view(None) is None,
{
    reveal(Seq::filter);
    assert(t.push(c).drop_last() =~= t);
    assert(t.push('"').drop_last() =~= t);
}

/// An existing lease is taken over exactly where its body gives a lease whose
/// expiry is not after the time of the attempt.
pub proof fn law_only_expired_leases_are_taken_over(now_ms: i64, body: Seq<u8>)
    ensures
        lease_of(body) is Err ==> !takes_over(now_ms, body),
        lease_of(body) matches Ok(v) ==> (takes_over(now_ms, body) <==> v.1 <= now_ms),
{
}

/// What an attempt gets is the lease that it wrote: under its holder and key,
/// until the expiry that it counted from its own begin, which the body tells.
pub proof fn law_an_attempt_gets_the_lease_it_wrote(bid: LeaseBid, etag: Option<Seq<char>>)
    ensures
        bid.guard(etag).holder_id == bid.holder_id@,
        bid.guard(etag).lease_key == bid.lease_key@,
        bid.guard(etag).etag == bare_etag(etag),
        bid.ttl_ms <= i64::MAX && bid.now_ms + bid.ttl_ms <= i64::MAX ==> bid.guard(etag).expires_at_unix_ms
            == bid.now_ms + bid.ttl_ms,
        one_line(bid.holder_id@) ==> lease_of(encode_utf8(bid.text())) == Ok::<(Seq<char>, i64), Error>(
            (bid.guard(etag).holder_id, bid.guard(etag).expires_at_unix_ms),
        ),
{
    if one_line(bid.holder_id@) {
        law_lease_round_trip(bid.holder_id@, expiry(bid.now_ms, bid.ttl_ms));
    }
}

} // verus!
