//! The right to write, held by one node at a time.
//!
//! The lease is an object that is replaced only if nobody else replaced it
//! since it was read. Each holder has a number greater than those before.

use vstd::prelude::*;
use vstd::string::*;

use crate::text;
use crate::text::{decimal_text, same_text};

verus! {

/// Who may write, and until when.
#[derive(Debug, Clone, PartialEq)]
pub struct Lease {
    pub holder_id: String,
    pub fencing_token: u64,
    pub expires_at_ms: u64,
}

/// What a node knows of its own lease.
#[derive(Debug, Clone, Copy, PartialEq, Eq, Structural)]
pub struct LeaseHandle {
    token: u64,
    valid: bool,
}

impl LeaseHandle {
    pub closed spec fn number(&self) -> u64 {
        self.token
    }

    pub closed spec fn valid(&self) -> bool {
        self.valid
    }

    /// The number of the lease that was held last.
    pub fn token(&self) -> (t: u64)
        ensures
            t == self.number(),
    {
        self.token
    }

    /// Whether the lease is believed to be held.
    pub fn is_valid(&self) -> (r: bool)
        ensures
            r == self.valid(),
    {
        self.valid
    }
}

/// Another node holds the lease.
#[derive(Debug, Clone, PartialEq)]
pub struct Held {
    pub holder_id: String,
    pub expires_at_ms: u64,
    pub fencing_token: u64,
}

impl Held {
    pub open spec fn text(&self) -> Seq<char> {
        "lease held by \""@ + self.holder_id@ + "\" until "@ + text::decimal(
            self.expires_at_ms as nat,
        ) + " (fencing token "@ + text::decimal(self.fencing_token as nat) + ")"@
    }

    /// What is wrong, in words.
    pub fn message(&self) -> (m: String)
        ensures
            m@ == self.text(),
    {
        let mut m = "lease held by \"".to_owned();
        m.append(self.holder_id.as_str());
        m.append("\" until ");
        m.append(decimal_text(self.expires_at_ms).as_str());
        m.append(" (fencing token ");
        m.append(decimal_text(self.fencing_token).as_str());
        m.append(")");
        m
    }
}

/// The lease object as it was read, with the tag by which a replacement is
/// guarded.
pub struct Current {
    pub lease: Lease,
    pub etag: String,
}

/// A replacement of the lease object: `lease` is to be written if the object
/// still has the tag, or is still missing.
pub struct Attempt {
    pub expected: Option<String>,
    pub lease: Lease,
}

/// What a node is to do to keep its lease.
pub enum Renewal {
    /// It holds none: acquire one.
    Acquire,
    Put(Attempt),
}

/// A node that wants to write.
pub struct LeaseManager {
    key: String,
    holder_id: String,
    ttl_ms: u64,
    handle: LeaseHandle,
    current_etag: Option<String>,
}

pub open spec fn opt_text(s: Option<String>) -> Option<Seq<char>> {
    match s {
        Some(s) => Some(s@),
        None => None,
    }
}

/// Whether a node may take the lease over at a time: nobody has it, it ran out,
/// or the node has it itself.
pub open spec fn may_take(current: Option<Current>, holder: Seq<char>, now: u64) -> bool {
    match current {
        None => true,
        Some(c) => c.lease.expires_at_ms < now || c.lease.holder_id@ == holder,
    }
}

/// The number that the next holder gets.
pub open spec fn next_token(current: Option<Current>) -> int {
    match current {
        None => 1,
        Some(c) => c.lease.fencing_token + 1,
    }
}

/// Nobody takes a lease over before it runs out, and whoever does gets a
/// greater number.
pub proof fn law_takeover_waits_and_counts_up(current: Current, holder: Seq<char>, now: u64)
    ensures
        current.lease.holder_id@ != holder && now <= current.lease.expires_at_ms ==> !may_take(
            Some(current),
            holder,
            now,
        ),
        next_token(Some(current)) > current.lease.fencing_token,
{
}

/// Whether a node that read the lease object decides on taking it in this way.
pub open spec fn acquire_decided(
    before: LeaseManager,
    current: Option<Current>,
    now: u64,
    r: Result<Attempt, Held>,
    after: LeaseManager,
) -> bool {
    &&& after.same_node(before)
    &&& after.etag() == before.etag()
    &&& after.known().number() == before.known().number()
    &&& match r {
        Ok(a) => {
            &&& may_take(current, before.holder(), now)
            &&& after.known() == before.known()
            &&& opt_text(a.expected) == (match current {
                Some(c) => Some(c.etag@),
                None => None,
            })
            &&& a.lease.holder_id@ == before.holder()
            &&& a.lease.fencing_token == next_token(current)
            &&& a.lease.expires_at_ms == now + before.ttl()
        },
        Err(h) => {
            &&& !may_take(current, before.holder(), now)
            &&& !after.known().valid()
            &&& h.holder_id@ == current->0.lease.holder_id@
            &&& h.expires_at_ms == current->0.lease.expires_at_ms
            &&& h.fencing_token == current->0.lease.fencing_token
        },
    }
}

/// Whether a node takes note in this way of how its attempt went.
pub open spec fn acquire_noted(
    before: LeaseManager,
    attempt: Attempt,
    etag: Option<String>,
    after: LeaseManager,
) -> bool {
    &&& after.same_node(before)
    &&& match etag {
        Some(t) => {
            &&& after.etag() == Some(t@)
            &&& after.known().number() == attempt.lease.fencing_token
            &&& after.known().valid()
        },
        None => {
            &&& after.etag() == before.etag()
            &&& after.known().number() == before.known().number()
            &&& !after.known().valid()
        },
    }
}

/// Where the store answers and nobody interferes, acquiring fails exactly where
/// another node has a lease that has not run out; the node then holds nothing and
/// asks for nothing to be written. Else it holds the lease, with the number after
/// the last one, and that lease is what it had written.
pub proof fn law_acquiring_takes_a_free_lease(
    before: LeaseManager,
    current: Option<Current>,
    now: u64,
    r: Result<Attempt, Held>,
    between: LeaseManager,
    etag: String,
    after: LeaseManager,
)
    requires
        acquire_decided(before, current, now, r, between),
        r matches Ok(a) ==> acquire_noted(between, a, Some(etag), after),
    ensures
        r is Err <==> (current matches Some(c) && c.lease.holder_id@ != before.holder() && now
            <= c.lease.expires_at_ms),
        r is Err ==> !between.known().valid(),
        r matches Ok(a) ==> {
            &&& after.known().valid()
            &&& after.known().number() == (match current {
                Some(c) => c.lease.fencing_token + 1,
                None => 1,
            })
            &&& after.etag() == Some(etag@)
            &&& a.lease.holder_id@ == before.holder()
            &&& a.lease.fencing_token == after.known().number()
            &&& a.lease.expires_at_ms == now + before.ttl()
        },
{
}

impl LeaseManager {
    pub closed spec fn object(&self) -> Seq<char> {
        self.key@
    }

    pub closed spec fn holder(&self) -> Seq<char> {
        self.holder_id@
    }

    pub closed spec fn ttl(&self) -> u64 {
        self.ttl_ms
    }

    pub closed spec fn known(&self) -> LeaseHandle {
        self.handle
    }

    pub closed spec fn etag(&self) -> Option<Seq<char>> {
        opt_text(self.current_etag)
    }

    /// Whether another is the same node.
    pub open spec fn same_node(&self, other: LeaseManager) -> bool {
        &&& self.object() == other.object()
        &&& self.holder() == other.holder()
        &&& self.ttl() == other.ttl()
    }

    /// A manager that holds no lease yet.
    pub fn new(keyspace: &str, holder_id: String, ttl_ms: u64) -> (m: LeaseManager)
        ensures
            m.object() == "_lease/"@ + keyspace@,
            m.holder() == holder_id@,
            m.ttl() == ttl_ms,
            m.known().number() == 0,
            !m.known().valid(),
            m.etag() is None,
    {
        let mut key = "_lease/".to_owned();
        key.append(keyspace);
        LeaseManager {
            key,
            holder_id,
            ttl_ms,
            handle: LeaseHandle { token: 0, valid: false },
            current_etag: None,
        }
    }

    /// The name of the lease object.
    pub fn key(&self) -> (k: &str)
        ensures
            k@ == self.object(),
    {
        self.key.as_str()
    }

    /// What the node knows of its lease.
    pub fn handle(&self) -> (h: LeaseHandle)
        ensures
            h == self.known(),
    {
        self.handle
    }

    /// Decides on taking the lease, given the object as it was read. Where
    /// another node holds it, the node no longer believes to hold it.
    pub fn try_acquire(&mut self, current: Option<Current>, now: u64) -> (r: Result<Attempt, Held>)
        requires
            may_take(current, old(self).holder(), now) ==> now + old(self).ttl() <= u64::MAX
                && next_token(current) <= u64::MAX,
        ensures
            acquire_decided(*old(self), current, now, r, *final(self)),
    {
        let mut expected: Option<String> = None;
        let mut token: u64 = 1;
        match current {
            Some(c) => {
                let expired = c.lease.expires_at_ms < now;
                let ours = same_text(c.lease.holder_id.as_str(), self.holder_id.as_str());
                if !expired && !ours {
                    self.handle.valid = false;
                    return Err(
                        Held {
                            holder_id: c.lease.holder_id,
                            expires_at_ms: c.lease.expires_at_ms,
                            fencing_token: c.lease.fencing_token,
                        },
                    );
                }
                token = c.lease.fencing_token + 1;
                expected = Some(c.etag);
            },
            None => {},
        }
        Ok(
            Attempt {
                expected,
                lease: Lease {
                    holder_id: self.holder_id.clone(),
                    fencing_token: token,
                    expires_at_ms: now + self.ttl_ms,
                },
            },
        )
    }

    /// Takes note of how an attempt to take the lease went: with the new tag of
    /// the object, or not at all.
    pub fn acquired(&mut self, attempt: &Attempt, etag: Option<String>)
        ensures
            acquire_noted(*old(self), *attempt, etag, *final(self)),
    {
        match etag {
            Some(t) => {
                self.current_etag = Some(t);
                self.handle.token = attempt.lease.fencing_token;
                self.handle.valid = true;
            },
            None => {
                self.handle.valid = false;
            },
        }
    }

    /// Decides on keeping the lease: the same number, until later.
    pub fn renew(&self, now: u64) -> (r: Renewal)
        requires
            self.etag() is Some ==> now + self.ttl() <= u64::MAX,
        ensures
            match self.etag() {
                None => r is Acquire,
                Some(t) => {
                    &&& r matches Renewal::Put(a)
                    &&& opt_text(a.expected) == Some(t)
                    &&& a.lease.holder_id@ == self.holder()
                    &&& a.lease.fencing_token == self.known().number()
                    &&& a.lease.expires_at_ms == now + self.ttl()
                },
            },
    {
        match &self.current_etag {
            None => Renewal::Acquire,
            Some(t) => Renewal::Put(
                Attempt {
                    expected: Some(t.clone()),
                    lease: Lease {
                        holder_id: self.holder_id.clone(),
                        fencing_token: self.handle.token,
                        expires_at_ms: now + self.ttl_ms,
                    },
                },
            ),
        }
    }

    /// Takes note of how an attempt to keep the lease went.
    pub fn renewed(&mut self, etag: Option<String>)
        ensures
            final(self).same_node(*old(self)),
            final(self).known().number() == old(self).known().number(),
            match etag {
                Some(t) => {
                    &&& final(self).etag() == Some(t@)
                    &&& final(self).known() == old(self).known()
                },
                None => {
                    &&& final(self).etag() == old(self).etag()
                    &&& !final(self).known().valid()
                },
            },
    {
        match etag {
            Some(t) => {
                self.current_etag = Some(t);
            },
            None => {
                self.handle.valid = false;
            },
        }
    }
}

/// A lease that was taken or renewed keeps every other node off until its time is
/// over, and no longer; its holder may take it again at any time.
pub proof fn law_lease_keeps_others_off_for_its_time(
    m: LeaseManager,
    now: u64,
    a: Attempt,
    etag: String,
    other: Seq<char>,
    then: u64,
)
    requires
        call_ensures(LeaseManager::renew, (&m, now), Renewal::Put(a)) || exists|
            current: Option<Current>,
            after: LeaseManager,
        |
            #[trigger] acquire_decided(m, current, now, Ok(a), after),
        other != m.holder(),
    ensures
        may_take(Some(Current { lease: a.lease, etag }), other, then) <==> then > now + m.ttl(),
        may_take(Some(Current { lease: a.lease, etag }), m.holder(), then),
{
}

/// A renewal replaces the lease that the node knows, under the same number, or
/// asks it to take one where it knows none; a node that could not renew knows
/// that it may no longer write.
pub proof fn law_renewal_keeps_the_number(m: LeaseManager, now: u64, r: Renewal)
    requires
        call_ensures(LeaseManager::renew, (&m, now), r),
    ensures
        m.etag() is None <==> r is Acquire,
        r matches Renewal::Put(a) ==> a.lease.fencing_token == m.known().number()
            && a.lease.holder_id@ == m.holder() && (a.expected matches Some(t) && Some(t@)
            == m.etag()),
{
}

/// Of two nodes that take a lease one after the other the later has the higher
/// number.
pub proof fn law_later_holder_has_the_higher_number(
    a: LeaseManager,
    b: LeaseManager,
    current: Option<Current>,
    first: Attempt,
    second: Attempt,
    t0: u64,
    t1: u64,
    etag: String,
    a1: LeaseManager,
    b1: LeaseManager,
)
    requires
        acquire_decided(a, current, t0, Ok(first), a1),
        acquire_decided(
            b,
            Some(Current { lease: first.lease, etag }),
            t1,
            Ok(second),
            b1,
        ),
        first.lease.fencing_token < u64::MAX,
    ensures
        second.lease.fencing_token == first.lease.fencing_token + 1,
        second.expected matches Some(t) && t@ == etag@,
{
}

} // verus!
