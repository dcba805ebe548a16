use std::time::Instant;

use vstd::hash_map::StringHashMap;
use vstd::prelude::*;

verus! {

#[verifier::external_type_specification]
#[verifier::external_body]
pub struct ExInstant(Instant);

/// Relies on Instant::now: a reading of the monotonic clock.
#[verifier::external_body]
fn clock_now() -> Instant {
    Instant::now()
}

/// Relies on Instant::elapsed: the time passed since `start` on the monotonic
/// clock, in whole milliseconds.
#[verifier::external_body]
fn millis_since(start: &Instant) -> u64 {
    start.elapsed().as_millis() as u64
}

/// A stored value: its bytes, the instant (in milliseconds on the database's
/// clock) at which it expires if any, and how many writes the key has seen.
#[derive(Debug)]
pub struct Entry {
    pub value: Vec<u8>,
    pub expires_at: Option<u64>,
    pub version: usize,
}

/// A pending expiry: the key, the version of the write that set it, and when
/// it falls due.
#[derive(Debug)]
struct ScheduledExpiry {
    expires_at: u64,
    version: usize,
    key: String,
}

/// A key-value store with per-key expiry. Expired keys read as absent at
/// once; they are removed from the map by `delete_expired_keys`, which works
/// through a schedule of pending expiries, earliest first.
pub struct Database {
    store: StringHashMap<Entry>,
    expiry_queue: Vec<ScheduledExpiry>,
    started: Instant,
}

/// A pending expiry as seen in contracts: (due instant, version, key).
pub type Expiry = (u64, usize, Seq<char>);

/// The entry is not past its expiry at instant `now`.
pub open spec fn is_live(e: Entry, now: u64) -> bool {
    match e.expires_at {
        Some(t) => now < t,
        None => true,
    }
}

/// What a read of key `k` at instant `now` sees in `m`.
pub open spec fn lookup(m: Map<Seq<char>, Entry>, k: Seq<char>, now: u64) -> Option<Entry> {
    if m.contains_key(k) && is_live(m[k], now) {
        Some(m[k])
    } else {
        None
    }
}

/// The expiry instant of a write at `now` with a time to live of `ttl`
/// seconds; none when there is no time to live or the instant cannot be
/// represented.
pub open spec fn expiry_of(now: u64, ttl: Option<u64>) -> Option<u64> {
    match ttl {
        Some(s) => if now + s * 1000 <= u64::MAX {
            Some((now + s * 1000) as u64)
        } else {
            None
        },
        None => None,
    }
}

/// The version after `v`, wrapping around.
pub open spec fn next_version(v: usize) -> usize {
    if v == usize::MAX {
        0
    } else {
        (v + 1) as usize
    }
}

/// The version that the key's entry holds in `m`, or 0 when it has none.
pub open spec fn version_in(m: Map<Seq<char>, Entry>, k: Seq<char>) -> usize {
    if m.contains_key(k) {
        m[k].version
    } else {
        0
    }
}

/// `after` is `before` with key `k` written with `value` at instant `now`.
pub open spec fn written(
    before: Map<Seq<char>, Entry>,
    after: Map<Seq<char>, Entry>,
    k: Seq<char>,
    value: Seq<u8>,
    ttl: Option<u64>,
    now: u64,
) -> bool {
    &&& after.dom() == before.dom().insert(k)
    &&& forall|j: Seq<char>| j != k && #[trigger] before.contains_key(j) ==> after[j] == before[j]
    &&& after[k].value@ == value
    &&& after[k].expires_at == expiry_of(now, ttl)
    &&& after[k].version == next_version(version_in(before, k))
}

/// `x` is the live expiry for its key in `m`: the key's entry has the same
/// version and the same expiry instant.
pub open spec fn authoritative(m: Map<Seq<char>, Entry>, x: Expiry) -> bool {
    &&& m.contains_key(x.2)
    &&& m[x.2].version == x.1
    &&& m[x.2].expires_at == Some(x.0)
}

/// Some expiry among `xs` is authoritative for key `k` in `m`.
pub open spec fn removed_by(m: Map<Seq<char>, Entry>, xs: Seq<Expiry>, k: Seq<char>) -> bool {
    exists|j: int| 0 <= j < xs.len() && (#[trigger] xs[j]).2 == k && authoritative(m, xs[j])
}

/// How many expiries a reclamation pass with `budget` takes from the end of
/// the schedule `q` at instant `now`: due ones, until the budget runs out.
pub open spec fn popped(q: Seq<Expiry>, now: u64, budget: nat) -> nat
    decreases budget,
{
    if budget == 0 || q.len() == 0 || q.last().0 > now {
        0
    } else {
        1 + popped(q.drop_last(), now, (budget - 1) as nat)
    }
}

/// The time from `now` until the last (earliest-due) expiry of `q` falls
/// due, zero when it is already due, none when `q` is empty.
pub open spec fn until_next(q: Seq<Expiry>, now: u64) -> Option<u64> {
    if q.len() == 0 {
        None
    } else if q.last().0 > now {
        Some((q.last().0 - now) as u64)
    } else {
        Some(0)
    }
}

/// The schedule is ordered by due instant, latest first.
pub open spec fn sorted_desc(q: Seq<Expiry>) -> bool {
    forall|i: int, j: int| 0 <= i < j < q.len() ==> (#[trigger] q[i]).0 >= (#[trigger] q[j]).0
}

impl Database {
    /// The key-to-entry mapping.
    pub closed spec fn entries(&self) -> Map<Seq<char>, Entry> {
        self.store@
    }

    /// The pending expiries; the earliest-due is last.
    pub closed spec fn schedule(&self) -> Seq<Expiry> {
        self.expiry_queue@.map_values(|x: ScheduledExpiry| (x.expires_at, x.version, x.key@))
    }

    /// The schedule is ordered by due instant.
    pub open spec fn wf(&self) -> bool {
        sorted_desc(self.schedule())
    }

    /// A write of `value` to key `k` at instant `now` took `before` to `after`:
    /// the entry is replaced with a new version, and an expiry, if any, is
    /// added to the schedule in due order.
    pub open spec fn set_done(
        before: &Database,
        after: &Database,
        k: Seq<char>,
        value: Seq<u8>,
        ttl: Option<u64>,
        now: u64,
    ) -> bool {
        &&& written(before.entries(), after.entries(), k, value, ttl, now)
        &&& match expiry_of(now, ttl) {
            Some(t) => exists|p: int|
                0 <= p <= before.schedule().len() && after.schedule() == before.schedule().insert(
                    p,
                    (t, next_version(version_in(before.entries(), k)), k),
                ),
            None => after.schedule() == before.schedule(),
        }
    }

    /// A reclamation pass with `budget` at instant `now` took `before` to
    /// `after`: it popped the due expiries it had budget for, and removed each
    /// key for which one of them was authoritative.
    pub open spec fn reclaimed(before: &Database, after: &Database, budget: nat, now: u64) -> bool {
        let q = before.schedule();
        let k = popped(q, now, budget);
        &&& after.schedule() == q.take(q.len() - k)
        &&& forall|key: Seq<char>| #[trigger]
            after.entries().contains_key(key) <==> before.entries().contains_key(key)
                && !removed_by(before.entries(), q.skip(q.len() - k), key)
        &&& forall|key: Seq<char>| #[trigger]
            after.entries().contains_key(key) ==> after.entries()[key] == before.entries()[key]
    }
}

impl Database {
    /// An empty database whose clock starts now.
    pub fn new() -> (r: Self)
        ensures
            r.wf(),
            r.entries() == Map::<Seq<char>, Entry>::empty(),
            r.schedule().len() == 0,
    {
        let r = Database { store: StringHashMap::new(), expiry_queue: Vec::new(), started: clock_now() };
        assert(r.schedule().len() == 0);
        r
    }

    /// The instant `now` on this database's clock, in milliseconds since it
    /// was created.
    pub fn now_millis(&self) -> u64 {
        millis_since(&self.started)
    }

    /// The entry under `key` as a read at instant `now` sees it: absent when
    /// missing or expired. An expired entry stays in the map until reclaimed.
    pub fn get_at(&self, key: &str, now: u64) -> (r: Option<&Entry>)
        ensures
            match r {
                Some(e) => lookup(self.entries(), key@, now) == Some(*e),
                None => lookup(self.entries(), key@, now) is None,
            },
    {
        match self.store.get(key) {
            Some(e) => {
                let expired = match e.expires_at {
                    Some(t) => t <= now,
                    None => false,
                };
                if expired {
                    None
                } else {
                    Some(e)
                }
            },
            None => None,
        }
    }

    /// The entry under `key` as a read now sees it.
    pub fn get(&self, key: &str) -> (r: Option<&Entry>)
        ensures
            exists|now: u64|
                match r {
                    Some(e) => lookup(self.entries(), key@, now) == Some(*e),
                    None => lookup(self.entries(), key@, now) is None,
                },
    {
        let now = self.now_millis();
        self.get_at(key, now)
    }

    /// Writes `value` under `key` at instant `now`, with a time to live of
    /// `ttl` seconds if given. The key's version goes up by one; an expiry is
    /// scheduled when the write has one, and earlier expiries of the key are
    /// left in the schedule, where they no longer match.
    pub fn set_at(&mut self, key: &str, value: &[u8], ttl: Option<u64>, now: u64)
        requires
            old(self).wf(),
        ensures
            final(self).wf(),
            Database::set_done(old(self), final(self), key@, value@, ttl, now),
    {
        let previous = match self.store.get(key) {
            Some(e) => e.version,
            None => 0,
        };
        let version = if previous == usize::MAX { 0 } else { previous + 1 };
        let expires_at = match ttl {
            Some(secs) => match secs.checked_mul(1000) {
                Some(ms) => now.checked_add(ms),
                None => None,
            },
            None => None,
        };
        proof {
            if let Some(secs) = ttl {
                if now + secs * 1000 <= u64::MAX {
                    assert(secs * 1000 <= u64::MAX) by (nonlinear_arith)
                        requires now + secs * 1000 <= u64::MAX, now >= 0;
                }
            }
        }
        let entry = Entry { value: vstd::slice::slice_to_vec(value), expires_at, version };
        self.store.insert(key.to_string(), entry);
        if let Some(t) = expires_at {
            self.schedule_expiry(ScheduledExpiry { expires_at: t, version, key: key.to_string() });
        }
    }

    /// Adds `x` to the schedule, keeping it ordered by due instant; among
    /// expiries due at the same instant the earlier-added comes out first.
    fn schedule_expiry(&mut self, x: ScheduledExpiry)
        requires
            old(self).wf(),
        ensures
            final(self).wf(),
            final(self).store@ == old(self).store@,
            exists|p: int|
                0 <= p <= old(self).schedule().len() && final(self).schedule()
                    == old(self).schedule().insert(p, (x.expires_at, x.version, x.key@)),
    {
        let ghost q = self.schedule();
        let n = self.expiry_queue.len();
        let mut p: usize = 0;
        while p < n && self.expiry_queue[p].expires_at > x.expires_at
            invariant
                n == self.expiry_queue@.len(),
                q == self.schedule(),
                sorted_desc(q),
                p <= n,
                forall|i: int| 0 <= i < p ==> (#[trigger] q[i]).0 > x.expires_at,
            decreases n - p,
        {
            p = p + 1;
        }
        let ghost item = (x.expires_at, x.version, x.key@);
        self.expiry_queue.insert(p, x);
        proof {
            let q2 = self.schedule();
            assert(q2 =~= q.insert(p as int, item));
            assert(p < n ==> q[p as int].0 <= item.0);
            assert forall|i: int, j: int| 0 <= i < j < q2.len() implies (#[trigger] q2[i]).0 >= (#[trigger] q2[j]).0 by {
                if j < p {
                } else if j == p {
                    assert(q2[i] == q[i]);
                } else if i < p {
                    assert(q2[i] == q[i]);
                    assert(q2[j] == q[j - 1]);
                } else if i == p {
                    assert(q2[j] == q[j - 1]);
                    assert(q[p as int].0 >= q[j - 1].0);
                } else {
                    assert(q2[i] == q[i - 1]);
                    assert(q2[j] == q[j - 1]);
                }
            }
        }
    }

    /// Writes `value` under `key` now, with a time to live of `ttl` seconds
    /// if given.
    pub fn set(&mut self, key: &str, value: &[u8], ttl: Option<u64>)
        requires
            old(self).wf(),
        ensures
            final(self).wf(),
            exists|now: u64| Database::set_done(old(self), final(self), key@, value@, ttl, now),
    {
        let now = self.now_millis();
        self.set_at(key, value, ttl, now);
    }

    /// Removes `key` outright; its scheduled expiries stay behind and no
    /// longer match.
    pub fn delete(&mut self, key: &str)
        requires
            old(self).wf(),
        ensures
            final(self).wf(),
            final(self).entries() == old(self).entries().remove(key@),
            final(self).schedule() == old(self).schedule(),
    {
        self.store.remove(key);
    }

    /// How long after instant `now` the earliest scheduled expiry falls due,
    /// in milliseconds, and zero when it is already due; none when nothing is
    /// scheduled.
    pub fn time_until_next_expiration_at(&self, now: u64) -> (r: Option<u64>)
        ensures
            r == until_next(self.schedule(), now),
    {
        let n = self.expiry_queue.len();
        if n == 0 {
            None
        } else {
            let when = self.expiry_queue[n - 1].expires_at;
            Some(if when > now { when - now } else { 0 })
        }
    }

    /// How long from now until the earliest scheduled expiry falls due, in
    /// milliseconds; none when nothing is scheduled.
    pub fn time_until_next_expiration(&self) -> (r: Option<u64>)
        ensures
            exists|now: u64| r == until_next(self.schedule(), now),
    {
        let now = self.now_millis();
        self.time_until_next_expiration_at(now)
    }

    /// Reclaims expired keys at instant `now`: takes due expiries, earliest
    /// first, up to `budget` of them, and removes a key only when the expiry
    /// taken is authoritative for it (same version and same instant as the
    /// key's entry). Stops early at the first expiry not yet due.
    pub fn delete_expired_keys_at(&mut self, budget: usize, now: u64)
        requires
            old(self).wf(),
        ensures
            final(self).wf(),
            Database::reclaimed(old(self), final(self), budget as nat, now),
    {
        let ghost q0 = self.schedule();
        let ghost m0 = self.entries();
        let ghost n0 = q0.len();
        let mut count: usize = 0;
        let mut done = false;
        proof {
            assert(q0.take(n0 - 0) =~= q0);
        }
        while count < budget && !done
            invariant
                count <= budget,
                count <= n0,
                n0 == q0.len(),
                sorted_desc(q0),
                self.schedule() == q0.take(n0 - count),
                popped(q0, now, budget as nat) == count + popped(
                    self.schedule(),
                    now,
                    (budget - count) as nat,
                ),
                done ==> popped(self.schedule(), now, (budget - count) as nat) == 0,
                forall|key: Seq<char>| #[trigger]
                    self.entries().contains_key(key) <==> m0.contains_key(key) && !removed_by(
                        m0,
                        q0.skip(n0 - count),
                        key,
                    ),
                forall|key: Seq<char>| #[trigger]
                    self.entries().contains_key(key) ==> self.entries()[key] == m0[key],
            decreases budget - count, if done { 0int } else { 1int },
        {
            let len = self.expiry_queue.len();
            if len == 0 || self.expiry_queue[len - 1].expires_at > now {
                done = true;
            } else {
                let ghost cur = self.schedule();
                let ghost before = self.entries();
                let x = self.expiry_queue.pop().unwrap();
                let ghost xv = (x.expires_at, x.version, x.key@);
                proof {
                    assert(xv == cur.last());
                    assert(cur.drop_last() =~= q0.take(n0 - count - 1));
                    assert(self.schedule() =~= cur.drop_last());
                    assert(q0.skip(n0 - count - 1) =~= seq![xv] + q0.skip(n0 - count));
                }
                let stale = match self.store.get(x.key.as_str()) {
                    Some(e) => e.version != x.version || match e.expires_at {
                        Some(t) => t != x.expires_at,
                        None => true,
                    },
                    None => true,
                };
                if !stale {
                    self.store.remove(x.key.as_str());
                }
                proof {
                    let popped_now = q0.skip(n0 - count - 1);
                    let popped_before = q0.skip(n0 - count);
                    assert(popped_now[0] == xv);
                    assert forall|key: Seq<char>| #[trigger]
                        self.entries().contains_key(key) <==> m0.contains_key(key) && !removed_by(
                            m0,
                            popped_now,
                            key,
                        ) by {
                        if removed_by(m0, popped_before, key) {
                            let j = choose|j: int| 0 <= j < popped_before.len() && (#[trigger] popped_before[j]).2 == key && authoritative(m0, popped_before[j]);
                            assert(popped_now[j + 1] == popped_before[j]);
                        }
                        if removed_by(m0, popped_now, key) && !removed_by(m0, popped_before, key) {
                            let j = choose|j: int| 0 <= j < popped_now.len() && (#[trigger] popped_now[j]).2 == key && authoritative(m0, popped_now[j]);
                            if j > 0 {
                                assert(popped_before[j - 1] == popped_now[j]);
                            }
                        }
                        if key == xv.2 && authoritative(m0, xv) && before.contains_key(key) {
                            assert(before[key] == m0[key]);
                        }
                    }
                }
                count = count + 1;
            }
        }
        proof {
            assert(popped(self.schedule(), now, (budget - count) as nat) == 0);
        }
    }

    /// Reclaims expired keys now, taking at most `budget` due expiries.
    pub fn delete_expired_keys(&mut self, budget: usize)
        requires
            old(self).wf(),
        ensures
            final(self).wf(),
            exists|now: u64| Database::reclaimed(old(self), final(self), budget as nat, now),
    {
        let now = self.now_millis();
        self.delete_expired_keys_at(budget, now);
    }
}

/// A write with a time to live of one second is seen by a read at the same
/// instant, and is absent to every read from one second later on, whether or
/// not a reclamation pass has run.
pub proof fn lemma_ttl_expiry(
    before: &Database,
    after: &Database,
    key: Seq<char>,
    value: Seq<u8>,
    now: u64,
    later: u64,
)
    requires
        Database::set_done(before, after, key, value, Some(1), now),
        now + 1000 <= u64::MAX,
    ensures
        lookup(after.entries(), key, now) matches Some(e) && e.value@ == value,
        later >= now + 1000 ==> lookup(after.entries(), key, later) is None,
{
    assert(after.entries().contains_key(key));
}

/// A key written with a time to live and then rewritten without one is not
/// removed by a reclamation pass, however late it runs: the earlier expiry no
/// longer matches the key's entry, and reads still see the second value.
pub proof fn lemma_stale_schedule(
    db0: &Database,
    db1: &Database,
    db2: &Database,
    db3: &Database,
    key: Seq<char>,
    v1: Seq<u8>,
    v2: Seq<u8>,
    ttl: u64,
    t0: u64,
    t1: u64,
    t2: u64,
    budget: nat,
)
    requires
        Database::set_done(db0, db1, key, v1, Some(ttl), t0),
        Database::set_done(db1, db2, key, v2, None, t1),
        Database::reclaimed(db2, db3, budget, t2),
    ensures
        lookup(db3.entries(), key, t2) matches Some(e) && e.value@ == v2,
{
    let q = db2.schedule();
    let k = popped(q, t2, budget);
    assert(db2.entries().contains_key(key));
    if removed_by(db2.entries(), q.skip(q.len() - k), key) {
        let j = choose|j: int| 0 <= j < q.skip(q.len() - k).len() && (#[trigger] q.skip(q.len() - k)[j]).2 == key && authoritative(db2.entries(), q.skip(q.len() - k)[j]);
        assert(db2.entries()[key].expires_at is None);
    }
    assert(db3.entries().contains_key(key));
}

proof fn lemma_popped_all_due(q: Seq<Expiry>, now: u64, budget: nat)
    requires
        forall|j: int| 0 <= j < q.len() ==> (#[trigger] q[j]).0 <= now,
    ensures
        popped(q, now, budget) == if budget < q.len() { budget } else { q.len() },
    decreases budget,
{
    if budget > 0 && q.len() > 0 {
        assert forall|j: int| 0 <= j < q.drop_last().len() implies (#[trigger] q.drop_last()[j]).0 <= now by {
            assert(q.drop_last()[j] == q[j]);
        }
        lemma_popped_all_due(q.drop_last(), now, (budget - 1) as nat);
    }
}

/// With every scheduled expiry due and a budget smaller than their number, a
/// reclamation pass takes exactly `budget` of them, the earliest-due, and
/// removes each key for which one of those was authoritative; the others
/// stay scheduled.
pub proof fn lemma_reclamation_budget(before: &Database, after: &Database, budget: nat, now: u64)
    requires
        before.wf(),
        Database::reclaimed(before, after, budget, now),
        forall|j: int| 0 <= j < before.schedule().len() ==> (#[trigger] before.schedule()[j]).0 <= now,
        budget < before.schedule().len(),
    ensures
        after.schedule() == before.schedule().take(before.schedule().len() - budget),
        forall|i: int, j: int|
            0 <= i < before.schedule().len() - budget <= j < before.schedule().len() ==> (
            #[trigger] before.schedule()[j]).0 <= (#[trigger] before.schedule()[i]).0,
        forall|j: int|
            before.schedule().len() - budget <= j < before.schedule().len() && authoritative(
                before.entries(),
                #[trigger] before.schedule()[j],
            ) ==> !after.entries().contains_key(before.schedule()[j].2),
{
    let q = before.schedule();
    lemma_popped_all_due(q, now, budget);
    assert forall|j: int|
        q.len() - budget <= j < q.len() && authoritative(before.entries(), #[trigger] q[j])
        implies !after.entries().contains_key(q[j].2) by {
        let s = q.skip(q.len() - budget);
        assert(s[j - (q.len() - budget)] == q[j]);
        assert(removed_by(before.entries(), s, q[j].2));
    }
}

} // verus!
