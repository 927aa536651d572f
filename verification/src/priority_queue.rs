//! The priority-queue variant: timers ordered by absolute deadline. The
//! store is kept in non-decreasing deadline order, so a tick pops timers
//! from the front while their deadlines have passed and stops at the first
//! one still in the future.

use vstd::prelude::*;

verus! {

/// A pending one-shot timer: a caller-chosen identity and the absolute
/// time, in seconds, at which it expires.
#[derive(Clone, Copy)]
pub struct Timer {
    pub id: u64,
    pub expires_at: u64,
}

/// The registry state: the pending timers in non-decreasing deadline
/// order.
pub struct Registry {
    timers: Vec<Timer>,
}

/// The timers stand in non-decreasing deadline order.
pub open spec fn sorted_by_deadline(s: Seq<Timer>) -> bool {
    forall|i: int, j: int|
        #![trigger s[i], s[j]]
        0 <= i < j < s.len() ==> s[i].expires_at <= s[j].expires_at
}

/// Where a timer due at `d` is filed: before the first timer with a later
/// deadline, so equal deadlines keep arrival order.
pub open spec fn insert_position(s: Seq<Timer>, d: u64) -> int
    decreases s.len(),
{
    if s.len() == 0 {
        0
    } else if s.first().expires_at > d {
        0
    } else {
        1 + insert_position(s.drop_first(), d)
    }
}

/// How many timers at the front are due at or before `now`.
pub open spec fn num_due(s: Seq<Timer>, now: u64) -> int
    decreases s.len(),
{
    if s.len() == 0 {
        0
    } else if s.first().expires_at > now {
        0
    } else {
        1 + num_due(s.drop_first(), now)
    }
}

/// The list without any timer carrying `id`, in stored order.
pub open spec fn remove_id(s: Seq<Timer>, id: u64) -> Seq<Timer>
    decreases s.len(),
{
    if s.len() == 0 {
        s
    } else if s.last().id == id {
        remove_id(s.drop_last(), id)
    } else {
        remove_id(s.drop_last(), id).push(s.last())
    }
}

impl Registry {
    /// The pending timers, in non-decreasing deadline order.
    pub closed spec fn timers_seq(&self) -> Seq<Timer> {
        self.timers@
    }

    /// The registry's invariant: the store is ordered by deadline.
    pub open spec fn wf(&self) -> bool {
        sorted_by_deadline(self.timers_seq())
    }

    /// An empty registry: no timers pending.
    pub fn new() -> (r: Registry)
        ensures
            r.wf(),
            r.timers_seq() == Seq::<Timer>::empty(),
    {
        Registry { timers: Vec::new() }
    }

    /// Registers a one-shot timer under a caller-chosen identifier, to fire
    /// once the clock reaches `expires_at`. The timer is filed in deadline
    /// order, after any timer already due at the same time.
    pub fn start_timer(&mut self, id: u64, expires_at: u64)
        requires
            old(self).wf(),
        ensures
            final(self).wf(),
            ({
                let t = Timer { id, expires_at };
                final(self).timers_seq() == old(self).timers_seq().insert(
                    insert_position(old(self).timers_seq(), expires_at),
                    t,
                )
            }),
    {
        let ghost s = self.timers@;
        let n = self.timers.len();
        let mut pos: usize = 0;
        while pos < n && self.timers[pos].expires_at <= expires_at
            invariant
                s == old(self).timers_seq(),
                self.timers@ == s,
                n == s.len(),
                0 <= pos <= n,
                forall|j: int| #![trigger s[j]] 0 <= j < pos ==> s[j].expires_at <= expires_at,
            decreases n - pos,
        {
            pos += 1;
        }
        proof {
            lemma_insert_position_at(s, expires_at, pos as int);
        }
        let timer = Timer { id, expires_at };
        self.timers.insert(pos, timer);
        proof {
            lemma_sorted_after_insert(s, expires_at, pos as int, timer);
        }
    }

    /// Cancels every pending timer registered under `id`; a no-op when no
    /// pending timer carries that identifier.
    pub fn stop_timer(&mut self, id: u64)
        requires
            old(self).wf(),
        ensures
            final(self).wf(),
            final(self).timers_seq() == remove_id(old(self).timers_seq(), id),
    {
        let ghost s = self.timers@;
        let mut kept: Vec<Timer> = Vec::new();
        let n = self.timers.len();
        let mut i: usize = 0;
        while i < n
            invariant
                self.timers@ == s,
                n == s.len(),
                0 <= i <= n,
                kept@ == remove_id(s.take(i as int), id),
            decreases n - i,
        {
            let t = self.timers[i];
            proof {
                assert(s.take(i + 1).drop_last() =~= s.take(i as int));
                assert(s.take(i + 1).last() == s[i as int]);
            }
            if t.id != id {
                kept.push(t);
            }
            i += 1;
        }
        proof {
            assert(s.take(n as int) =~= s);
            lemma_remove_id_sorted(s, id);
        }
        self.timers = kept;
    }

    /// How many timers are pending.
    pub fn pending_count(&self) -> (n: usize)
        ensures
            n == self.timers_seq().len(),
    {
        self.timers.len()
    }

    /// One tick of the clock, at absolute time `current_time`: every timer
    /// due at or before it fires, earliest deadline first, and is dropped
    /// from the store; every timer left is still in the future. Returns the
    /// fired identifiers.
    pub fn expire_timers(&mut self, current_time: u64) -> (fired: Vec<u64>)
        requires
            old(self).wf(),
        ensures
            final(self).wf(),
            ({
                let k = num_due(old(self).timers_seq(), current_time);
                &&& fired@ == old(self).timers_seq().take(k).map_values(|t: Timer| t.id)
                &&& final(self).timers_seq() == old(self).timers_seq().skip(k)
            }),
            forall|j: int|
                #![trigger final(self).timers_seq()[j]]
                0 <= j < final(self).timers_seq().len() ==> final(self).timers_seq()[j].expires_at
                    > current_time,
    {
        let ghost s = self.timers@;
        let mut fired: Vec<u64> = Vec::new();
        let mut k: usize = 0;
        let n = self.timers.len();
        while k < n && self.timers[k].expires_at <= current_time
            invariant
                s == old(self).timers_seq(),
                self.timers@ == s,
                n == s.len(),
                0 <= k <= n,
                forall|j: int| #![trigger s[j]] 0 <= j < k ==> s[j].expires_at <= current_time,
                fired@ == s.take(k as int).map_values(|t: Timer| t.id),
            decreases n - k,
        {
            let id = self.timers[k].id;
            fired.push(id);
            proof {
                assert(s.take(k + 1).map_values(|t: Timer| t.id) =~= s.take(k as int).map_values(
                    |t: Timer| t.id,
                ).push(s[k as int].id));
            }
            k += 1;
        }
        proof {
            lemma_num_due_at(s, current_time, k as int);
        }

        let mut kept: Vec<Timer> = Vec::new();
        let mut j: usize = k;
        while j < n
            invariant
                self.timers@ == s,
                n == s.len(),
                k <= j <= n,
                kept@ == s.subrange(k as int, j as int),
            decreases n - j,
        {
            let t = self.timers[j];
            kept.push(t);
            proof {
                assert(s.subrange(k as int, j + 1) =~= s.subrange(k as int, j as int).push(
                    s[j as int],
                ));
            }
            j += 1;
        }
        proof {
            assert(kept@ =~= s.skip(k as int));
            if k < n {
                assert(s[k as int].expires_at > current_time);
            }
            assert forall|jj: int| #![trigger s.skip(k as int)[jj]]
                0 <= jj < s.skip(k as int).len() implies s.skip(k as int)[jj].expires_at
                > current_time by {
                assert(s.skip(k as int)[jj] == s[jj + k]);
                if jj > 0 {
                    assert(s[k as int].expires_at <= s[jj + k].expires_at);
                }
            }
            assert forall|x: int, y: int|
                #![trigger s.skip(k as int)[x], s.skip(k as int)[y]]
                0 <= x < y < s.skip(k as int).len() implies s.skip(k as int)[x].expires_at
                <= s.skip(k as int)[y].expires_at by {
                assert(s[x + k].expires_at <= s[y + k].expires_at);
            }
        }
        self.timers = kept;
        fired
    }
}

proof fn lemma_insert_position_at(s: Seq<Timer>, d: u64, pos: int)
    requires
        0 <= pos <= s.len(),
        forall|j: int| #![trigger s[j]] 0 <= j < pos ==> s[j].expires_at <= d,
        pos < s.len() ==> s[pos].expires_at > d,
    ensures
        insert_position(s, d) == pos,
    decreases pos,
{
    if pos > 0 {
        lemma_insert_position_at(s.drop_first(), d, pos - 1);
    }
}

proof fn lemma_num_due_at(s: Seq<Timer>, now: u64, k: int)
    requires
        0 <= k <= s.len(),
        forall|j: int| #![trigger s[j]] 0 <= j < k ==> s[j].expires_at <= now,
        k < s.len() ==> s[k].expires_at > now,
    ensures
        num_due(s, now) == k,
    decreases k,
{
    if k > 0 {
        lemma_num_due_at(s.drop_first(), now, k - 1);
    }
}

proof fn lemma_sorted_after_insert(s: Seq<Timer>, d: u64, pos: int, t: Timer)
    requires
        sorted_by_deadline(s),
        t.expires_at == d,
        0 <= pos <= s.len(),
        forall|j: int| #![trigger s[j]] 0 <= j < pos ==> s[j].expires_at <= d,
        pos < s.len() ==> s[pos].expires_at > d,
    ensures
        sorted_by_deadline(s.insert(pos, t)),
{
    let ns = s.insert(pos, t);
    assert forall|i: int, j: int|
        #![trigger ns[i], ns[j]]
        0 <= i < j < ns.len() implies ns[i].expires_at <= ns[j].expires_at by {
        let oi: int = if i < pos {
            i
        } else {
            i - 1
        };
        let oj: int = if j < pos {
            j
        } else {
            j - 1
        };
        if i == pos {
            assert(ns[j] == s[j - 1]);
            assert(s[pos].expires_at <= s[j - 1].expires_at);
        } else if j == pos {
            assert(ns[i] == s[i]);
        } else {
            assert(ns[i] == s[oi]);
            assert(ns[j] == s[oj]);
        }
    }
}

/// Every timer kept by `remove_id` comes from the list, in order, so the
/// deadline order survives.
proof fn lemma_remove_id_sorted(s: Seq<Timer>, id: u64)
    requires
        sorted_by_deadline(s),
    ensures
        sorted_by_deadline(remove_id(s, id)),
        forall|k: int| #![trigger remove_id(s, id)[k]]
            0 <= k < remove_id(s, id).len() ==> exists|x: int|
                0 <= x < s.len() && s[x] == remove_id(s, id)[k],
    decreases s.len(),
{
    if s.len() > 0 {
        assert(sorted_by_deadline(s.drop_last())) by {
            assert forall|i: int, j: int|
                #![trigger s.drop_last()[i], s.drop_last()[j]]
                0 <= i < j < s.drop_last().len() implies s.drop_last()[i].expires_at
                <= s.drop_last()[j].expires_at by {
                assert(s[i].expires_at <= s[j].expires_at);
            }
        }
        lemma_remove_id_sorted(s.drop_last(), id);
        let r = remove_id(s, id);
        let rr = remove_id(s.drop_last(), id);
        assert forall|k: int| #![trigger r[k]] 0 <= k < r.len() implies exists|x: int|
            0 <= x < s.len() && s[x] == r[k] by {
            if s.last().id != id && k == r.len() - 1 {
                assert(s[s.len() - 1] == r[k]);
            } else {
                assert(r[k] == rr[k]);
                let x0 = choose|x0: int|
                    0 <= x0 < s.drop_last().len() && s.drop_last()[x0] == rr[k];
                assert(s[x0] == r[k]);
            }
        }
        assert forall|i: int, j: int|
            #![trigger r[i], r[j]]
            0 <= i < j < r.len() implies r[i].expires_at <= r[j].expires_at by {
            if s.last().id != id && j == r.len() - 1 {
                assert(r[i] == rr[i]);
                let x = choose|x: int| 0 <= x < s.drop_last().len() && s.drop_last()[x] == rr[i];
                assert(s[x].expires_at <= s[s.len() - 1].expires_at);
            } else {
                assert(r[i] == rr[i]);
                assert(r[j] == rr[j]);
            }
        }
    }
}

/// No timer fires early and none late: the timers due at or before the
/// tick's time are exactly the fired prefix, and everything after it is
/// still in the future.
pub proof fn lemma_due_split(s: Seq<Timer>, now: u64)
    requires
        sorted_by_deadline(s),
    ensures
        0 <= num_due(s, now) <= s.len(),
        forall|j: int| #![trigger s[j]] 0 <= j < num_due(s, now) ==> s[j].expires_at <= now,
        forall|j: int| #![trigger s[j]] num_due(s, now) <= j < s.len() ==> s[j].expires_at > now,
    decreases s.len(),
{
    if s.len() > 0 {
        let k = num_due(s, now);
        if s.first().expires_at > now {
            assert forall|j: int| #![trigger s[j]] 0 <= j < s.len() implies s[j].expires_at
                > now by {
                if j > 0 {
                    assert(s[0].expires_at <= s[j].expires_at);
                }
            }
        } else {
            assert(sorted_by_deadline(s.drop_first())) by {
                assert forall|i: int, j: int|
                    #![trigger s.drop_first()[i], s.drop_first()[j]]
                    0 <= i < j < s.drop_first().len() implies s.drop_first()[i].expires_at
                    <= s.drop_first()[j].expires_at by {
                    assert(s[i + 1].expires_at <= s[j + 1].expires_at);
                }
            }
            lemma_due_split(s.drop_first(), now);
            assert forall|j: int| #![trigger s[j]] 0 <= j < k implies s[j].expires_at <= now by {
                if j > 0 {
                    assert(s.drop_first()[j - 1].expires_at <= now);
                }
            }
            assert forall|j: int| #![trigger s[j]] k <= j < s.len() implies s[j].expires_at
                > now by {
                assert(s.drop_first()[j - 1].expires_at > now);
            }
        }
    }
}

/// At most once, per tick: a tick splits the store exactly into the fired
/// prefix and the kept suffix; no timer is lost or duplicated.
pub proof fn lemma_tick_partitions(s: Seq<Timer>, now: u64)
    ensures
        0 <= num_due(s, now) <= s.len() ==> s == s.take(num_due(s, now)) + s.skip(
            num_due(s, now),
        ),
{
    if 0 <= num_due(s, now) <= s.len() {
        assert(s =~= s.take(num_due(s, now)) + s.skip(num_due(s, now)));
    }
}

/// No fire after cancel: cancellation leaves no timer with the identifier
/// in the store, so no later tick can fire it.
pub proof fn lemma_no_fire_after_cancel(s: Seq<Timer>, id: u64)
    ensures
        forall|j: int|
            #![trigger remove_id(s, id)[j]]
            0 <= j < remove_id(s, id).len() ==> remove_id(s, id)[j].id != id,
    decreases s.len(),
{
    if s.len() > 0 {
        lemma_no_fire_after_cancel(s.drop_last(), id);
        let r = remove_id(s, id);
        let rr = remove_id(s.drop_last(), id);
        assert forall|j: int| #![trigger r[j]] 0 <= j < r.len() implies r[j].id != id by {
            if s.last().id != id && j == r.len() - 1 {
                assert(r[j] == s.last());
            } else {
                assert(r[j] == rr[j]);
            }
        }
    }
}

proof fn lemma_remove_id_absent(s: Seq<Timer>, id: u64)
    requires
        forall|j: int| #![trigger s[j]] 0 <= j < s.len() ==> s[j].id != id,
    ensures
        remove_id(s, id) == s,
    decreases s.len(),
{
    if s.len() > 0 {
        lemma_remove_id_absent(s.drop_last(), id);
        assert(remove_id(s, id) == s.drop_last().push(s.last()));
        assert(s.drop_last().push(s.last()) =~= s);
    }
}

/// Round trip: registering a timer and cancelling it at once restores the
/// store, provided no pending timer already carries the identifier.
pub proof fn lemma_stop_undoes_start(s: Seq<Timer>, t: Timer, pos: int)
    requires
        0 <= pos <= s.len(),
        forall|j: int| #![trigger s[j]] 0 <= j < s.len() ==> s[j].id != t.id,
    ensures
        remove_id(s.insert(pos, t), t.id) == s,
    decreases s.len(),
{
    let ins = s.insert(pos, t);
    if pos == s.len() {
        assert(ins =~= s.push(t));
        assert(s.push(t).drop_last() =~= s);
        lemma_remove_id_absent(s, t.id);
    } else {
        assert(ins.last() == s.last());
        assert(ins.drop_last() =~= s.drop_last().insert(pos, t));
        assert forall|j: int| #![trigger s.drop_last()[j]]
            0 <= j < s.drop_last().len() implies s.drop_last()[j].id != t.id by {
            assert(s.drop_last()[j] == s[j]);
        }
        lemma_stop_undoes_start(s.drop_last(), t, pos);
        assert(remove_id(ins, t.id) == s.drop_last().push(s.last()));
        assert(s.drop_last().push(s.last()) =~= s);
    }
}

} // verus!
