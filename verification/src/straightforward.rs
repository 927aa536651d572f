//! The simplest variant: a flat list of pending timers. Every tick walks
//! the whole list, decrements each timer's remaining interval by one second,
//! and fires the timers whose interval has run out.

use vstd::prelude::*;

verus! {

/// A pending one-shot timer: a caller-chosen identity and the number of
/// whole seconds left until it expires.
#[derive(Clone, Copy)]
pub struct Timer {
    pub id: u64,
    pub interval: u64,
}

/// The registry state: the list of pending timers, in registration order.
pub struct Registry {
    timers: Vec<Timer>,
}

/// True when one more tick makes the timer's interval reach zero, so the
/// coming tick fires it.
pub open spec fn is_due(t: Timer) -> bool {
    t.interval <= 1
}

/// A due timer after one more tick of the clock.
pub open spec fn decremented(t: Timer) -> Timer {
    Timer { id: t.id, interval: (t.interval - 1) as u64 }
}

/// The identifiers of the timers a tick fires, in list order.
pub open spec fn due_ids(s: Seq<Timer>) -> Seq<u64>
    decreases s.len(),
{
    if s.len() == 0 {
        Seq::empty()
    } else if is_due(s.last()) {
        due_ids(s.drop_last()).push(s.last().id)
    } else {
        due_ids(s.drop_last())
    }
}

/// The timers a tick keeps, in list order, each with one second less to wait.
pub open spec fn still_pending(s: Seq<Timer>) -> Seq<Timer>
    decreases s.len(),
{
    if s.len() == 0 {
        Seq::empty()
    } else if is_due(s.last()) {
        still_pending(s.drop_last())
    } else {
        still_pending(s.drop_last()).push(decremented(s.last()))
    }
}

/// The list with the first timer carrying `id` removed; the list itself when
/// no timer carries it.
pub open spec fn remove_first_with_id(s: Seq<Timer>, id: u64) -> Seq<Timer>
    decreases s.len(),
{
    if s.len() == 0 {
        s
    } else if s.first().id == id {
        s.drop_first()
    } else {
        seq![s.first()] + remove_first_with_id(s.drop_first(), id)
    }
}

impl Registry {
    /// The pending timers, in registration order.
    pub closed spec fn timers_seq(&self) -> Seq<Timer> {
        self.timers@
    }

    /// An empty registry: no timers pending.
    pub fn new() -> (r: Registry)
        ensures
            r.timers_seq() == Seq::<Timer>::empty(),
    {
        Registry { timers: Vec::new() }
    }

    /// Registers a one-shot timer under a caller-chosen identifier, to fire
    /// once `interval` seconds have elapsed. Appends the timer; nothing
    /// fires here.
    pub fn start_timer(&mut self, id: u64, interval: u64)
        ensures
            final(self).timers_seq() == old(self).timers_seq().push(
                Timer { id, interval },
            ),
    {
        self.timers.push(Timer { id, interval });
    }

    /// Cancels the first pending timer registered under `id`; a no-op when
    /// no pending timer carries that identifier.
    pub fn stop_timer(&mut self, id: u64)
        ensures
            final(self).timers_seq() == remove_first_with_id(old(self).timers_seq(), id),
    {
        let ghost s = self.timers@;
        let n = self.timers.len();
        let mut i: usize = 0;
        while i < n
            invariant
                n == s.len(),
                0 <= i <= n,
                s == old(self).timers_seq(),
                self.timers@ == s,
                forall|j: int| 0 <= j < i ==> s[j].id != id,
            decreases n - i,
        {
            if self.timers[i].id == id {
                self.timers.remove(i);
                proof {
                    lemma_remove_first_at(s, id, i as int);
                }
                return;
            }
            i += 1;
        }
        proof {
            lemma_remove_first_absent(s, id);
        }
    }

    /// How many timers are pending.
    pub fn pending_count(&self) -> (n: usize)
        ensures
            n == self.timers_seq().len(),
    {
        self.timers.len()
    }

    /// One tick of the clock: every pending timer's interval shrinks by one
    /// second; the timers whose interval runs out are dropped from the list
    /// and their identifiers are returned, in list order, for the caller to
    /// act on.
    pub fn expire_timers(&mut self) -> (fired: Vec<u64>)
        ensures
            fired@ == due_ids(old(self).timers_seq()),
            final(self).timers_seq() == still_pending(old(self).timers_seq()),
    {
        let ghost s = self.timers@;
        let mut fired: Vec<u64> = Vec::new();
        let mut kept: Vec<Timer> = Vec::new();
        let n = self.timers.len();
        let mut i: usize = 0;
        while i < n
            invariant
                n == s.len(),
                0 <= i <= n,
                self.timers@ == s,
                fired@ == due_ids(s.take(i as int)),
                kept@ == still_pending(s.take(i as int)),
            decreases n - i,
        {
            let t = self.timers[i];
            proof {
                assert(s.take(i + 1).drop_last() =~= s.take(i as int));
                assert(s.take(i + 1).last() == s[i as int]);
            }
            if t.interval <= 1 {
                fired.push(t.id);
            } else {
                kept.push(Timer { id: t.id, interval: t.interval - 1 });
            }
            i += 1;
        }
        proof {
            assert(s.take(n as int) =~= s);
        }
        self.timers = kept;
        fired
    }
}

/// The identifiers of all pending timers, in list order.
pub open spec fn all_ids(s: Seq<Timer>) -> Seq<u64>
    decreases s.len(),
{
    if s.len() == 0 {
        Seq::empty()
    } else {
        all_ids(s.drop_last()).push(s.last().id)
    }
}

/// The list after `k` ticks of the clock.
pub open spec fn after_ticks(s: Seq<Timer>, k: nat) -> Seq<Timer>
    decreases k,
{
    if k == 0 {
        s
    } else {
        still_pending(after_ticks(s, (k - 1) as nat))
    }
}

/// Whether a timer with this identity and this many seconds left is
/// pending.
pub open spec fn has_pending(s: Seq<Timer>, id: u64, interval: u64) -> bool {
    exists|j: int| 0 <= j < s.len() && s[j] == (Timer { id, interval })
}

/// Each action fires at most once per tick, and a tick loses no timer:
/// the pending identities split exactly into the ones the tick fires and
/// the ones that stay pending.
pub proof fn lemma_tick_partitions_timers(s: Seq<Timer>)
    ensures
        all_ids(s).to_multiset() == due_ids(s).to_multiset().add(
            all_ids(still_pending(s)).to_multiset(),
        ),
    decreases s.len(),
{
    broadcast use vstd::seq_lib::group_to_multiset_ensures;
    broadcast use vstd::multiset::group_multiset_axioms;

    if s.len() == 0 {
        assert(all_ids(s).to_multiset() =~= due_ids(s).to_multiset().add(
            all_ids(still_pending(s)).to_multiset(),
        ));
    } else {
        lemma_tick_partitions_timers(s.drop_last());
        let d = s.drop_last();
        assert(all_ids(s).to_multiset() == all_ids(d).to_multiset().insert(s.last().id));
        if is_due(s.last()) {
            assert(due_ids(s).to_multiset() == due_ids(d).to_multiset().insert(s.last().id));
            assert(all_ids(d).to_multiset().insert(s.last().id) =~= due_ids(
                d,
            ).to_multiset().insert(s.last().id).add(all_ids(still_pending(d)).to_multiset()));
        } else {
            let sp = still_pending(s);
            assert(sp == still_pending(d).push(decremented(s.last())));
            assert(sp.drop_last() =~= still_pending(d));
            assert(all_ids(sp) == all_ids(sp.drop_last()).push(sp.last().id));
            assert(all_ids(still_pending(s)).to_multiset() == all_ids(
                still_pending(d),
            ).to_multiset().insert(decremented(s.last()).id));
            assert(all_ids(d).to_multiset().insert(s.last().id) =~= due_ids(d).to_multiset().add(
                all_ids(still_pending(d)).to_multiset().insert(s.last().id),
            ));
        }
    }
}

proof fn lemma_survives_one_tick(s: Seq<Timer>, i: int)
    requires
        0 <= i < s.len(),
        s[i].interval > 1,
    ensures
        has_pending(still_pending(s), s[i].id, (s[i].interval - 1) as u64),
    decreases s.len(),
{
    if i == s.len() - 1 {
        let sp = still_pending(s);
        assert(sp[sp.len() - 1] == decremented(s.last()));
    } else {
        lemma_survives_one_tick(s.drop_last(), i);
        let j = choose|j: int|
            0 <= j < still_pending(s.drop_last()).len() && still_pending(s.drop_last())[j] == (Timer {
                id: s[i].id,
                interval: (s[i].interval - 1) as u64,
            });
        assert(still_pending(s)[j] == still_pending(s.drop_last())[j]);
    }
}

/// No timer fires early: a timer registered with `d` seconds left is still
/// pending after any `k < d` ticks, with `d - k` seconds to go.
pub proof fn lemma_no_early_fire(s: Seq<Timer>, i: int, k: nat)
    requires
        0 <= i < s.len(),
        k < s[i].interval,
    ensures
        has_pending(after_ticks(s, k), s[i].id, (s[i].interval - k) as u64),
    decreases k,
{
    if k == 0 {
        assert(after_ticks(s, 0)[i] == (Timer { id: s[i].id, interval: s[i].interval }));
    } else {
        lemma_no_early_fire(s, i, (k - 1) as nat);
        let prev = after_ticks(s, (k - 1) as nat);
        let j = choose|j: int|
            0 <= j < prev.len() && prev[j] == (Timer {
                id: s[i].id,
                interval: (s[i].interval - (k - 1)) as u64,
            });
        lemma_survives_one_tick(prev, j);
    }
}

proof fn lemma_due_contains(s: Seq<Timer>, j: int)
    requires
        0 <= j < s.len(),
        is_due(s[j]),
    ensures
        due_ids(s).contains(s[j].id),
    decreases s.len(),
{
    if j == s.len() - 1 {
        assert(due_ids(s).last() == s[j].id);
    } else {
        lemma_due_contains(s.drop_last(), j);
        let x = choose|x: int|
            0 <= x < due_ids(s.drop_last()).len() && due_ids(s.drop_last())[x] == s[j].id;
        assert(due_ids(s)[x] == s[j].id);
    }
}

/// No timer fires late: after `d - 1` ticks a timer registered with `d`
/// seconds left has one second to go, so the very next tick fires it.
pub proof fn lemma_fires_on_time(s: Seq<Timer>, i: int)
    requires
        0 <= i < s.len(),
        s[i].interval >= 1,
    ensures
        due_ids(after_ticks(s, (s[i].interval - 1) as nat)).contains(s[i].id),
{
    lemma_no_early_fire(s, i, (s[i].interval - 1) as nat);
    let fin = after_ticks(s, (s[i].interval - 1) as nat);
    let j = choose|j: int| 0 <= j < fin.len() && fin[j] == (Timer { id: s[i].id, interval: 1u64 });
    lemma_due_contains(fin, j);
}

proof fn lemma_absent_stays_absent(s: Seq<Timer>, id: u64)
    requires
        forall|j: int| #![trigger s[j]] 0 <= j < s.len() ==> s[j].id != id,
    ensures
        forall|j: int|
            #![trigger still_pending(s)[j]]
            0 <= j < still_pending(s).len() ==> still_pending(s)[j].id != id,
        !due_ids(s).contains(id),
    decreases s.len(),
{
    if s.len() > 0 {
        lemma_absent_stays_absent(s.drop_last(), id);
        let sp = still_pending(s);
        let spd = still_pending(s.drop_last());
        assert forall|j: int| #![trigger sp[j]] 0 <= j < sp.len() implies sp[j].id != id by {
            if !is_due(s.last()) && j == sp.len() - 1 {
                assert(sp[j] == decremented(s.last()));
            } else {
                assert(sp[j] == spd[j]);
            }
        }
        if is_due(s.last()) {
            assert forall|x: int| 0 <= x < due_ids(s).len() implies due_ids(s)[x] != id by {
                if x < due_ids(s.drop_last()).len() {
                    assert(due_ids(s)[x] == due_ids(s.drop_last())[x]);
                } else {
                    assert(due_ids(s)[x] == s.last().id);
                }
            }
        }
    }
}

/// A cancelled timer never fires: once no pending timer carries the
/// identifier, no number of ticks ever fires it.
pub proof fn lemma_no_fire_after_cancel(s: Seq<Timer>, id: u64, k: nat)
    requires
        forall|j: int| #![trigger s[j]] 0 <= j < s.len() ==> s[j].id != id,
    ensures
        !due_ids(after_ticks(s, k)).contains(id),
        forall|j: int|
            #![trigger after_ticks(s, k)[j]]
            0 <= j < after_ticks(s, k).len() ==> after_ticks(s, k)[j].id != id,
    decreases k,
{
    let cur = after_ticks(s, k);
    if k == 0 {
        assert(cur == s);
        assert forall|j: int| #![trigger cur[j]] 0 <= j < cur.len() implies cur[j].id != id by {
            assert(cur[j] == s[j]);
        }
    } else {
        lemma_no_fire_after_cancel(s, id, (k - 1) as nat);
        let prev = after_ticks(s, (k - 1) as nat);
        lemma_absent_stays_absent(prev, id);
        assert(cur == still_pending(prev));
        assert forall|j: int| #![trigger cur[j]] 0 <= j < cur.len() implies cur[j].id != id by {
            assert(cur[j] == still_pending(prev)[j]);
        }
    }
    lemma_absent_stays_absent(cur, id);
}

/// Registering a timer and cancelling it at once leaves the list exactly
/// as it was, provided no pending timer already carries the identifier.
pub proof fn lemma_stop_undoes_start(s: Seq<Timer>, t: Timer)
    requires
        forall|j: int| #![trigger s[j]] 0 <= j < s.len() ==> s[j].id != t.id,
    ensures
        remove_first_with_id(s.push(t), t.id) == s,
    decreases s.len(),
{
    if s.len() == 0 {
        assert(s.push(t).drop_first() =~= s);
    } else {
        assert(s.push(t).first().id != t.id);
        assert(s.push(t).drop_first() =~= s.drop_first().push(t));
        lemma_stop_undoes_start(s.drop_first(), t);
        assert(seq![s.first()] + s.drop_first() =~= s);
    }
}

proof fn lemma_remove_first_at(s: Seq<Timer>, id: u64, i: int)
    requires
        0 <= i < s.len(),
        s[i].id == id,
        forall|j: int| 0 <= j < i ==> s[j].id != id,
    ensures
        remove_first_with_id(s, id) == s.remove(i),
    decreases i,
{
    if i == 0 {
        assert(remove_first_with_id(s, id) == s.drop_first());
        assert(s.drop_first() =~= s.remove(0));
    } else {
        lemma_remove_first_at(s.drop_first(), id, i - 1);
        assert(remove_first_with_id(s, id) == seq![s.first()] + remove_first_with_id(
            s.drop_first(),
            id,
        ));
        assert(seq![s.first()] + s.drop_first().remove(i - 1) =~= s.remove(i));
    }
}

proof fn lemma_remove_first_absent(s: Seq<Timer>, id: u64)
    requires
        forall|j: int| 0 <= j < s.len() ==> s[j].id != id,
    ensures
        remove_first_with_id(s, id) == s,
    decreases s.len(),
{
    if s.len() > 0 {
        lemma_remove_first_absent(s.drop_first(), id);
        assert(seq![s.first()] + s.drop_first() =~= s);
    }
}

} // verus!
