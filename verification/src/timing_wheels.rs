//! The single-level timing wheel: a circular array of buckets indexed by
//! deadline modulo the wheel size. Insertion files a timer `delay` slots
//! ahead of the hand; a tick advances the hand one slot and fires that
//! bucket whole. Delays of a full revolution or more wrap around the wheel:
//! the bucket is reached again only after the wheel turns past it.

use vstd::prelude::*;
use vstd::arithmetic::div_mod::{lemma_add_mod_noop, lemma_small_mod};

verus! {

/// A pending one-shot timer.
#[derive(Clone, Copy)]
pub struct Timer {
    pub id: usize,
}

/// The registry state: a monotone timer-id source, the hand position, and
/// one bucket of timers per wheel slot.
pub struct State {
    pub(crate) next_timer_id: usize,
    pub(crate) current_time: u64,
    pub(crate) timers: Vec<Vec<Timer>>,
}

/// The single-level wheel registry.
pub struct Registry {
    num_buckets: usize,
    state: State,
}

/// Names a pending timer for cancellation: the slot it was filed under and
/// its identity.
pub struct TimerHandle {
    bucket_position: usize,
    timer_id: usize,
}

impl TimerHandle {
    /// The slot the timer was filed under.
    pub closed spec fn bucket_position(&self) -> int {
        self.bucket_position as int
    }

    /// The timer's identity.
    pub closed spec fn timer_id(&self) -> usize {
        self.timer_id
    }

    /// The timer's identity, for callers that key their own bookkeeping
    /// by it.
    pub fn id(&self) -> (r: usize)
        ensures
            r == self.timer_id(),
    {
        self.timer_id
    }
}

/// No two pending timers, in any two slots, share an identity.
pub open spec fn ids_unique(bs: Seq<Seq<Timer>>) -> bool {
    forall|b1: int, i1: int, b2: int, i2: int|
        #![trigger bs[b1][i1], bs[b2][i2]]
        0 <= b1 < bs.len() && 0 <= i1 < bs[b1].len() && 0 <= b2 < bs.len() && 0 <= i2
            < bs[b2].len() && (b1 != b2 || i1 != i2) ==> bs[b1][i1].id != bs[b2][i2].id
}

/// Every pending timer's identity was drawn before `bound`.
pub open spec fn ids_below(bs: Seq<Seq<Timer>>, bound: int) -> bool {
    forall|b: int, i: int|
        #![trigger bs[b][i]]
        0 <= b < bs.len() && 0 <= i < bs[b].len() ==> bs[b][i].id < bound
}

/// The bucket with the first timer carrying `id` removed; the bucket itself
/// when no timer carries it.
pub open spec fn remove_first_with_id(s: Seq<Timer>, id: usize) -> Seq<Timer>
    decreases s.len(),
{
    if s.len() == 0 {
        s
    } else if s.first().id == id {
        s.drop_first()
    } else {
        seq![s.first()] + remove_first_with_id(s.drop_first(), id)
    }
}

impl Registry {
    /// The buckets, slot by slot.
    pub closed spec fn buckets_view(&self) -> Seq<Seq<Timer>> {
        self.state.timers@.map_values(|v: Vec<Timer>| v@)
    }

    /// The hand position: slots already visited this revolution.
    pub closed spec fn current_time(&self) -> u64 {
        self.state.current_time
    }

    /// The identity the next registered timer will get.
    pub closed spec fn next_timer_id(&self) -> usize {
        self.state.next_timer_id
    }

    /// The identity the next registered timer will get, for callers that
    /// must know whether the identity space is exhausted.
    pub fn next_id(&self) -> (r: usize)
        ensures
            r == self.next_timer_id(),
    {
        self.state.next_timer_id
    }

    /// How many slots the wheel has.
    pub closed spec fn num_buckets(&self) -> int {
        self.num_buckets as int
    }

    /// The registry's invariant: a slot per tick of the wheel, the hand on
    /// one of them, and pairwise distinct timer identities all drawn before
    /// `next_timer_id`.
    pub open spec fn wf(&self) -> bool {
        &&& self.buckets_view().len() == self.num_buckets()
        &&& 0 < self.num_buckets() <= 100000
        &&& self.current_time() < self.num_buckets()
        &&& ids_unique(self.buckets_view())
        &&& ids_below(self.buckets_view(), self.next_timer_id() as int)
    }

    /// An empty wheel of one hundred thousand slots, hand and id source at
    /// zero.
    pub fn new() -> (r: Registry)
        ensures
            r.wf(),
            r.num_buckets() == 100000,
            r.current_time() == 0,
            r.next_timer_id() == 0,
            forall|b: int|
                0 <= b < 100000 ==> #[trigger] r.buckets_view()[b] == Seq::<Timer>::empty(),
    {
        let num_buckets: usize = 100000;
        let mut timers: Vec<Vec<Timer>> = Vec::new();
        while timers.len() < num_buckets
            invariant
                num_buckets == 100000,
                timers@.len() <= 100000,
                forall|b: int|
                    0 <= b < timers@.len() ==> #[trigger] timers@[b]@ == Seq::<Timer>::empty(),
            decreases num_buckets - timers.len(),
        {
            timers.push(Vec::new());
        }
        let r = Registry {
            num_buckets,
            state: State { next_timer_id: 0, current_time: 0, timers },
        };
        proof {
            assert(forall|b: int|
                0 <= b < 100000 ==> #[trigger] r.buckets_view()[b] == Seq::<Timer>::empty());
        }
        r
    }

    /// Registers a one-shot timer due in `expires_in_secs` seconds: it is
    /// appended to the slot `expires_in_secs` ticks ahead of the hand,
    /// modulo the wheel size, so delays beyond the wheel span wrap.
    pub fn start_timer(&mut self, expires_in_secs: u64) -> (h: TimerHandle)
        requires
            old(self).wf(),
            old(self).next_timer_id() < usize::MAX,
        ensures
            final(self).wf(),
            h.timer_id() == old(self).next_timer_id(),
            h.bucket_position() == (old(self).current_time() + expires_in_secs) as int % old(
                self,
            ).num_buckets(),
            final(self).current_time() == old(self).current_time(),
            final(self).num_buckets() == old(self).num_buckets(),
            final(self).next_timer_id() == old(self).next_timer_id() + 1,
            ({
                let b = h.bucket_position();
                let t = Timer { id: old(self).next_timer_id() };
                final(self).buckets_view() == old(self).buckets_view().update(
                    b,
                    old(self).buckets_view()[b].push(t),
                )
            }),
    {
        let ghost bs = self.buckets_view();
        let timer_id = self.state.next_timer_id;
        self.state.next_timer_id = timer_id + 1;

        let w = self.num_buckets as u64;
        let bucket_position = ((self.state.current_time + expires_in_secs % w) % w) as usize;
        proof {
            lemma_small_mod((expires_in_secs % w) as nat, w as nat);
            lemma_add_mod_noop(self.state.current_time as int, expires_in_secs as int, w as int);
            lemma_small_mod(self.state.current_time as nat, w as nat);
            assert(bucket_position as int == (self.state.current_time + expires_in_secs) as int
                % self.num_buckets as int);
        }

        let timer = Timer { id: timer_id };
        self.state.timers[bucket_position].push(timer);

        proof {
            assert(self.buckets_view() =~= bs.update(
                bucket_position as int,
                bs[bucket_position as int].push(timer),
            ));
            lemma_wf_after_push(bs, bucket_position as int, timer);
        }

        TimerHandle { bucket_position, timer_id }
    }

    /// Cancels the pending timer the handle names: scans its slot and
    /// removes it if it is still there; a no-op when it has already fired
    /// or been cancelled.
    pub fn stop_timer(&mut self, timer_handle: &TimerHandle)
        requires
            old(self).wf(),
            0 <= timer_handle.bucket_position() < old(self).num_buckets(),
        ensures
            final(self).wf(),
            final(self).current_time() == old(self).current_time(),
            final(self).num_buckets() == old(self).num_buckets(),
            final(self).next_timer_id() == old(self).next_timer_id(),
            final(self).buckets_view() == old(self).buckets_view().update(
                timer_handle.bucket_position(),
                remove_first_with_id(
                    old(self).buckets_view()[timer_handle.bucket_position()],
                    timer_handle.timer_id(),
                ),
            ),
    {
        let ghost bs = self.buckets_view();
        let b = timer_handle.bucket_position;
        let ghost bv = bs[b as int];
        let bucket_len = self.state.timers[b].len();
        let mut i: usize = 0;
        while i < bucket_len
            invariant
                self.buckets_view() == bs,
                bs == old(self).buckets_view(),
                old(self).wf(),
                b == timer_handle.bucket_position(),
                0 <= b < bs.len(),
                bv == bs[b as int],
                bucket_len == bv.len(),
                0 <= i <= bucket_len,
                self.num_buckets == old(self).num_buckets(),
                self.state.next_timer_id == old(self).next_timer_id(),
                self.state.current_time == old(self).current_time(),
                forall|j: int| #![trigger bv[j]] 0 <= j < i ==> bv[j].id != timer_handle.timer_id(),
            decreases bucket_len - i,
        {
            if self.state.timers[b][i].id == timer_handle.timer_id {
                self.state.timers[b].remove(i);
                proof {
                    lemma_remove_first_at(bv, timer_handle.timer_id, i as int);
                    assert(self.buckets_view() =~= bs.update(b as int, bv.remove(i as int)));
                    lemma_wf_after_remove(bs, b as int, i as int);
                }
                return ;
            }
            i += 1;
        }
        proof {
            lemma_remove_first_absent(bv, timer_handle.timer_id);
            assert(bs.update(b as int, bv) =~= bs);
        }
    }

    /// How many timers wait in the given slot.
    pub fn bucket_len(&self, bucket: usize) -> (n: usize)
        requires
            self.wf(),
            (bucket as int) < self.num_buckets(),
        ensures
            n == self.buckets_view()[bucket as int].len(),
    {
        self.state.timers[bucket].len()
    }

    /// One tick: the hand advances one slot, wrapping at the end of the
    /// wheel, and the slot it lands on fires whole, in stored order; the
    /// bucket is left empty. Returns the fired identities.
    pub fn expire_timers(&mut self) -> (fired: Vec<usize>)
        requires
            old(self).wf(),
        ensures
            final(self).wf(),
            final(self).num_buckets() == old(self).num_buckets(),
            final(self).next_timer_id() == old(self).next_timer_id(),
            final(self).current_time() == (old(self).current_time() + 1) as int % old(
                self,
            ).num_buckets(),
            ({
                let b = final(self).current_time() as int;
                &&& fired@ == old(self).buckets_view()[b].map_values(|t: Timer| t.id)
                &&& final(self).buckets_view() == old(self).buckets_view().update(
                    b,
                    Seq::<Timer>::empty(),
                )
            }),
    {
        let ghost bs = self.buckets_view();
        self.state.current_time = (self.state.current_time + 1) % self.num_buckets as u64;
        let b = self.state.current_time as usize;

        let ghost bv = bs[b as int];
        let bucket_len = self.state.timers[b].len();
        let mut fired: Vec<usize> = Vec::new();
        let mut i: usize = 0;
        while i < bucket_len
            invariant
                self.buckets_view() == bs,
                0 <= b < bs.len(),
                bv == bs[b as int],
                bucket_len == bv.len(),
                0 <= i <= bucket_len,
                fired@ == bv.take(i as int).map_values(|t: Timer| t.id),
            decreases bucket_len - i,
        {
            let id = self.state.timers[b][i].id;
            fired.push(id);
            proof {
                assert(bv.take(i + 1).map_values(|t: Timer| t.id) =~= bv.take(
                    i as int,
                ).map_values(|t: Timer| t.id).push(bv[i as int].id));
            }
            i += 1;
        }
        self.state.timers[b].clear();
        proof {
            assert(bv.take(bucket_len as int) =~= bv);
            assert(self.buckets_view() =~= bs.update(b as int, Seq::<Timer>::empty()));
            lemma_wf_after_empty(bs, b as int);
        }
        fired
    }
}

proof fn lemma_remove_first_at(s: Seq<Timer>, id: usize, i: int)
    requires
        0 <= i < s.len(),
        s[i].id == id,
        forall|j: int| #![trigger s[j]] 0 <= j < i ==> s[j].id != id,
    ensures
        remove_first_with_id(s, id) == s.remove(i),
    decreases i,
{
    if i == 0 {
        assert(s.drop_first() =~= s.remove(0));
    } else {
        lemma_remove_first_at(s.drop_first(), id, i - 1);
        assert(seq![s.first()] + s.drop_first().remove(i - 1) =~= s.remove(i));
    }
}

proof fn lemma_remove_first_absent(s: Seq<Timer>, id: usize)
    requires
        forall|j: int| #![trigger s[j]] 0 <= j < s.len() ==> s[j].id != id,
    ensures
        remove_first_with_id(s, id) == s,
    decreases s.len(),
{
    if s.len() > 0 {
        lemma_remove_first_absent(s.drop_first(), id);
        assert(seq![s.first()] + s.drop_first() =~= s);
    }
}

/// Appending a fresh-id timer keeps distinctness and lifts the id bound.
proof fn lemma_wf_after_push(bs: Seq<Seq<Timer>>, b: int, t: Timer)
    requires
        0 <= b < bs.len(),
        ids_unique(bs),
        ids_below(bs, t.id as int),
    ensures
        ids_unique(bs.update(b, bs[b].push(t))),
        ids_below(bs.update(b, bs[b].push(t)), t.id + 1),
{
    let nb = bs[b].push(t);
    let nbs = bs.update(b, nb);
    assert(ids_unique(nbs)) by {
        assert forall|b1: int, i1: int, b2: int, i2: int|
            #![trigger nbs[b1][i1], nbs[b2][i2]]
            0 <= b1 < nbs.len() && 0 <= i1 < nbs[b1].len() && 0 <= b2 < nbs.len() && 0 <= i2
                < nbs[b2].len() && (b1 != b2 || i1 != i2) implies nbs[b1][i1].id
            != nbs[b2][i2].id by {
            if b1 == b && i1 == bs[b].len() {
                if !(b2 == b && i2 == bs[b].len()) {
                    assert(nbs[b2][i2] == bs[b2][i2]);
                }
            } else if b2 == b && i2 == bs[b].len() {
                assert(nbs[b1][i1] == bs[b1][i1]);
            } else {
                assert(nbs[b1][i1] == bs[b1][i1]);
                assert(nbs[b2][i2] == bs[b2][i2]);
            }
        }
    }
    assert(ids_below(nbs, t.id + 1)) by {
        assert forall|bb: int, i: int|
            #![trigger nbs[bb][i]]
            0 <= bb < nbs.len() && 0 <= i < nbs[bb].len() implies nbs[bb][i].id < t.id + 1 by {
            if !(bb == b && i == bs[b].len()) {
                assert(nbs[bb][i] == bs[bb][i]);
            }
        }
    }
}

/// Dropping one bucket element keeps distinctness and the id bound.
proof fn lemma_wf_after_remove(bs: Seq<Seq<Timer>>, b: int, i: int)
    requires
        0 <= b < bs.len(),
        0 <= i < bs[b].len(),
        ids_unique(bs),
    ensures
        ids_unique(bs.update(b, bs[b].remove(i))),
        forall|bound: int| ids_below(bs, bound) ==> ids_below(bs.update(b, bs[b].remove(i)), bound),
{
    let nb = bs[b].remove(i);
    let nbs = bs.update(b, nb);
    assert(ids_unique(nbs)) by {
        assert forall|b1: int, i1: int, b2: int, i2: int|
            #![trigger nbs[b1][i1], nbs[b2][i2]]
            0 <= b1 < nbs.len() && 0 <= i1 < nbs[b1].len() && 0 <= b2 < nbs.len() && 0 <= i2
                < nbs[b2].len() && (b1 != b2 || i1 != i2) implies nbs[b1][i1].id
            != nbs[b2][i2].id by {
            let o1: int = if b1 == b && i1 >= i {
                i1 + 1
            } else {
                i1
            };
            let o2: int = if b2 == b && i2 >= i {
                i2 + 1
            } else {
                i2
            };
            assert(nbs[b1][i1] == bs[b1][o1]);
            assert(nbs[b2][i2] == bs[b2][o2]);
        }
    }
    assert forall|bound: int| ids_below(bs, bound) implies ids_below(nbs, bound) by {
        assert forall|bb: int, j: int|
            #![trigger nbs[bb][j]]
            ids_below(bs, bound) && 0 <= bb < nbs.len() && 0 <= j
                < nbs[bb].len() implies nbs[bb][j].id < bound by {
            let oj: int = if bb == b && j >= i {
                j + 1
            } else {
                j
            };
            assert(nbs[bb][j] == bs[bb][oj]);
        }
    }
}

/// Emptying one bucket keeps distinctness and the id bound.
proof fn lemma_wf_after_empty(bs: Seq<Seq<Timer>>, b: int)
    requires
        0 <= b < bs.len(),
        ids_unique(bs),
    ensures
        ids_unique(bs.update(b, Seq::<Timer>::empty())),
        forall|bound: int|
            ids_below(bs, bound) ==> ids_below(bs.update(b, Seq::<Timer>::empty()), bound),
{
    let nbs = bs.update(b, Seq::<Timer>::empty());
    assert(ids_unique(nbs)) by {
        assert forall|b1: int, i1: int, b2: int, i2: int|
            #![trigger nbs[b1][i1], nbs[b2][i2]]
            0 <= b1 < nbs.len() && 0 <= i1 < nbs[b1].len() && 0 <= b2 < nbs.len() && 0 <= i2
                < nbs[b2].len() && (b1 != b2 || i1 != i2) implies nbs[b1][i1].id
            != nbs[b2][i2].id by {
            assert(nbs[b1][i1] == bs[b1][i1]);
            assert(nbs[b2][i2] == bs[b2][i2]);
        }
    }
    assert forall|bound: int| ids_below(bs, bound) implies ids_below(nbs, bound) by {
        assert forall|bb: int, j: int|
            #![trigger nbs[bb][j]]
            ids_below(bs, bound) && 0 <= bb < nbs.len() && 0 <= j
                < nbs[bb].len() implies nbs[bb][j].id < bound by {
            assert(nbs[bb][j] == bs[bb][j]);
        }
    }
}

/// Whether some timer in the bucket carries `id`.
pub open spec fn contains_id(b: Seq<Timer>, id: usize) -> bool {
    exists|j: int| 0 <= j < b.len() && b[j].id == id
}

/// Whether some pending timer anywhere in the wheel carries `id`.
pub open spec fn wheel_contains_id(bs: Seq<Seq<Timer>>, id: usize) -> bool {
    exists|b: int, i: int| 0 <= b < bs.len() && 0 <= i < bs[b].len() && bs[b][i].id == id
}

/// At most once: a tick's fired identities are pairwise distinct, and none
/// of them is pending anywhere in the wheel after the bucket empties.
pub proof fn lemma_at_most_once(bs: Seq<Seq<Timer>>, b: int)
    requires
        0 <= b < bs.len(),
        ids_unique(bs),
    ensures
        forall|x: int, y: int|
            #![trigger bs[b][x], bs[b][y]]
            0 <= x < y < bs[b].len() ==> bs[b][x].id != bs[b][y].id,
        forall|x: int|
            0 <= x < bs[b].len() ==> !wheel_contains_id(
                bs.update(b, Seq::<Timer>::empty()),
                #[trigger] bs[b][x].id,
            ),
{
    let nbs = bs.update(b, Seq::<Timer>::empty());
    assert forall|x: int| 0 <= x < bs[b].len() implies !wheel_contains_id(
        nbs,
        #[trigger] bs[b][x].id,
    ) by {
        if wheel_contains_id(nbs, bs[b][x].id) {
            let (b2, i2) = choose|b2: int, i2: int|
                0 <= b2 < nbs.len() && 0 <= i2 < nbs[b2].len() && nbs[b2][i2].id == bs[b][x].id;
            assert(nbs[b2][i2] == bs[b2][i2]);
        }
    }
}

/// No fire after cancel: removing a pending timer removes its only
/// occurrence, so its identity is pending nowhere afterwards and no later
/// tick can fire it.
pub proof fn lemma_no_fire_after_cancel(bs: Seq<Seq<Timer>>, b: int, id: usize)
    requires
        0 <= b < bs.len(),
        ids_unique(bs),
        contains_id(bs[b], id),
    ensures
        !wheel_contains_id(bs.update(b, remove_first_with_id(bs[b], id)), id),
{
    let x = choose|x: int| 0 <= x < bs[b].len() && bs[b][x].id == id;
    lemma_first_index_with_id(bs[b], id, x);
    let first = seq_first_index_with_id(bs[b], id);
    lemma_remove_first_at(bs[b], id, first);
    let nb = bs[b].remove(first);
    let nbs = bs.update(b, nb);
    if wheel_contains_id(nbs, id) {
        let (b2, i2) = choose|b2: int, i2: int|
            0 <= b2 < nbs.len() && 0 <= i2 < nbs[b2].len() && nbs[b2][i2].id == id;
        if b2 == b {
            let o2: int = if i2 >= first {
                i2 + 1
            } else {
                i2
            };
            assert(nbs[b2][i2] == bs[b][o2]);
        } else {
            assert(nbs[b2][i2] == bs[b2][i2]);
        }
    }
}

/// The least bucket index holding `id`; the bucket length when none does.
spec fn seq_first_index_with_id(b: Seq<Timer>, id: usize) -> int
    decreases b.len(),
{
    if b.len() == 0 {
        0
    } else if b.first().id == id {
        0
    } else {
        1 + seq_first_index_with_id(b.drop_first(), id)
    }
}

proof fn lemma_first_index_with_id(b: Seq<Timer>, id: usize, x: int)
    requires
        0 <= x < b.len(),
        b[x].id == id,
    ensures
        0 <= seq_first_index_with_id(b, id) <= x,
        b[seq_first_index_with_id(b, id)].id == id,
        forall|j: int| #![trigger b[j]] 0 <= j < seq_first_index_with_id(b, id) ==> b[j].id != id,
    decreases b.len(),
{
    if b.first().id != id {
        lemma_first_index_with_id(b.drop_first(), id, x - 1);
        let f = seq_first_index_with_id(b, id);
        assert(b[f] == b.drop_first()[f - 1]);
        assert forall|j: int| #![trigger b[j]] 0 <= j < f implies b[j].id != id by {
            if j > 0 {
                assert(b[j] == b.drop_first()[j - 1]);
            }
        }
    }
}

/// Round trip: registering a timer and cancelling it at once restores the
/// bucket, because the fresh identity matches only the appended timer.
pub proof fn lemma_stop_undoes_start(b: Seq<Timer>, t: Timer)
    requires
        forall|j: int| #![trigger b[j]] 0 <= j < b.len() ==> b[j].id != t.id,
    ensures
        remove_first_with_id(b.push(t), t.id) == b,
    decreases b.len(),
{
    if b.len() == 0 {
        assert(b.push(t).drop_first() =~= b);
    } else {
        assert(b.push(t).first().id != t.id);
        assert(b.push(t).drop_first() =~= b.drop_first().push(t));
        assert forall|j: int| #![trigger b.drop_first()[j]]
            0 <= j < b.drop_first().len() implies b.drop_first()[j].id != t.id by {
            assert(b.drop_first()[j] == b[j + 1]);
        }
        lemma_stop_undoes_start(b.drop_first(), t);
        assert(seq![b.first()] + b.drop_first() =~= b);
    }
}

/// No early and no late fire, within one revolution: the hand, now at
/// `t`, reaches the slot of a delay-`d` registration `(t + d) % w` on the
/// `k`-th coming tick exactly when `k == d`.
pub proof fn lemma_fires_on_schedule(t: int, d: int, w: int, k: int)
    requires
        0 < w,
        0 <= t < w,
        1 <= d <= w,
        1 <= k <= w,
    ensures
        (t + k) % w == (t + d) % w <==> k == d,
{
    if (t + k) % w == (t + d) % w && k != d {
        assert(false) by (nonlinear_arith)
            requires
                0 < w,
                1 <= d <= w,
                1 <= k <= w,
                k != d,
                (t + k) % w == (t + d) % w,
        {
            let qk = (t + k) / w;
            let qd = (t + d) / w;
            assert(t + k == qk * w + (t + k) % w);
            assert(t + d == qd * w + (t + d) % w);
            assert(k - d == (qk - qd) * w);
        }
    }
}

} // verus!
