//! The hashed wheel with sorted buckets: 256 slots, each holding its timers
//! in non-decreasing order of the high 24 bits of their delay (the round
//! counter). A delay of `d` seconds lands in slot `(now + low8(d)) % 256`;
//! a tick fires only the bucket prefix whose round counter matches the high
//! bits of the tick counter, so expiration touches expired timers only.
//!
//! The tick counter is kept un-reduced: reducing it modulo the wheel size
//! before taking its high bits would pin the current round counter at zero
//! and strand every timer scheduled more than one revolution ahead.

use vstd::prelude::*;
use vstd::arithmetic::div_mod::{lemma_add_mod_noop, lemma_small_mod};

verus! {

/// How many slots the wheel has: one per value of the low 8 bits of a delay.
pub const NUM_BUCKETS: usize = 256;

/// A pending one-shot timer: its identity and the high 24 bits of its delay
/// in seconds, the round counter on which bucket order is defined.
#[derive(Clone, Copy)]
pub struct Timer {
    pub id: usize,
    pub highest_24_bits: u32,
}

/// The registry state: a monotone timer-id source, the un-reduced tick
/// counter, and one bucket of sorted timers per wheel slot.
pub struct State {
    pub(crate) next_timer_id: usize,
    pub(crate) current_time: u64,
    pub(crate) buckets: Vec<Vec<Timer>>,
}

/// The hashed-wheel registry.
pub struct Registry {
    state: State,
}

/// Names a pending timer for cancellation: the slot it was filed under and
/// its identity.
pub struct TimerHandle {
    bucket_position: usize,
    timer_id: usize,
}

impl TimerHandle {
    /// The slot the timer was filed under.
    pub closed spec fn bucket_position(&self) -> int {
        self.bucket_position as int
    }

    /// The timer's identity.
    pub closed spec fn timer_id(&self) -> usize {
        self.timer_id
    }

    /// The timer's identity, for callers that key their own bookkeeping
    /// by it.
    pub fn id(&self) -> (r: usize)
        ensures
            r == self.timer_id(),
    {
        self.timer_id
    }
}

/// The low 8 bits of a delay in seconds: they select the wheel slot.
pub fn lowest_8_bits(n: u32) -> (r: u32)
    ensures
        r == n & 0xFF,
        r < 256,
{
    proof {
        assert(n & 0xFF < 256) by (bit_vector);
    }
    n & 0xFF
}

/// The high 24 bits of a delay in seconds: the round counter.
pub fn highest_24_bits(n: u32) -> (r: u32)
    ensures
        r == n & 0xFFFFFF00,
{
    n & 0xFFFFFF00
}

/// A bucket keeps its timers in non-decreasing round-counter order, so the
/// timers of the current round form a prefix.
pub open spec fn bucket_sorted(b: Seq<Timer>) -> bool {
    forall|i: int, j: int|
        0 <= i < j < b.len() ==> #[trigger] b[i].highest_24_bits <= #[trigger] b[j].highest_24_bits
}

/// No two pending timers, in any two slots, share an identity.
pub open spec fn ids_unique(bs: Seq<Seq<Timer>>) -> bool {
    forall|b1: int, i1: int, b2: int, i2: int|
        0 <= b1 < bs.len() && 0 <= i1 < bs[b1].len() && 0 <= b2 < bs.len() && 0 <= i2
            < bs[b2].len() && (b1 != b2 || i1 != i2) ==> #[trigger] bs[b1][i1].id != #[trigger] bs[b2][i2].id
}

/// Every pending timer's identity was drawn before `bound`.
pub open spec fn ids_below(bs: Seq<Seq<Timer>>, bound: int) -> bool {
    forall|b: int, i: int|
        0 <= b < bs.len() && 0 <= i < bs[b].len() ==> #[trigger] bs[b][i].id < bound
}

/// The slot a delay of `d` seconds lands in when the tick counter reads
/// `now`.
pub open spec fn slot_for(now: u64, d: u32) -> int {
    (now as int + (d & 0xFF) as int) % 256
}

/// The round counter a tick counter of `t` stands on: the high 24 bits of
/// its low 32 bits.
pub open spec fn round_of(t: u64) -> u32 {
    ((t % 0x1_0000_0000) as u32) & 0xFFFFFF00
}

/// Where a timer with round counter `round` is filed in `b`: before the
/// first timer whose round counter is at least `round`, so equal round
/// counters stay contiguous and the order never decreases.
pub open spec fn insert_position(b: Seq<Timer>, round: u32) -> int
    decreases b.len(),
{
    if b.len() == 0 {
        0
    } else if b.first().highest_24_bits >= round {
        0
    } else {
        1 + insert_position(b.drop_first(), round)
    }
}

/// How many timers at the head of `b` carry exactly the round counter
/// `round`: the prefix a tick fires.
pub open spec fn fired_prefix_len(b: Seq<Timer>, round: u32) -> int
    decreases b.len(),
{
    if b.len() == 0 {
        0
    } else if b.first().highest_24_bits != round {
        0
    } else {
        1 + fired_prefix_len(b.drop_first(), round)
    }
}

/// The bucket with the first timer carrying `id` removed; the bucket itself
/// when no timer carries it.
pub open spec fn remove_first_with_id(s: Seq<Timer>, id: usize) -> Seq<Timer>
    decreases s.len(),
{
    if s.len() == 0 {
        s
    } else if s.first().id == id {
        s.drop_first()
    } else {
        seq![s.first()] + remove_first_with_id(s.drop_first(), id)
    }
}

impl Registry {
    /// The buckets, slot by slot.
    pub closed spec fn buckets_view(&self) -> Seq<Seq<Timer>> {
        self.state.buckets@.map_values(|v: Vec<Timer>| v@)
    }

    /// The un-reduced tick counter.
    pub closed spec fn current_time(&self) -> u64 {
        self.state.current_time
    }

    /// The identity the next registered timer will get.
    pub closed spec fn next_timer_id(&self) -> usize {
        self.state.next_timer_id
    }

    /// The identity the next registered timer will get, for callers that
    /// must know whether the identity space is exhausted.
    pub fn next_id(&self) -> (r: usize)
        ensures
            r == self.next_timer_id(),
    {
        self.state.next_timer_id
    }

    /// The registry's invariant: a full wheel of buckets, each in
    /// non-decreasing round-counter order, holding pairwise distinct timer
    /// identities all drawn before `next_timer_id`.
    pub open spec fn wf(&self) -> bool {
        &&& self.buckets_view().len() == 256
        &&& forall|b: int|
            0 <= b < 256 ==> bucket_sorted(#[trigger] self.buckets_view()[b])
        &&& ids_unique(self.buckets_view())
        &&& ids_below(self.buckets_view(), self.next_timer_id() as int)
    }

    /// An empty wheel: every slot vacant, the clock and the id source at
    /// zero.
    pub fn new() -> (r: Registry)
        ensures
            r.wf(),
            r.current_time() == 0,
            r.next_timer_id() == 0,
            forall|b: int| 0 <= b < 256 ==> #[trigger] r.buckets_view()[b] == Seq::<Timer>::empty(),
    {
        let mut buckets: Vec<Vec<Timer>> = Vec::new();
        while buckets.len() < NUM_BUCKETS
            invariant
                buckets@.len() <= 256,
                forall|b: int|
                    0 <= b < buckets@.len() ==> #[trigger] buckets@[b]@ == Seq::<Timer>::empty(),
            decreases 256 - buckets.len(),
        {
            buckets.push(Vec::new());
        }
        let r = Registry { state: State { next_timer_id: 0, current_time: 0, buckets } };
        proof {
            assert(forall|b: int|
                0 <= b < 256 ==> #[trigger] r.buckets_view()[b] == Seq::<Timer>::empty());
        }
        r
    }

    /// Registers a one-shot timer due in `expires_in_secs` seconds. The low
    /// 8 bits of the delay pick the slot relative to the current tick; the
    /// high 24 bits ride along as the timer's round counter, filed in
    /// round-counter order within the bucket.
    pub fn start_timer(&mut self, expires_in_secs: u32) -> (h: TimerHandle)
        requires
            old(self).wf(),
            old(self).next_timer_id() < usize::MAX,
        ensures
            final(self).wf(),
            h.timer_id() == old(self).next_timer_id(),
            h.bucket_position() == slot_for(old(self).current_time(), expires_in_secs),
            final(self).current_time() == old(self).current_time(),
            final(self).next_timer_id() == old(self).next_timer_id() + 1,
            ({
                let b = h.bucket_position();
                let t = Timer {
                    id: old(self).next_timer_id(),
                    highest_24_bits: expires_in_secs & 0xFFFFFF00,
                };
                let pos = insert_position(old(self).buckets_view()[b], t.highest_24_bits);
                final(self).buckets_view() == old(self).buckets_view().update(
                    b,
                    old(self).buckets_view()[b].insert(pos, t),
                )
            }),
    {
        let ghost bs = self.buckets_view();
        let timer_id = self.state.next_timer_id;
        self.state.next_timer_id = timer_id + 1;

        let high = highest_24_bits(expires_in_secs);
        let low = lowest_8_bits(expires_in_secs);

        let bucket_position = ((self.state.current_time % 256) as usize + low as usize) % 256;
        proof {
            lemma_small_mod((low as u32) as nat, 256);
            lemma_add_mod_noop(self.state.current_time as int, low as int, 256);
            assert(bucket_position as int == slot_for(self.state.current_time, expires_in_secs));
        }

        let ghost bv = bs[bucket_position as int];
        let bucket_len = self.state.buckets[bucket_position].len();
        let mut pos: usize = 0;
        while pos < bucket_len && self.state.buckets[bucket_position][pos].highest_24_bits < high
            invariant
                self.buckets_view() == bs,
                bs.len() == 256,
                0 <= bucket_position < 256,
                bv == bs[bucket_position as int],
                bucket_len == bv.len(),
                0 <= pos <= bucket_len,
                forall|j: int| 0 <= j < pos ==> #[trigger] bv[j].highest_24_bits < high,
            decreases bucket_len - pos,
        {
            pos += 1;
        }
        proof {
            lemma_insert_position_at(bv, high, pos as int);
        }

        let timer = Timer { id: timer_id, highest_24_bits: high };
        self.state.buckets[bucket_position].insert(pos, timer);

        proof {
            assert(self.buckets_view() =~= bs.update(
                bucket_position as int,
                bv.insert(pos as int, timer),
            ));
            lemma_wf_after_insert(bs, bucket_position as int, pos as int, timer, high);
        }

        TimerHandle { bucket_position, timer_id }
    }

    /// Cancels the pending timer the handle names: removes it from its slot
    /// if it is still there, and does nothing when it has already fired or
    /// been cancelled.
    pub fn stop_timer(&mut self, timer_handle: &TimerHandle)
        requires
            old(self).wf(),
            0 <= timer_handle.bucket_position() < 256,
        ensures
            final(self).wf(),
            final(self).current_time() == old(self).current_time(),
            final(self).next_timer_id() == old(self).next_timer_id(),
            final(self).buckets_view() == old(self).buckets_view().update(
                timer_handle.bucket_position(),
                remove_first_with_id(
                    old(self).buckets_view()[timer_handle.bucket_position()],
                    timer_handle.timer_id(),
                ),
            ),
    {
        let ghost bs = self.buckets_view();
        let b = timer_handle.bucket_position;
        let ghost bv = bs[b as int];
        let bucket_len = self.state.buckets[b].len();
        let mut i: usize = 0;
        while i < bucket_len
            invariant
                self.buckets_view() == bs,
                bs == old(self).buckets_view(),
                bs.len() == 256,
                b == timer_handle.bucket_position(),
                0 <= b < 256,
                bv == bs[b as int],
                bucket_len == bv.len(),
                0 <= i <= bucket_len,
                self.state.next_timer_id == old(self).next_timer_id(),
                self.state.current_time == old(self).current_time(),
                old(self).wf(),
                forall|j: int| 0 <= j < i ==> #[trigger] bv[j].id != timer_handle.timer_id(),
            decreases bucket_len - i,
        {
            if self.state.buckets[b][i].id == timer_handle.timer_id {
                self.state.buckets[b].remove(i);
                proof {
                    lemma_remove_first_at(bv, timer_handle.timer_id, i as int);
                    assert(self.buckets_view() =~= bs.update(b as int, bv.remove(i as int)));
                    lemma_wf_after_remove(bs, b as int, i as int);
                    assert(old(self).wf());
                    assert(ids_below(self.buckets_view(), old(self).next_timer_id() as int));
                }
                return ;
            }
            i += 1;
        }
        proof {
            lemma_remove_first_absent(bv, timer_handle.timer_id);
            assert(bs.update(b as int, bv) =~= bs);
        }
    }

    /// How many timers wait in the given slot.
    pub fn bucket_len(&self, bucket: usize) -> (n: usize)
        requires
            self.wf(),
            bucket < 256,
        ensures
            n == self.buckets_view()[bucket as int].len(),
    {
        self.state.buckets[bucket].len()
    }

    /// The round counter of the timer at position `i` of the given slot.
    pub fn bucket_round_at(&self, bucket: usize, i: usize) -> (r: u32)
        requires
            self.wf(),
            bucket < 256,
            (i as int) < self.buckets_view()[bucket as int].len(),
        ensures
            r == self.buckets_view()[bucket as int][i as int].highest_24_bits,
    {
        self.state.buckets[bucket][i].highest_24_bits
    }

    /// One tick: the counter advances, the hand lands on the next slot, and
    /// the bucket's head run of timers whose round counter matches the
    /// clock's fires, in stored order; the rest of the bucket waits for a
    /// later revolution. Returns the fired identities.
    pub fn expire_timers(&mut self) -> (fired: Vec<usize>)
        requires
            old(self).wf(),
            old(self).current_time() < u64::MAX,
        ensures
            final(self).wf(),
            final(self).current_time() == old(self).current_time() + 1,
            final(self).next_timer_id() == old(self).next_timer_id(),
            ({
                let t = old(self).current_time() + 1;
                let b = t as int % 256;
                let k = fired_prefix_len(old(self).buckets_view()[b], round_of(t as u64));
                &&& fired@ == old(self).buckets_view()[b].take(k).map_values(|tm: Timer| tm.id)
                &&& final(self).buckets_view() == old(self).buckets_view().update(
                    b,
                    old(self).buckets_view()[b].skip(k),
                )
            }),
    {
        let ghost bs = self.buckets_view();
        self.state.current_time = self.state.current_time + 1;
        let t = self.state.current_time;
        let b = (t % 256) as usize;
        let reduced = (t % 0x1_0000_0000) as u32;
        let round = highest_24_bits(reduced);
        proof {
            assert(round == round_of(t));
        }

        let ghost bv = bs[b as int];
        let bucket_len = self.state.buckets[b].len();
        let mut fired: Vec<usize> = Vec::new();
        let mut k: usize = 0;
        while k < bucket_len && self.state.buckets[b][k].highest_24_bits == round
            invariant
                self.buckets_view() == bs,
                bs.len() == 256,
                0 <= b < 256,
                bv == bs[b as int],
                bucket_len == bv.len(),
                0 <= k <= bucket_len,
                forall|j: int| 0 <= j < k ==> #[trigger] bv[j].highest_24_bits == round,
                fired@ == bv.take(k as int).map_values(|tm: Timer| tm.id),
            decreases bucket_len - k,
        {
            let id = self.state.buckets[b][k].id;
            fired.push(id);
            proof {
                assert(bv.take(k + 1).map_values(|tm: Timer| tm.id) =~= bv.take(
                    k as int,
                ).map_values(|tm: Timer| tm.id).push(bv[k as int].id));
            }
            k += 1;
        }
        proof {
            lemma_fired_prefix_at(bv, round, k as int);
        }

        let mut kept: Vec<Timer> = Vec::new();
        let mut j: usize = k;
        while j < bucket_len
            invariant
                self.buckets_view() == bs,
                bs.len() == 256,
                0 <= b < 256,
                bv == bs[b as int],
                bucket_len == bv.len(),
                k <= j <= bucket_len,
                kept@ == bv.subrange(k as int, j as int),
            decreases bucket_len - j,
        {
            let tm = self.state.buckets[b][j];
            kept.push(tm);
            proof {
                assert(bv.subrange(k as int, j + 1) =~= bv.subrange(k as int, j as int).push(
                    bv[j as int],
                ));
            }
            j += 1;
        }
        proof {
            assert(kept@ =~= bv.skip(k as int));
        }
        self.state.buckets[b] = kept;

        proof {
            assert(self.buckets_view() =~= bs.update(b as int, bv.skip(k as int)));
            lemma_wf_after_skip(bs, b as int, k as int);
        }
        fired
    }
}

proof fn lemma_insert_position_at(b: Seq<Timer>, round: u32, i: int)
    requires
        0 <= i <= b.len(),
        forall|j: int| 0 <= j < i ==> #[trigger] b[j].highest_24_bits < round,
        i < b.len() ==> b[i].highest_24_bits >= round,
    ensures
        insert_position(b, round) == i,
    decreases i,
{
    if i == 0 {
    } else {
        assert(b.first().highest_24_bits < round);
        lemma_insert_position_at(b.drop_first(), round, i - 1);
    }
}

proof fn lemma_fired_prefix_at(b: Seq<Timer>, round: u32, i: int)
    requires
        0 <= i <= b.len(),
        forall|j: int| 0 <= j < i ==> #[trigger] b[j].highest_24_bits == round,
        i < b.len() ==> b[i].highest_24_bits != round,
    ensures
        fired_prefix_len(b, round) == i,
    decreases i,
{
    if i == 0 {
    } else {
        lemma_fired_prefix_at(b.drop_first(), round, i - 1);
    }
}

proof fn lemma_remove_first_at(s: Seq<Timer>, id: usize, i: int)
    requires
        0 <= i < s.len(),
        s[i].id == id,
        forall|j: int| 0 <= j < i ==> #[trigger] s[j].id != id,
    ensures
        remove_first_with_id(s, id) == s.remove(i),
    decreases i,
{
    if i == 0 {
        assert(s.drop_first() =~= s.remove(0));
    } else {
        lemma_remove_first_at(s.drop_first(), id, i - 1);
        assert(seq![s.first()] + s.drop_first().remove(i - 1) =~= s.remove(i));
    }
}

proof fn lemma_remove_first_absent(s: Seq<Timer>, id: usize)
    requires
        forall|j: int| 0 <= j < s.len() ==> #[trigger] s[j].id != id,
    ensures
        remove_first_with_id(s, id) == s,
    decreases s.len(),
{
    if s.len() > 0 {
        lemma_remove_first_absent(s.drop_first(), id);
        assert(seq![s.first()] + s.drop_first() =~= s);
    }
}

/// Inserting a fresh-id timer at its sorted position keeps every part of
/// the invariant.
proof fn lemma_wf_after_insert(bs: Seq<Seq<Timer>>, b: int, pos: int, t: Timer, round: u32)
    requires
        bs.len() == 256,
        0 <= b < 256,
        forall|bb: int| 0 <= bb < 256 ==> bucket_sorted(#[trigger] bs[bb]),
        ids_unique(bs),
        ids_below(bs, t.id as int),
        t.highest_24_bits == round,
        pos == insert_position(bs[b], round),
    ensures
        forall|bb: int|
            0 <= bb < 256 ==> bucket_sorted(
                #[trigger] bs.update(b, bs[b].insert(pos, t))[bb],
            ),
        ids_unique(bs.update(b, bs[b].insert(pos, t))),
        ids_below(bs.update(b, bs[b].insert(pos, t)), t.id + 1),
{
    let ob = bs[b];
    lemma_insert_position_bounds(ob, round);
    let nb = ob.insert(pos, t);
    let nbs = bs.update(b, nb);

    assert forall|i: int| 0 <= i < nb.len() implies (if i < pos {
        nb[i] == ob[i]
    } else if i == pos {
        nb[i] == t
    } else {
        nb[i] == ob[i - 1]
    }) by {}

    assert(bucket_sorted(nb)) by {
        lemma_insert_position_prefix(ob, round);
        assert forall|i: int, j: int|
            0 <= i < j < nb.len() implies nb[i].highest_24_bits <= nb[j].highest_24_bits by {
            if i < pos && j == pos {
            } else if i == pos && j > pos {
                assert(nb[j] == ob[j - 1]);
                if j - 1 > pos {
                    assert(ob[pos].highest_24_bits <= ob[j - 1].highest_24_bits);
                }
            }
        }
    }

    assert forall|bb: int| 0 <= bb < 256 implies bucket_sorted(#[trigger] nbs[bb]) by {
        if bb != b {
            assert(nbs[bb] == bs[bb]);
        }
    }

    assert(ids_unique(nbs)) by {
        assert forall|b1: int, i1: int, b2: int, i2: int|
            0 <= b1 < nbs.len() && 0 <= i1 < nbs[b1].len() && 0 <= b2 < nbs.len() && 0 <= i2
                < nbs[b2].len() && (b1 != b2 || i1 != i2) implies #[trigger] nbs[b1][i1].id
            != #[trigger] nbs[b2][i2].id by {
            let o1 = orig_index(b1, i1, b, pos);
            let o2 = orig_index(b2, i2, b, pos);
            if b1 == b && i1 == pos {
                if !(b2 == b && i2 == pos) {
                    assert(nbs[b2][i2] == bs[b2][o2]);
                    assert(bs[b2][o2].id < t.id);
                }
            } else if b2 == b && i2 == pos {
                assert(nbs[b1][i1] == bs[b1][o1]);
                assert(bs[b1][o1].id < t.id);
            } else {
                assert(nbs[b1][i1] == bs[b1][o1]);
                assert(nbs[b2][i2] == bs[b2][o2]);
            }
        }
    }

    assert(ids_below(nbs, t.id + 1)) by {
        assert forall|bb: int, i: int|
            0 <= bb < nbs.len() && 0 <= i < nbs[bb].len() implies #[trigger] nbs[bb][i].id < t.id
            + 1 by {
            if !(bb == b && i == pos) {
                assert(nbs[bb][i] == bs[bb][orig_index(bb, i, b, pos)]);
            }
        }
    }
}

/// The index in the old buckets of the element now at `(bb, i)` after an
/// insertion at `(b, pos)`; meaningful except at the inserted spot itself.
spec fn orig_index(bb: int, i: int, b: int, pos: int) -> int {
    if bb == b && i > pos {
        i - 1
    } else {
        i
    }
}

proof fn lemma_insert_position_bounds(b: Seq<Timer>, round: u32)
    ensures
        0 <= insert_position(b, round) <= b.len(),
    decreases b.len(),
{
    if b.len() > 0 && b.first().highest_24_bits < round {
        lemma_insert_position_bounds(b.drop_first(), round);
    }
}

/// Everything strictly before the insert position has a smaller round
/// counter; everything at or past it, one at least as large (in a sorted
/// bucket).
proof fn lemma_insert_position_prefix(b: Seq<Timer>, round: u32)
    requires
        bucket_sorted(b),
    ensures
        forall|j: int|
            0 <= j < insert_position(b, round) ==> #[trigger] b[j].highest_24_bits < round,
        forall|j: int|
            insert_position(b, round) <= j < b.len() ==> #[trigger] b[j].highest_24_bits >= round,
    decreases b.len(),
{
    lemma_insert_position_bounds(b, round);
    if b.len() > 0 {
        let pos = insert_position(b, round);
        if b.first().highest_24_bits >= round {
            assert forall|j: int| pos <= j < b.len() implies #[trigger] b[j].highest_24_bits
                >= round by {
                if j > 0 {
                    assert(b[0].highest_24_bits <= b[j].highest_24_bits);
                }
            }
        } else {
            assert(bucket_sorted(b.drop_first())) by {
                assert forall|i: int, j: int|
                    0 <= i < j < b.drop_first().len() implies #[trigger] b.drop_first()[i].highest_24_bits
                    <= #[trigger] b.drop_first()[j].highest_24_bits by {
                    assert(b[i + 1].highest_24_bits <= b[j + 1].highest_24_bits);
                }
            }
            lemma_insert_position_prefix(b.drop_first(), round);
            assert forall|j: int| 0 <= j < pos implies #[trigger] b[j].highest_24_bits < round by {
                if j > 0 {
                    assert(b.drop_first()[j - 1].highest_24_bits < round);
                }
            }
            assert forall|j: int| pos <= j < b.len() implies #[trigger] b[j].highest_24_bits
                >= round by {
                assert(b.drop_first()[j - 1].highest_24_bits >= round);
            }
        }
    }
}

/// Dropping one bucket element keeps sortedness, distinctness and the id
/// bound.
proof fn lemma_wf_after_remove(bs: Seq<Seq<Timer>>, b: int, i: int)
    requires
        bs.len() == 256,
        0 <= b < 256,
        0 <= i < bs[b].len(),
        forall|bb: int| 0 <= bb < 256 ==> bucket_sorted(#[trigger] bs[bb]),
        ids_unique(bs),
    ensures
        forall|bb: int|
            0 <= bb < 256 ==> bucket_sorted(#[trigger] bs.update(b, bs[b].remove(i))[bb]),
        ids_unique(bs.update(b, bs[b].remove(i))),
        forall|bound: int| ids_below(bs, bound) ==> ids_below(bs.update(b, bs[b].remove(i)), bound),
{
    let nb = bs[b].remove(i);
    let nbs = bs.update(b, nb);
    assert forall|j: int| 0 <= j < nb.len() implies nb[j] == (if j < i {
        bs[b][j]
    } else {
        bs[b][j + 1]
    }) by {}
    assert forall|bb: int| 0 <= bb < 256 implies bucket_sorted(#[trigger] nbs[bb]) by {
        if bb == b {
            assert forall|x: int, y: int|
                0 <= x < y < nb.len() implies nb[x].highest_24_bits <= nb[y].highest_24_bits by {
                let ox: int = if x < i { x } else { x + 1 };
                let oy: int = if y < i { y } else { y + 1 };
                assert(bs[b][ox].highest_24_bits <= bs[b][oy].highest_24_bits);
            }
        }
    }
    assert(ids_unique(nbs)) by {
        assert forall|b1: int, i1: int, b2: int, i2: int|
            0 <= b1 < nbs.len() && 0 <= i1 < nbs[b1].len() && 0 <= b2 < nbs.len() && 0 <= i2
                < nbs[b2].len() && (b1 != b2 || i1 != i2) implies #[trigger] nbs[b1][i1].id
            != #[trigger] nbs[b2][i2].id by {
            let o1: int = if b1 == b && i1 >= i {
                i1 + 1
            } else {
                i1
            };
            let o2: int = if b2 == b && i2 >= i {
                i2 + 1
            } else {
                i2
            };
            assert(nbs[b1][i1] == bs[b1][o1]);
            assert(nbs[b2][i2] == bs[b2][o2]);
        }
    }
    assert forall|bound: int| ids_below(bs, bound) implies ids_below(nbs, bound) by {
        assert forall|bb: int, j: int|
            ids_below(bs, bound) && 0 <= bb < nbs.len() && 0 <= j
                < nbs[bb].len() implies #[trigger] nbs[bb][j].id < bound by {
            let oj: int = if bb == b && j >= i {
                j + 1
            } else {
                j
            };
            assert(nbs[bb][j] == bs[bb][oj]);
        }
    }
}

/// Dropping a bucket prefix keeps sortedness, distinctness and the id
/// bound.
proof fn lemma_wf_after_skip(bs: Seq<Seq<Timer>>, b: int, k: int)
    requires
        bs.len() == 256,
        0 <= b < 256,
        0 <= k <= bs[b].len(),
        forall|bb: int| 0 <= bb < 256 ==> bucket_sorted(#[trigger] bs[bb]),
        ids_unique(bs),
    ensures
        forall|bb: int|
            0 <= bb < 256 ==> bucket_sorted(#[trigger] bs.update(b, bs[b].skip(k))[bb]),
        ids_unique(bs.update(b, bs[b].skip(k))),
        forall|bound: int| ids_below(bs, bound) ==> ids_below(bs.update(b, bs[b].skip(k)), bound),
{
    let nb = bs[b].skip(k);
    let nbs = bs.update(b, nb);
    assert forall|j: int| 0 <= j < nb.len() implies nb[j] == bs[b][j + k] by {}
    assert forall|bb: int| 0 <= bb < 256 implies bucket_sorted(#[trigger] nbs[bb]) by {
        if bb == b {
            assert forall|x: int, y: int|
                0 <= x < y < nb.len() implies nb[x].highest_24_bits <= nb[y].highest_24_bits by {
                assert(bs[b][x + k].highest_24_bits <= bs[b][y + k].highest_24_bits);
            }
        }
    }
    assert(ids_unique(nbs)) by {
        assert forall|b1: int, i1: int, b2: int, i2: int|
            0 <= b1 < nbs.len() && 0 <= i1 < nbs[b1].len() && 0 <= b2 < nbs.len() && 0 <= i2
                < nbs[b2].len() && (b1 != b2 || i1 != i2) implies #[trigger] nbs[b1][i1].id
            != #[trigger] nbs[b2][i2].id by {
            let o1: int = if b1 == b {
                i1 + k
            } else {
                i1
            };
            let o2: int = if b2 == b {
                i2 + k
            } else {
                i2
            };
            assert(nbs[b1][i1] == bs[b1][o1]);
            assert(nbs[b2][i2] == bs[b2][o2]);
        }
    }
    assert forall|bound: int| ids_below(bs, bound) implies ids_below(nbs, bound) by {
        assert forall|bb: int, j: int|
            ids_below(bs, bound) && 0 <= bb < nbs.len() && 0 <= j
                < nbs[bb].len() implies #[trigger] nbs[bb][j].id < bound by {
            let oj: int = if bb == b {
                j + k
            } else {
                j
            };
            assert(nbs[bb][j] == bs[bb][oj]);
        }
    }
}

/// Whether some timer in the bucket carries `id`.
pub open spec fn contains_id(b: Seq<Timer>, id: usize) -> bool {
    exists|j: int| 0 <= j < b.len() && b[j].id == id
}

/// Whether some pending timer anywhere in the wheel carries `id`.
pub open spec fn wheel_contains_id(bs: Seq<Seq<Timer>>, id: usize) -> bool {
    exists|b: int, i: int| 0 <= b < bs.len() && 0 <= i < bs[b].len() && bs[b][i].id == id
}

/// Bucket order: in a well-formed wheel every bucket's round counters
/// stand in non-decreasing order, so each operation leaves them so.
pub proof fn lemma_bucket_order(r: &Registry, b: int, i: int, j: int)
    requires
        r.wf(),
        0 <= b < 256,
        0 <= i <= j < r.buckets_view()[b].len(),
    ensures
        r.buckets_view()[b][i].highest_24_bits <= r.buckets_view()[b][j].highest_24_bits,
{
}

/// At most once: a tick's fired identities are pairwise distinct, and none
/// of them is pending anywhere in the wheel afterwards.
pub proof fn lemma_at_most_once(bs: Seq<Seq<Timer>>, b: int, k: int)
    requires
        bs.len() == 256,
        0 <= b < 256,
        0 <= k <= bs[b].len(),
        ids_unique(bs),
    ensures
        forall|x: int, y: int| #![trigger bs[b][x], bs[b][y]] 0 <= x < y < k ==> bs[b][x].id != bs[b][y].id,
        forall|x: int|
            0 <= x < k ==> !wheel_contains_id(bs.update(b, bs[b].skip(k)), #[trigger] bs[b][x].id),
{
    let nbs = bs.update(b, bs[b].skip(k));
    assert forall|x: int| 0 <= x < k implies !wheel_contains_id(
        nbs,
        #[trigger] bs[b][x].id,
    ) by {
        if wheel_contains_id(nbs, bs[b][x].id) {
            let (b2, i2) = choose|b2: int, i2: int|
                0 <= b2 < nbs.len() && 0 <= i2 < nbs[b2].len() && nbs[b2][i2].id == bs[b][x].id;
            if b2 == b {
                assert(nbs[b2][i2] == bs[b][i2 + k]);
            } else {
                assert(nbs[b2][i2] == bs[b2][i2]);
            }
        }
    }
}

/// No fire after cancel: removing a pending timer removes its only
/// occurrence, so its identity is pending nowhere afterwards and no later
/// tick can fire it.
pub proof fn lemma_no_fire_after_cancel(bs: Seq<Seq<Timer>>, b: int, id: usize)
    requires
        bs.len() == 256,
        0 <= b < 256,
        ids_unique(bs),
        contains_id(bs[b], id),
    ensures
        !wheel_contains_id(bs.update(b, remove_first_with_id(bs[b], id)), id),
{
    let x = choose|x: int| 0 <= x < bs[b].len() && bs[b][x].id == id;
    let first = seq_first_index_with_id(bs[b], id);
    lemma_first_index_with_id(bs[b], id, x);
    lemma_remove_first_at(bs[b], id, first);
    let nb = bs[b].remove(first);
    let nbs = bs.update(b, nb);
    if wheel_contains_id(nbs, id) {
        let (b2, i2) = choose|b2: int, i2: int|
            0 <= b2 < nbs.len() && 0 <= i2 < nbs[b2].len() && nbs[b2][i2].id == id;
        if b2 == b {
            let o2: int = if i2 >= first {
                i2 + 1
            } else {
                i2
            };
            assert(nbs[b2][i2] == bs[b][o2]);
        } else {
            assert(nbs[b2][i2] == bs[b2][i2]);
        }
    }
}

/// The least bucket index holding `id`; the bucket length when none does.
spec fn seq_first_index_with_id(b: Seq<Timer>, id: usize) -> int
    decreases b.len(),
{
    if b.len() == 0 {
        0
    } else if b.first().id == id {
        0
    } else {
        1 + seq_first_index_with_id(b.drop_first(), id)
    }
}

proof fn lemma_first_index_with_id(b: Seq<Timer>, id: usize, x: int)
    requires
        0 <= x < b.len(),
        b[x].id == id,
    ensures
        0 <= seq_first_index_with_id(b, id) <= x,
        b[seq_first_index_with_id(b, id)].id == id,
        forall|j: int| #![trigger b[j]] 0 <= j < seq_first_index_with_id(b, id) ==> b[j].id != id,
    decreases b.len(),
{
    if b.first().id != id {
        lemma_first_index_with_id(b.drop_first(), id, x - 1);
        let f = seq_first_index_with_id(b, id);
        assert(b[f] == b.drop_first()[f - 1]);
        assert forall|j: int| #![trigger b[j]] 0 <= j < f implies b[j].id != id by {
            if j > 0 {
                assert(b[j] == b.drop_first()[j - 1]);
            }
        }
    }
}

/// Round trip: registering a timer and cancelling it at once restores the
/// bucket, because the fresh identity matches only the inserted timer.
pub proof fn lemma_stop_undoes_start(b: Seq<Timer>, t: Timer, pos: int)
    requires
        0 <= pos <= b.len(),
        forall|j: int| #![trigger b[j]] 0 <= j < b.len() ==> b[j].id != t.id,
    ensures
        remove_first_with_id(b.insert(pos, t), t.id) == b,
    decreases pos,
{
    let ins = b.insert(pos, t);
    if pos == 0 {
        assert(ins.first() == t);
        assert(ins.drop_first() =~= b);
    } else {
        assert(ins.first() == b.first());
        assert(ins.drop_first() =~= b.drop_first().insert(pos - 1, t));
        assert forall|j: int| #![trigger b.drop_first()[j]]
            0 <= j < b.drop_first().len() implies b.drop_first()[j].id != t.id by {
            assert(b.drop_first()[j] == b[j + 1]);
        }
        lemma_stop_undoes_start(b.drop_first(), t, pos - 1);
        assert(seq![b.first()] + b.drop_first() =~= b);
    }
}

proof fn lemma_fired_prefix_range(b: Seq<Timer>, round: u32)
    ensures
        0 <= fired_prefix_len(b, round) <= b.len(),
        forall|j: int|
            #![trigger b[j]]
            0 <= j < fired_prefix_len(b, round) ==> b[j].highest_24_bits == round,
        fired_prefix_len(b, round) < b.len() ==> b[fired_prefix_len(b, round)].highest_24_bits
            != round,
    decreases b.len(),
{
    if b.len() > 0 && b.first().highest_24_bits == round {
        lemma_fired_prefix_range(b.drop_first(), round);
        let k = fired_prefix_len(b, round);
        assert forall|j: int| #![trigger b[j]] 0 <= j < k implies b[j].highest_24_bits
            == round by {
            if j > 0 {
                assert(b.drop_first()[j - 1].highest_24_bits == round);
            }
        }
        if k < b.len() {
            assert(b[k] == b.drop_first()[k - 1]);
        }
    }
}

/// No early fire and no late fire, at the bucket level: a tick fires only
/// timers carrying the clock's round counter, and when no stale timer
/// sits in the bucket (every round counter at least the clock's), the
/// fired prefix holds every timer of the current round and nothing else
/// stays behind with it.
pub proof fn lemma_fired_prefix_exact(b: Seq<Timer>, round: u32)
    requires
        bucket_sorted(b),
        forall|x: int| #![trigger b[x]] 0 <= x < b.len() ==> b[x].highest_24_bits >= round,
    ensures
        forall|x: int|
            #![trigger b[x]]
            0 <= x < fired_prefix_len(b, round) ==> b[x].highest_24_bits == round,
        forall|x: int|
            #![trigger b[x]]
            fired_prefix_len(b, round) <= x < b.len() ==> b[x].highest_24_bits > round,
{
    lemma_fired_prefix_range(b, round);
    let k = fired_prefix_len(b, round);
    assert forall|x: int| #![trigger b[x]] k <= x < b.len() implies b[x].highest_24_bits
        > round by {
        assert(b[k as int].highest_24_bits >= round);
        assert(b[k as int].highest_24_bits != round);
        if x > k {
            assert(b[k as int].highest_24_bits <= b[x].highest_24_bits);
        }
    }
}

} // verus!
