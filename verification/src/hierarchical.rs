//! The hierarchical wheel: three cascaded wheels of 60 second-buckets, 60
//! minute-buckets and 24 hour-buckets, with hands that advance like an
//! analog clock. A delay is split into residual components `(seconds,
//! minutes, hours)` and the timer is filed in the coarsest wheel whose
//! component is non-zero. When a hand wraps, the next coarser bucket is
//! drained: timers whose finer residuals are all zero fire, the rest are
//! demoted into the finer wheel that matches their residual.

use vstd::prelude::*;

verus! {

/// Seconds in a minute: the size of the finest wheel.
pub const SECONDS_IN_A_MINUTE: u32 = 60;

/// Minutes in an hour: the size of the middle wheel.
pub const MINUTES_IN_A_HOUR: u32 = 60;

/// Hours in a day: the size of the coarsest wheel.
pub const HOURS_IN_A_DAY: u32 = 24;

/// A pending one-shot timer: its identity and the residual components of
/// its delay. The components are fixed at registration; demotion moves the
/// timer between wheels without rewriting them.
#[derive(Clone, Copy)]
pub struct Timer {
    pub id: u64,
    pub seconds: u32,
    pub minutes: u32,
    pub hours: u32,
}

/// The three hands of the clock.
struct Clocks {
    second: u32,
    minute: u32,
    hour: u32,
}

impl Clocks {
    fn new() -> (r: Clocks)
        ensures
            r.second == 0,
            r.minute == 0,
            r.hour == 0,
    {
        Clocks { second: 0, minute: 0, hour: 0 }
    }
}

/// The three wheels of buckets.
struct Buckets {
    seconds: Vec<Vec<Timer>>,
    minutes: Vec<Vec<Timer>>,
    hours: Vec<Vec<Timer>>,
}

impl Buckets {
    fn new() -> (r: Buckets)
        ensures
            all_empty(wheel_view(r.seconds), 60),
            all_empty(wheel_view(r.minutes), 60),
            all_empty(wheel_view(r.hours), 24),
    {
        Buckets { seconds: empty_wheel(60), minutes: empty_wheel(60), hours: empty_wheel(24) }
    }
}

/// The registry state: the hands, the wheels, and the monotone timer-id
/// source.
pub struct State {
    clocks: Clocks,
    buckets: Buckets,
    next_timer_id: u64,
}

/// The hierarchical-wheel registry.
pub struct Registry {
    state: State,
}

/// Names a pending timer for cancellation: the residual components it was
/// filed under and its identity.
pub struct TimerHandle {
    seconds: u32,
    minutes: u32,
    hours: u32,
    timer_id: u64,
}

impl TimerHandle {
    /// The seconds component of the timer's delay.
    pub closed spec fn seconds(&self) -> u32 {
        self.seconds
    }

    /// The minutes component of the timer's delay.
    pub closed spec fn minutes(&self) -> u32 {
        self.minutes
    }

    /// The hours component of the timer's delay.
    pub closed spec fn hours(&self) -> u32 {
        self.hours
    }

    /// The timer's identity.
    pub closed spec fn timer_id(&self) -> u64 {
        self.timer_id
    }

    /// The timer's identity, for callers that key their own bookkeeping
    /// by it.
    pub fn id(&self) -> (r: u64)
        ensures
            r == self.timer_id(),
    {
        self.timer_id
    }

    /// The components name real buckets.
    pub open spec fn wf(&self) -> bool {
        self.seconds() < 60 && self.minutes() < 60 && self.hours() < 24
    }
}

/// A wheel as a sequence of bucket contents.
pub open spec fn wheel_view(v: Vec<Vec<Timer>>) -> Seq<Seq<Timer>> {
    v@.map_values(|b: Vec<Timer>| b@)
}

/// A wheel of `n` buckets, all vacant.
pub open spec fn all_empty(ws: Seq<Seq<Timer>>, n: int) -> bool {
    ws.len() == n && forall|i: int| 0 <= i < n ==> #[trigger] ws[i] == Seq::<Timer>::empty()
}

/// The residual components stay inside their wheels.
pub open spec fn timer_ranged(t: Timer) -> bool {
    t.seconds < 60 && t.minutes < 60 && t.hours < 24
}

/// Every timer in the wheel sits in the bucket its seconds component names.
pub open spec fn placed_by_seconds(ws: Seq<Seq<Timer>>) -> bool {
    forall|i: int, j: int| #![trigger ws[i][j]]
        0 <= i < ws.len() && 0 <= j < ws[i].len() ==> ws[i][j].seconds == i && timer_ranged(
            ws[i][j],
        )
}

/// Every timer in the wheel sits in the bucket its minutes component names.
pub open spec fn placed_by_minutes(ws: Seq<Seq<Timer>>) -> bool {
    forall|i: int, j: int| #![trigger ws[i][j]]
        0 <= i < ws.len() && 0 <= j < ws[i].len() ==> ws[i][j].minutes == i && timer_ranged(
            ws[i][j],
        )
}

/// Every timer in the wheel sits in the bucket its hours component names.
pub open spec fn placed_by_hours(ws: Seq<Seq<Timer>>) -> bool {
    forall|i: int, j: int| #![trigger ws[i][j]]
        0 <= i < ws.len() && 0 <= j < ws[i].len() ==> ws[i][j].hours == i && timer_ranged(
            ws[i][j],
        )
}

/// Every identity in the wheel was drawn before `bound`.
pub open spec fn wheel_ids_below(ws: Seq<Seq<Timer>>, bound: int) -> bool {
    forall|i: int, j: int| #![trigger ws[i][j]]
        0 <= i < ws.len() && 0 <= j < ws[i].len() ==> ws[i][j].id < bound
}

/// The identities of a bucket, in stored order.
pub open spec fn ids_of(b: Seq<Timer>) -> Seq<u64>
    decreases b.len(),
{
    if b.len() == 0 {
        Seq::empty()
    } else {
        ids_of(b.drop_last()).push(b.last().id)
    }
}

/// The identities a minute-bucket drain fires: the timers with no seconds
/// residual left, in stored order.
pub open spec fn minute_fired_ids(b: Seq<Timer>) -> Seq<u64>
    decreases b.len(),
{
    if b.len() == 0 {
        Seq::empty()
    } else if b.last().seconds == 0 {
        minute_fired_ids(b.drop_last()).push(b.last().id)
    } else {
        minute_fired_ids(b.drop_last())
    }
}

/// The timers a minute-bucket drain demotes into seconds bucket `j`, in
/// stored order.
pub open spec fn minute_demoted_to(b: Seq<Timer>, j: int) -> Seq<Timer>
    decreases b.len(),
{
    if b.len() == 0 {
        Seq::empty()
    } else if b.last().seconds != 0 && b.last().seconds == j {
        minute_demoted_to(b.drop_last(), j).push(b.last())
    } else {
        minute_demoted_to(b.drop_last(), j)
    }
}

/// All the timers a minute-bucket drain demotes, whatever their target.
pub open spec fn minute_demoted(b: Seq<Timer>) -> Seq<Timer>
    decreases b.len(),
{
    if b.len() == 0 {
        Seq::empty()
    } else if b.last().seconds != 0 {
        minute_demoted(b.drop_last()).push(b.last())
    } else {
        minute_demoted(b.drop_last())
    }
}

/// The identities an hour-bucket drain fires: the timers with no finer
/// residual left, in stored order.
pub open spec fn hour_fired_ids(b: Seq<Timer>) -> Seq<u64>
    decreases b.len(),
{
    if b.len() == 0 {
        Seq::empty()
    } else if b.last().minutes == 0 && b.last().seconds == 0 {
        hour_fired_ids(b.drop_last()).push(b.last().id)
    } else {
        hour_fired_ids(b.drop_last())
    }
}

/// The timers an hour-bucket drain demotes into minutes bucket `j`, in
/// stored order.
pub open spec fn hour_demoted_to_minutes(b: Seq<Timer>, j: int) -> Seq<Timer>
    decreases b.len(),
{
    if b.len() == 0 {
        Seq::empty()
    } else if b.last().minutes != 0 && b.last().minutes == j {
        hour_demoted_to_minutes(b.drop_last(), j).push(b.last())
    } else {
        hour_demoted_to_minutes(b.drop_last(), j)
    }
}

/// The timers an hour-bucket drain demotes into seconds bucket `j`: those
/// with no minutes residual but a seconds residual, in stored order.
pub open spec fn hour_demoted_to_seconds(b: Seq<Timer>, j: int) -> Seq<Timer>
    decreases b.len(),
{
    if b.len() == 0 {
        Seq::empty()
    } else if b.last().minutes == 0 && b.last().seconds != 0 && b.last().seconds == j {
        hour_demoted_to_seconds(b.drop_last(), j).push(b.last())
    } else {
        hour_demoted_to_seconds(b.drop_last(), j)
    }
}

/// All the timers an hour-bucket drain demotes into the minutes wheel.
pub open spec fn hour_demoted_minutes(b: Seq<Timer>) -> Seq<Timer>
    decreases b.len(),
{
    if b.len() == 0 {
        Seq::empty()
    } else if b.last().minutes != 0 {
        hour_demoted_minutes(b.drop_last()).push(b.last())
    } else {
        hour_demoted_minutes(b.drop_last())
    }
}

/// All the timers an hour-bucket drain demotes into the seconds wheel.
pub open spec fn hour_demoted_seconds(b: Seq<Timer>) -> Seq<Timer>
    decreases b.len(),
{
    if b.len() == 0 {
        Seq::empty()
    } else if b.last().minutes == 0 && b.last().seconds != 0 {
        hour_demoted_seconds(b.drop_last()).push(b.last())
    } else {
        hour_demoted_seconds(b.drop_last())
    }
}

/// The bucket with the first timer carrying `id` removed; the bucket itself
/// when no timer carries it.
pub open spec fn remove_first_with_id(s: Seq<Timer>, id: u64) -> Seq<Timer>
    decreases s.len(),
{
    if s.len() == 0 {
        s
    } else if s.first().id == id {
        s.drop_first()
    } else {
        seq![s.first()] + remove_first_with_id(s.drop_first(), id)
    }
}

/// Whether some timer in the bucket carries `id`.
pub open spec fn contains_id(b: Seq<Timer>, id: u64) -> bool {
    exists|j: int| 0 <= j < b.len() && b[j].id == id
}

/// Splits a delay in seconds into its residual components
/// `(seconds, minutes, hours)`.
pub fn time_components(secs: u32) -> (r: (u32, u32, u32))
    ensures
        r.0 == secs % 60,
        r.1 == (secs % 3600) / 60,
        r.2 == secs / 3600,
        r.0 < 60,
        r.1 < 60,
        secs < 86400 ==> r.2 < 24,
{
    let hours = secs / 3600;
    let minutes = (secs % 3600) / 60;
    let seconds = secs % 60;
    proof {
        assert((secs % 3600) / 60 < 60) by (nonlinear_arith);
        assert(secs < 86400 ==> secs / 3600 < 24) by (nonlinear_arith);
    }
    (seconds, minutes, hours)
}

fn empty_wheel(n: usize) -> (r: Vec<Vec<Timer>>)
    ensures
        all_empty(wheel_view(r), n as int),
{
    let mut r: Vec<Vec<Timer>> = Vec::new();
    while r.len() < n
        invariant
            r@.len() <= n,
            forall|i: int| 0 <= i < r@.len() ==> #[trigger] r@[i]@ == Seq::<Timer>::empty(),
        decreases n - r.len(),
    {
        r.push(Vec::new());
    }
    proof {
        assert(forall|i: int|
            0 <= i < n ==> #[trigger] wheel_view(r)[i] == Seq::<Timer>::empty());
    }
    r
}

/// Appends the identities of bucket `idx` to `fired`, in stored order, and
/// empties the bucket.
fn drain_bucket(buckets: &mut Vec<Vec<Timer>>, idx: usize, fired: &mut Vec<u64>)
    requires
        idx < old(buckets)@.len(),
    ensures
        wheel_view(*final(buckets)) == wheel_view(*old(buckets)).update(
            idx as int,
            Seq::<Timer>::empty(),
        ),
        final(fired)@ == old(fired)@ + ids_of(wheel_view(*old(buckets))[idx as int]),
{
    let ghost bv = buckets@[idx as int]@;
    let n = buckets[idx].len();
    let mut i: usize = 0;
    while i < n
        invariant
            idx < buckets@.len(),
            buckets@ == old(buckets)@,
            bv == buckets@[idx as int]@,
            n == bv.len(),
            0 <= i <= n,
            fired@ == old(fired)@ + ids_of(bv.take(i as int)),
        decreases n - i,
    {
        let id = buckets[idx][i].id;
        fired.push(id);
        proof {
            assert(bv.take(i + 1).drop_last() =~= bv.take(i as int));
            assert(old(fired)@ + ids_of(bv.take(i + 1)) =~= (old(fired)@ + ids_of(
                bv.take(i as int),
            )).push(bv[i as int].id));
        }
        i += 1;
    }
    buckets[idx].clear();
    proof {
        assert(bv.take(n as int) =~= bv);
        assert(wheel_view(*buckets) =~= wheel_view(*old(buckets)).update(
            idx as int,
            Seq::<Timer>::empty(),
        ));
    }
}

/// Drains minutes bucket `idx`: timers with no seconds residual fire (their
/// identities go to `fired`, in stored order); the rest are demoted, each
/// appended to the seconds bucket its residual names.
fn cascade_minutes(
    minutes: &mut Vec<Vec<Timer>>,
    seconds: &mut Vec<Vec<Timer>>,
    idx: usize,
    fired: &mut Vec<u64>,
)
    requires
        idx < old(minutes)@.len(),
        wheel_view(*old(seconds)).len() == 60,
        forall|j: int| #![trigger old(minutes)@[idx as int]@[j]]
            0 <= j < old(minutes)@[idx as int]@.len() ==> old(minutes)@[idx as int]@[j].seconds
                < 60,
    ensures
        wheel_view(*final(minutes)) == wheel_view(*old(minutes)).update(
            idx as int,
            Seq::<Timer>::empty(),
        ),
        wheel_view(*final(seconds)).len() == 60,
        forall|jj: int|
            0 <= jj < 60 ==> #[trigger] wheel_view(*final(seconds))[jj] == wheel_view(
                *old(seconds),
            )[jj] + minute_demoted_to(wheel_view(*old(minutes))[idx as int], jj),
        final(fired)@ == old(fired)@ + minute_fired_ids(wheel_view(*old(minutes))[idx as int]),
{
    let ghost mb = minutes@[idx as int]@;
    let ghost sv0 = wheel_view(*old(seconds));
    let n = minutes[idx].len();
    let mut i: usize = 0;
    while i < n
        invariant
            idx < minutes@.len(),
            minutes@ == old(minutes)@,
            mb == minutes@[idx as int]@,
            n == mb.len(),
            0 <= i <= n,
            forall|j: int| #![trigger mb[j]] 0 <= j < mb.len() ==> mb[j].seconds < 60,
            sv0 == wheel_view(*old(seconds)),
            wheel_view(*seconds).len() == 60,
            forall|jj: int|
                0 <= jj < 60 ==> #[trigger] wheel_view(*seconds)[jj] == sv0[jj]
                    + minute_demoted_to(mb.take(i as int), jj),
            fired@ == old(fired)@ + minute_fired_ids(mb.take(i as int)),
        decreases n - i,
    {
        let t = minutes[idx][i];
        proof {
            assert(mb.take(i + 1).drop_last() =~= mb.take(i as int));
            assert(mb.take(i + 1).last() == mb[i as int]);
        }
        if t.seconds == 0 {
            fired.push(t.id);
            proof {
                assert(old(fired)@ + minute_fired_ids(mb.take(i + 1)) =~= (old(fired)@
                    + minute_fired_ids(mb.take(i as int))).push(mb[i as int].id));
                assert(forall|jj: int|
                    0 <= jj < 60 ==> minute_demoted_to(mb.take(i + 1), jj)
                        == minute_demoted_to(#[trigger] mb.take(i as int), jj));
            }
        } else {
            let ghost before = wheel_view(*seconds);
            let target = t.seconds as usize;
            seconds[target].push(t);
            proof {
                assert(wheel_view(*seconds) =~= before.update(
                    target as int,
                    before[target as int].push(t),
                ));
                assert forall|jj: int| 0 <= jj < 60 implies #[trigger] wheel_view(*seconds)[jj]
                    == sv0[jj] + minute_demoted_to(mb.take(i + 1), jj) by {
                    if jj == target as int {
                        assert(minute_demoted_to(mb.take(i + 1), jj) == minute_demoted_to(
                            mb.take(i as int),
                            jj,
                        ).push(mb[i as int]));
                        assert(sv0[jj] + minute_demoted_to(mb.take(i as int), jj).push(
                            mb[i as int],
                        ) =~= (sv0[jj] + minute_demoted_to(mb.take(i as int), jj)).push(
                            mb[i as int],
                        ));
                    } else {
                        assert(minute_demoted_to(mb.take(i + 1), jj) == minute_demoted_to(
                            mb.take(i as int),
                            jj,
                        ));
                    }
                }
                assert(minute_fired_ids(mb.take(i + 1)) == minute_fired_ids(mb.take(i as int)));
            }
        }
        i += 1;
    }
    proof {
        assert(mb.take(n as int) =~= mb);
    }
    minutes[idx].clear();
    proof {
        assert(wheel_view(*minutes) =~= wheel_view(*old(minutes)).update(
            idx as int,
            Seq::<Timer>::empty(),
        ));
    }
}

/// Drains hours bucket `idx`: timers with no finer residual fire; those
/// with a minutes residual are demoted to the minutes bucket it names; the
/// rest are demoted to the seconds bucket their seconds residual names.
fn cascade_hours(
    hours: &mut Vec<Vec<Timer>>,
    minutes: &mut Vec<Vec<Timer>>,
    seconds: &mut Vec<Vec<Timer>>,
    idx: usize,
    fired: &mut Vec<u64>,
)
    requires
        idx < old(hours)@.len(),
        wheel_view(*old(minutes)).len() == 60,
        wheel_view(*old(seconds)).len() == 60,
        forall|j: int| #![trigger old(hours)@[idx as int]@[j]]
            0 <= j < old(hours)@[idx as int]@.len() ==> old(hours)@[idx as int]@[j].seconds < 60
                && old(hours)@[idx as int]@[j].minutes < 60,
    ensures
        wheel_view(*final(hours)) == wheel_view(*old(hours)).update(
            idx as int,
            Seq::<Timer>::empty(),
        ),
        wheel_view(*final(minutes)).len() == 60,
        wheel_view(*final(seconds)).len() == 60,
        forall|jj: int|
            0 <= jj < 60 ==> #[trigger] wheel_view(*final(minutes))[jj] == wheel_view(
                *old(minutes),
            )[jj] + hour_demoted_to_minutes(wheel_view(*old(hours))[idx as int], jj),
        forall|jj: int|
            0 <= jj < 60 ==> #[trigger] wheel_view(*final(seconds))[jj] == wheel_view(
                *old(seconds),
            )[jj] + hour_demoted_to_seconds(wheel_view(*old(hours))[idx as int], jj),
        final(fired)@ == old(fired)@ + hour_fired_ids(wheel_view(*old(hours))[idx as int]),
{
    let ghost hb = hours@[idx as int]@;
    let ghost mv0 = wheel_view(*old(minutes));
    let ghost sv0 = wheel_view(*old(seconds));
    let n = hours[idx].len();
    let mut i: usize = 0;
    while i < n
        invariant
            idx < hours@.len(),
            hours@ == old(hours)@,
            hb == hours@[idx as int]@,
            n == hb.len(),
            0 <= i <= n,
            forall|j: int| #![trigger hb[j]]
                0 <= j < hb.len() ==> hb[j].seconds < 60 && hb[j].minutes < 60,
            mv0 == wheel_view(*old(minutes)),
            sv0 == wheel_view(*old(seconds)),
            wheel_view(*minutes).len() == 60,
            wheel_view(*seconds).len() == 60,
            forall|jj: int|
                0 <= jj < 60 ==> #[trigger] wheel_view(*minutes)[jj] == mv0[jj]
                    + hour_demoted_to_minutes(hb.take(i as int), jj),
            forall|jj: int|
                0 <= jj < 60 ==> #[trigger] wheel_view(*seconds)[jj] == sv0[jj]
                    + hour_demoted_to_seconds(hb.take(i as int), jj),
            fired@ == old(fired)@ + hour_fired_ids(hb.take(i as int)),
        decreases n - i,
    {
        let t = hours[idx][i];
        proof {
            assert(hb.take(i + 1).drop_last() =~= hb.take(i as int));
            assert(hb.take(i + 1).last() == hb[i as int]);
        }
        if t.minutes == 0 && t.seconds == 0 {
            fired.push(t.id);
            proof {
                assert(old(fired)@ + hour_fired_ids(hb.take(i + 1)) =~= (old(fired)@
                    + hour_fired_ids(hb.take(i as int))).push(hb[i as int].id));
                assert(forall|jj: int|
                    0 <= jj < 60 ==> hour_demoted_to_minutes(hb.take(i + 1), jj)
                        == hour_demoted_to_minutes(#[trigger] hb.take(i as int), jj));
                assert(forall|jj: int|
                    0 <= jj < 60 ==> hour_demoted_to_seconds(hb.take(i + 1), jj)
                        == hour_demoted_to_seconds(#[trigger] hb.take(i as int), jj));
            }
        } else if t.minutes > 0 {
            let ghost before = wheel_view(*minutes);
            let target = t.minutes as usize;
            minutes[target].push(t);
            proof {
                assert(wheel_view(*minutes) =~= before.update(
                    target as int,
                    before[target as int].push(t),
                ));
                assert forall|jj: int| 0 <= jj < 60 implies #[trigger] wheel_view(*minutes)[jj]
                    == mv0[jj] + hour_demoted_to_minutes(hb.take(i + 1), jj) by {
                    if jj == target as int {
                        assert(hour_demoted_to_minutes(hb.take(i + 1), jj)
                            == hour_demoted_to_minutes(hb.take(i as int), jj).push(hb[i as int]));
                        assert(mv0[jj] + hour_demoted_to_minutes(hb.take(i as int), jj).push(
                            hb[i as int],
                        ) =~= (mv0[jj] + hour_demoted_to_minutes(hb.take(i as int), jj)).push(
                            hb[i as int],
                        ));
                    } else {
                        assert(hour_demoted_to_minutes(hb.take(i + 1), jj)
                            == hour_demoted_to_minutes(hb.take(i as int), jj));
                    }
                }
                assert(forall|jj: int|
                    0 <= jj < 60 ==> hour_demoted_to_seconds(hb.take(i + 1), jj)
                        == hour_demoted_to_seconds(#[trigger] hb.take(i as int), jj));
                assert(hour_fired_ids(hb.take(i + 1)) == hour_fired_ids(hb.take(i as int)));
            }
        } else {
            let ghost before = wheel_view(*seconds);
            let target = t.seconds as usize;
            seconds[target].push(t);
            proof {
                assert(wheel_view(*seconds) =~= before.update(
                    target as int,
                    before[target as int].push(t),
                ));
                assert forall|jj: int| 0 <= jj < 60 implies #[trigger] wheel_view(*seconds)[jj]
                    == sv0[jj] + hour_demoted_to_seconds(hb.take(i + 1), jj) by {
                    if jj == target as int {
                        assert(hour_demoted_to_seconds(hb.take(i + 1), jj)
                            == hour_demoted_to_seconds(hb.take(i as int), jj).push(hb[i as int]));
                        assert(sv0[jj] + hour_demoted_to_seconds(hb.take(i as int), jj).push(
                            hb[i as int],
                        ) =~= (sv0[jj] + hour_demoted_to_seconds(hb.take(i as int), jj)).push(
                            hb[i as int],
                        ));
                    } else {
                        assert(hour_demoted_to_seconds(hb.take(i + 1), jj)
                            == hour_demoted_to_seconds(hb.take(i as int), jj));
                    }
                }
                assert(forall|jj: int|
                    0 <= jj < 60 ==> hour_demoted_to_minutes(hb.take(i + 1), jj)
                        == hour_demoted_to_minutes(#[trigger] hb.take(i as int), jj));
                assert(hour_fired_ids(hb.take(i + 1)) == hour_fired_ids(hb.take(i as int)));
            }
        }
        i += 1;
    }
    proof {
        assert(hb.take(n as int) =~= hb);
    }
    hours[idx].clear();
    proof {
        assert(wheel_view(*hours) =~= wheel_view(*old(hours)).update(
            idx as int,
            Seq::<Timer>::empty(),
        ));
    }
}

/// Removes the first timer carrying `id` from bucket `idx`, reporting
/// whether one was there.
fn remove_first_in(buckets: &mut Vec<Vec<Timer>>, idx: usize, id: u64) -> (found: bool)
    requires
        idx < old(buckets)@.len(),
    ensures
        found == contains_id(wheel_view(*old(buckets))[idx as int], id),
        wheel_view(*final(buckets)) == wheel_view(*old(buckets)).update(
            idx as int,
            remove_first_with_id(wheel_view(*old(buckets))[idx as int], id),
        ),
{
    let ghost bv = buckets@[idx as int]@;
    let n = buckets[idx].len();
    let mut i: usize = 0;
    while i < n
        invariant
            idx < buckets@.len(),
            buckets@ == old(buckets)@,
            bv == buckets@[idx as int]@,
            n == bv.len(),
            0 <= i <= n,
            forall|j: int| #![trigger bv[j]] 0 <= j < i ==> bv[j].id != id,
        decreases n - i,
    {
        if buckets[idx][i].id == id {
            buckets[idx].remove(i);
            proof {
                lemma_remove_first_at(bv, id, i as int);
                assert(wheel_view(*buckets) =~= wheel_view(*old(buckets)).update(
                    idx as int,
                    remove_first_with_id(bv, id),
                ));
            }
            return true;
        }
        i += 1;
    }
    proof {
        lemma_remove_first_absent(bv, id);
        assert(wheel_view(*buckets).update(idx as int, bv) =~= wheel_view(*buckets));
        assert(!contains_id(bv, id));
    }
    false
}

impl Registry {
    /// The seconds wheel, bucket by bucket.
    pub closed spec fn seconds_v(&self) -> Seq<Seq<Timer>> {
        wheel_view(self.state.buckets.seconds)
    }

    /// The minutes wheel, bucket by bucket.
    pub closed spec fn minutes_v(&self) -> Seq<Seq<Timer>> {
        wheel_view(self.state.buckets.minutes)
    }

    /// The hours wheel, bucket by bucket.
    pub closed spec fn hours_v(&self) -> Seq<Seq<Timer>> {
        wheel_view(self.state.buckets.hours)
    }

    /// The seconds hand.
    pub closed spec fn second(&self) -> u32 {
        self.state.clocks.second
    }

    /// The minutes hand.
    pub closed spec fn minute(&self) -> u32 {
        self.state.clocks.minute
    }

    /// The hours hand.
    pub closed spec fn hour(&self) -> u32 {
        self.state.clocks.hour
    }

    /// The identity the next registered timer will get.
    pub closed spec fn next_timer_id(&self) -> u64 {
        self.state.next_timer_id
    }

    /// The identity the next registered timer will get, for callers that
    /// must know whether the identity space is exhausted.
    pub fn next_id(&self) -> (r: u64)
        ensures
            r == self.next_timer_id(),
    {
        self.state.next_timer_id
    }

    /// The registry's invariant: full wheels, hands inside their dials,
    /// every timer filed in the bucket its residual names, and every
    /// identity drawn before `next_timer_id`.
    pub open spec fn wf(&self) -> bool {
        &&& self.seconds_v().len() == 60
        &&& self.minutes_v().len() == 60
        &&& self.hours_v().len() == 24
        &&& self.second() < 60
        &&& self.minute() < 60
        &&& self.hour() < 24
        &&& placed_by_seconds(self.seconds_v())
        &&& placed_by_minutes(self.minutes_v())
        &&& placed_by_hours(self.hours_v())
        &&& wheel_ids_below(self.seconds_v(), self.next_timer_id() as int)
        &&& wheel_ids_below(self.minutes_v(), self.next_timer_id() as int)
        &&& wheel_ids_below(self.hours_v(), self.next_timer_id() as int)
    }

    /// An empty registry: vacant wheels, hands and id source at zero.
    pub fn new() -> (r: Registry)
        ensures
            r.wf(),
            r.second() == 0,
            r.minute() == 0,
            r.hour() == 0,
            r.next_timer_id() == 0,
            all_empty(r.seconds_v(), 60),
            all_empty(r.minutes_v(), 60),
            all_empty(r.hours_v(), 24),
    {
        Registry { state: State { clocks: Clocks::new(), buckets: Buckets::new(), next_timer_id: 0 } }
    }

    /// Registers a one-shot timer due in `expires_in_secs` seconds, at most
    /// one day less a second ahead. The delay's residual components pick
    /// the wheel: the coarsest non-zero component names the bucket the
    /// timer is appended to.
    pub fn start_timer(&mut self, expires_in_secs: u32) -> (h: TimerHandle)
        requires
            old(self).wf(),
            expires_in_secs < 86400,
            old(self).next_timer_id() < u64::MAX,
        ensures
            final(self).wf(),
            h.wf(),
            h.timer_id() == old(self).next_timer_id(),
            h.seconds() == expires_in_secs % 60,
            h.minutes() == (expires_in_secs % 3600) / 60,
            h.hours() == expires_in_secs / 3600,
            final(self).next_timer_id() == old(self).next_timer_id() + 1,
            final(self).second() == old(self).second(),
            final(self).minute() == old(self).minute(),
            final(self).hour() == old(self).hour(),
            ({
                let t = Timer {
                    id: old(self).next_timer_id(),
                    seconds: expires_in_secs % 60,
                    minutes: (expires_in_secs % 3600) / 60,
                    hours: expires_in_secs / 3600,
                };
                if t.hours > 0 {
                    final(self).hours_v() == old(self).hours_v().update(
                        t.hours as int,
                        old(self).hours_v()[t.hours as int].push(t),
                    ) && final(self).minutes_v() == old(self).minutes_v() && final(self).seconds_v() == old(self).seconds_v()
                } else if t.minutes > 0 {
                    final(self).minutes_v() == old(self).minutes_v().update(
                        t.minutes as int,
                        old(self).minutes_v()[t.minutes as int].push(t),
                    ) && final(self).hours_v() == old(self).hours_v() && final(self).seconds_v()
                        == old(self).seconds_v()
                } else {
                    final(self).seconds_v() == old(self).seconds_v().update(
                        t.seconds as int,
                        old(self).seconds_v()[t.seconds as int].push(t),
                    ) && final(self).hours_v() == old(self).hours_v() && final(self).minutes_v()
                        == old(self).minutes_v()
                }
            }),
    {
        let timer_id = self.state.next_timer_id;
        self.state.next_timer_id = timer_id + 1;

        let (seconds, minutes, hours) = time_components(expires_in_secs);
        let timer = Timer { id: timer_id, seconds, minutes, hours };

        if hours > 0 {
            let ghost before = self.hours_v();
            let index = hours as usize;
            self.state.buckets.hours[index].push(timer);
            proof {
                assert(self.hours_v() =~= before.update(
                    index as int,
                    before[index as int].push(timer),
                ));
            }
        } else if minutes > 0 {
            let ghost before = self.minutes_v();
            let index = minutes as usize;
            self.state.buckets.minutes[index].push(timer);
            proof {
                assert(self.minutes_v() =~= before.update(
                    index as int,
                    before[index as int].push(timer),
                ));
            }
        } else {
            let ghost before = self.seconds_v();
            let index = seconds as usize;
            self.state.buckets.seconds[index].push(timer);
            proof {
                assert(self.seconds_v() =~= before.update(
                    index as int,
                    before[index as int].push(timer),
                ));
            }
        }

        TimerHandle { seconds, minutes, hours, timer_id }
    }

    /// Cancels the pending timer the handle names. The handle's residual
    /// components say where the timer was filed; a demoted timer is sought
    /// along its demotion path. A no-op when the timer has already fired or
    /// been cancelled.
    pub fn stop_timer(&mut self, timer_handle: &TimerHandle)
        requires
            old(self).wf(),
            timer_handle.wf(),
        ensures
            final(self).wf(),
            final(self).second() == old(self).second(),
            final(self).minute() == old(self).minute(),
            final(self).hour() == old(self).hour(),
            final(self).next_timer_id() == old(self).next_timer_id(),
            ({
                let id = timer_handle.timer_id();
                let hh = timer_handle.hours() as int;
                let hm = timer_handle.minutes() as int;
                let hs = timer_handle.seconds() as int;
                if timer_handle.hours() > 0 && contains_id(old(self).hours_v()[hh], id) {
                    final(self).hours_v() == old(self).hours_v().update(
                        hh,
                        remove_first_with_id(old(self).hours_v()[hh], id),
                    ) && final(self).minutes_v() == old(self).minutes_v() && final(self).seconds_v() == old(self).seconds_v()
                } else if timer_handle.minutes() > 0 && contains_id(
                    old(self).minutes_v()[hm],
                    id,
                ) {
                    final(self).minutes_v() == old(self).minutes_v().update(
                        hm,
                        remove_first_with_id(old(self).minutes_v()[hm], id),
                    ) && final(self).hours_v() == old(self).hours_v() && final(self).seconds_v()
                        == old(self).seconds_v()
                } else {
                    final(self).seconds_v() == old(self).seconds_v().update(
                        hs,
                        remove_first_with_id(old(self).seconds_v()[hs], id),
                    ) && final(self).hours_v() == old(self).hours_v() && final(self).minutes_v()
                        == old(self).minutes_v()
                }
            }),
    {
        let id = timer_handle.timer_id;
        if timer_handle.hours > 0 {
            let found = remove_first_in(&mut self.state.buckets.hours, timer_handle.hours as usize, id);
            if found {
                proof {
                    lemma_remove_keeps_placement_hours(
                        old(self).hours_v(),
                        timer_handle.hours() as int,
                        id,
                        old(self).next_timer_id() as int,
                    );
                }
                return ;
            }
            proof {
                lemma_remove_first_absent_view(old(self).hours_v(), timer_handle.hours() as int, id);
            }
        }
        if timer_handle.minutes > 0 {
            let found = remove_first_in(
                &mut self.state.buckets.minutes,
                timer_handle.minutes as usize,
                id,
            );
            if found {
                proof {
                    lemma_remove_keeps_placement_minutes(
                        old(self).minutes_v(),
                        timer_handle.minutes() as int,
                        id,
                        old(self).next_timer_id() as int,
                    );
                }
                return ;
            }
            proof {
                lemma_remove_first_absent_view(
                    old(self).minutes_v(),
                    timer_handle.minutes() as int,
                    id,
                );
            }
        }
        let found = remove_first_in(
            &mut self.state.buckets.seconds,
            timer_handle.seconds as usize,
            id,
        );
        proof {
            if found {
                lemma_remove_keeps_placement_seconds(
                    old(self).seconds_v(),
                    timer_handle.seconds() as int,
                    id,
                    old(self).next_timer_id() as int,
                );
            } else {
                lemma_remove_first_absent_view(
                    old(self).seconds_v(),
                    timer_handle.seconds() as int,
                    id,
                );
            }
        }
    }

    /// How many timers wait in the given seconds bucket.
    pub fn seconds_bucket_len(&self, i: usize) -> (n: usize)
        requires
            self.wf(),
            i < 60,
        ensures
            n == self.seconds_v()[i as int].len(),
    {
        self.state.buckets.seconds[i].len()
    }

    /// How many timers wait in the given minutes bucket.
    pub fn minutes_bucket_len(&self, i: usize) -> (n: usize)
        requires
            self.wf(),
            i < 60,
        ensures
            n == self.minutes_v()[i as int].len(),
    {
        self.state.buckets.minutes[i].len()
    }

    /// How many timers wait in the given hours bucket.
    pub fn hours_bucket_len(&self, i: usize) -> (n: usize)
        requires
            self.wf(),
            i < 24,
        ensures
            n == self.hours_v()[i as int].len(),
    {
        self.state.buckets.hours[i].len()
    }

    /// One tick. The bucket under the seconds hand fires whole; then the
    /// seconds hand advances, and when it wraps the next minutes bucket is
    /// drained (fire or demote to seconds); when the minutes hand wraps in
    /// turn, the next hours bucket is drained (fire, demote to minutes, or
    /// demote to seconds). Returns the fired identities, firing order.
    pub fn expire_timers(&mut self) -> (fired: Vec<u64>)
        requires
            old(self).wf(),
        ensures
            final(self).wf(),
            final(self).next_timer_id() == old(self).next_timer_id(),
            final(self).second() == (old(self).second() + 1) % 60,
            final(self).minute() == (if (old(self).second() + 1) % 60 == 0 {
                (old(self).minute() + 1) % 60
            } else {
                old(self).minute() as int
            }),
            final(self).hour() == (if (old(self).second() + 1) % 60 == 0 && (old(self).minute()
                + 1) % 60 == 0 {
                (old(self).hour() + 1) % 24
            } else {
                old(self).hour() as int
            }),
            ({
                let s0 = old(self).second() as int;
                let sv = old(self).seconds_v();
                let mv = old(self).minutes_v();
                let hv = old(self).hours_v();
                let m1 = ((old(self).minute() + 1) % 60) as int;
                let h1 = ((old(self).hour() + 1) % 24) as int;
                if (old(self).second() + 1) % 60 != 0 {
                    fired@ == ids_of(sv[s0]) && final(self).seconds_v() == sv.update(
                        s0,
                        Seq::<Timer>::empty(),
                    ) && final(self).minutes_v() == mv && final(self).hours_v() == hv
                } else if m1 != 0 {
                    fired@ == ids_of(sv[s0]) + minute_fired_ids(mv[m1]) && (forall|jj: int|
                        0 <= jj < 60 ==> #[trigger] final(self).seconds_v()[jj] == (if jj == s0 {
                            Seq::<Timer>::empty()
                        } else {
                            sv[jj]
                        }) + minute_demoted_to(mv[m1], jj)) && final(self).seconds_v().len() == 60
                        && final(self).minutes_v() == mv.update(m1, Seq::<Timer>::empty()) && final(self).hours_v() == hv
                } else {
                    fired@ == ids_of(sv[s0]) + minute_fired_ids(mv[0]) + hour_fired_ids(hv[h1]) && (
                    forall|jj: int|
                        0 <= jj < 60 ==> #[trigger] final(self).seconds_v()[jj] == (if jj == s0 {
                            Seq::<Timer>::empty()
                        } else {
                            sv[jj]
                        }) + minute_demoted_to(mv[0], jj) + hour_demoted_to_seconds(hv[h1], jj))
                        && final(self).seconds_v().len() == 60 && (forall|jj: int|
                        0 <= jj < 60 ==> #[trigger] final(self).minutes_v()[jj] == (if jj == 0 {
                            Seq::<Timer>::empty()
                        } else {
                            mv[jj]
                        }) + hour_demoted_to_minutes(hv[h1], jj)) && final(self).minutes_v().len()
                        == 60 && final(self).hours_v() == hv.update(h1, Seq::<Timer>::empty())
                }
            }),
    {
        let mut fired: Vec<u64> = Vec::new();
        let ghost sv = self.seconds_v();
        let ghost mv = self.minutes_v();
        let ghost hv = self.hours_v();

        let s0 = self.state.clocks.second;
        drain_bucket(&mut self.state.buckets.seconds, s0 as usize, &mut fired);
        proof {
            assert(fired@ =~= ids_of(sv[s0 as int]));
            lemma_placement_after_empty_seconds(sv, s0 as int, old(self).next_timer_id() as int);
        }

        self.state.clocks.second = (s0 + 1) % SECONDS_IN_A_MINUTE;
        if self.state.clocks.second > 0 {
            return fired;
        }

        let m1 = (self.state.clocks.minute + 1) % MINUTES_IN_A_HOUR;
        self.state.clocks.minute = m1;
        let ghost sv1 = self.seconds_v();
        proof {
            assert forall|j: int| #![trigger self.state.buckets.minutes@[m1 as int]@[j]]
                0 <= j < self.state.buckets.minutes@[m1 as int]@.len() implies self.state.buckets.minutes@[m1 as int]@[j].seconds
                < 60 by {
                assert(mv[m1 as int][j] == self.state.buckets.minutes@[m1 as int]@[j]);
                assert(timer_ranged(mv[m1 as int][j]));
            }
        }
        let ghost fired_before = fired@;
        cascade_minutes(
            &mut self.state.buckets.minutes,
            &mut self.state.buckets.seconds,
            m1 as usize,
            &mut fired,
        );
        proof {
            assert(fired@ =~= ids_of(sv[s0 as int]) + minute_fired_ids(mv[m1 as int]));
            lemma_wf_after_minute_cascade(
                sv1,
                self.seconds_v(),
                mv,
                m1 as int,
                old(self).next_timer_id() as int,
            );
        }

        if m1 > 0 {
            return fired;
        }

        let h1 = (self.state.clocks.hour + 1) % HOURS_IN_A_DAY;
        self.state.clocks.hour = h1;
        let ghost sv2 = self.seconds_v();
        let ghost mv2 = self.minutes_v();
        proof {
            assert forall|j: int| #![trigger self.state.buckets.hours@[h1 as int]@[j]]
                0 <= j < self.state.buckets.hours@[h1 as int]@.len() implies self.state.buckets.hours@[h1 as int]@[j].seconds
                < 60 && self.state.buckets.hours@[h1 as int]@[j].minutes < 60 by {
                assert(hv[h1 as int][j] == self.state.buckets.hours@[h1 as int]@[j]);
                assert(timer_ranged(hv[h1 as int][j]));
            }
        }
        cascade_hours(
            &mut self.state.buckets.hours,
            &mut self.state.buckets.minutes,
            &mut self.state.buckets.seconds,
            h1 as usize,
            &mut fired,
        );
        proof {
            assert(fired@ =~= ids_of(sv[s0 as int]) + minute_fired_ids(mv[0]) + hour_fired_ids(
                hv[h1 as int],
            ));
            lemma_wf_after_hour_cascade(
                sv2,
                self.seconds_v(),
                mv2,
                self.minutes_v(),
                hv,
                h1 as int,
                old(self).next_timer_id() as int,
            );
            assert forall|jj: int| 0 <= jj < 60 implies #[trigger] self.seconds_v()[jj] == (if jj
                == s0 as int {
                Seq::<Timer>::empty()
            } else {
                sv[jj]
            }) + minute_demoted_to(mv[0], jj) + hour_demoted_to_seconds(hv[h1 as int], jj) by {
                assert(self.seconds_v()[jj] == sv2[jj] + hour_demoted_to_seconds(
                    hv[h1 as int],
                    jj,
                ));
                assert(sv2[jj] == sv1[jj] + minute_demoted_to(mv[0], jj));
            }
            assert forall|jj: int| 0 <= jj < 60 implies #[trigger] self.minutes_v()[jj] == (if jj
                == 0 {
                Seq::<Timer>::empty()
            } else {
                mv[jj]
            }) + hour_demoted_to_minutes(hv[h1 as int], jj) by {
                assert(self.minutes_v()[jj] == mv2[jj] + hour_demoted_to_minutes(
                    hv[h1 as int],
                    jj,
                ));
                if jj == 0 {
                    assert(mv2[jj] =~= Seq::<Timer>::empty());
                }
            }
        }
        fired
    }
}

proof fn lemma_remove_first_at(s: Seq<Timer>, id: u64, i: int)
    requires
        0 <= i < s.len(),
        s[i].id == id,
        forall|j: int| 0 <= j < i ==> #[trigger] s[j].id != id,
    ensures
        remove_first_with_id(s, id) == s.remove(i),
    decreases i,
{
    if i == 0 {
        assert(s.drop_first() =~= s.remove(0));
    } else {
        lemma_remove_first_at(s.drop_first(), id, i - 1);
        assert(seq![s.first()] + s.drop_first().remove(i - 1) =~= s.remove(i));
    }
}

proof fn lemma_remove_first_absent(s: Seq<Timer>, id: u64)
    requires
        forall|j: int| 0 <= j < s.len() ==> #[trigger] s[j].id != id,
    ensures
        remove_first_with_id(s, id) == s,
    decreases s.len(),
{
    if s.len() > 0 {
        lemma_remove_first_absent(s.drop_first(), id);
        assert(seq![s.first()] + s.drop_first() =~= s);
    }
}

proof fn lemma_remove_first_absent_view(ws: Seq<Seq<Timer>>, idx: int, id: u64)
    requires
        0 <= idx < ws.len(),
        !contains_id(ws[idx], id),
    ensures
        ws.update(idx, remove_first_with_id(ws[idx], id)) == ws,
{
    assert(forall|j: int| 0 <= j < ws[idx].len() ==> #[trigger] ws[idx][j].id != id);
    lemma_remove_first_absent(ws[idx], id);
    assert(ws.update(idx, remove_first_with_id(ws[idx], id)) =~= ws);
}

/// `remove_first_with_id` keeps a subset of the bucket, so any placement
/// predicate and id bound survive it.
proof fn lemma_remove_first_subset(s: Seq<Timer>, id: u64)
    ensures
        forall|k: int| #![trigger remove_first_with_id(s, id)[k]]
            0 <= k < remove_first_with_id(s, id).len() ==> exists|x: int|
                0 <= x < s.len() && s[x] == remove_first_with_id(s, id)[k],
    decreases s.len(),
{
    if s.len() > 0 && s.first().id != id {
        lemma_remove_first_subset(s.drop_first(), id);
        let r = remove_first_with_id(s, id);
        assert forall|k: int| 0 <= k < r.len() implies exists|x: int|
            0 <= x < s.len() && s[x] == #[trigger] r[k] by {
            if k == 0 {
                assert(s[0] == r[0]);
            } else {
                let rr = remove_first_with_id(s.drop_first(), id);
                assert(r[k] == rr[k - 1]);
                let x0 = choose|x0: int| 0 <= x0 < s.drop_first().len() && s.drop_first()[x0] == rr[k - 1];
                assert(s[x0 + 1] == r[k]);
            }
        }
    }
}

proof fn lemma_remove_keeps_placement_seconds(ws: Seq<Seq<Timer>>, idx: int, id: u64, bound: int)
    requires
        0 <= idx < ws.len(),
        placed_by_seconds(ws),
        wheel_ids_below(ws, bound),
    ensures
        placed_by_seconds(ws.update(idx, remove_first_with_id(ws[idx], id))),
        wheel_ids_below(ws.update(idx, remove_first_with_id(ws[idx], id)), bound),
{
    lemma_remove_first_subset(ws[idx], id);
    let rb = remove_first_with_id(ws[idx], id);
    let nws = ws.update(idx, rb);
    assert forall|i: int, j: int| #![trigger nws[i][j]]
        0 <= i < nws.len() && 0 <= j < nws[i].len() implies nws[i][j].seconds == i && timer_ranged(
        nws[i][j],
    ) && nws[i][j].id < bound by {
        if i == idx {
            assert(nws[i][j] == rb[j]);
            let x = choose|x: int| 0 <= x < ws[idx].len() && ws[idx][x] == rb[j];
            assert(ws[idx][x] == nws[i][j]);
        }
    }
}

proof fn lemma_remove_keeps_placement_minutes(ws: Seq<Seq<Timer>>, idx: int, id: u64, bound: int)
    requires
        0 <= idx < ws.len(),
        placed_by_minutes(ws),
        wheel_ids_below(ws, bound),
    ensures
        placed_by_minutes(ws.update(idx, remove_first_with_id(ws[idx], id))),
        wheel_ids_below(ws.update(idx, remove_first_with_id(ws[idx], id)), bound),
{
    lemma_remove_first_subset(ws[idx], id);
    let rb = remove_first_with_id(ws[idx], id);
    let nws = ws.update(idx, rb);
    assert forall|i: int, j: int| #![trigger nws[i][j]]
        0 <= i < nws.len() && 0 <= j < nws[i].len() implies nws[i][j].minutes == i && timer_ranged(
        nws[i][j],
    ) && nws[i][j].id < bound by {
        if i == idx {
            assert(nws[i][j] == rb[j]);
            let x = choose|x: int| 0 <= x < ws[idx].len() && ws[idx][x] == rb[j];
            assert(ws[idx][x] == nws[i][j]);
        }
    }
}

proof fn lemma_remove_keeps_placement_hours(ws: Seq<Seq<Timer>>, idx: int, id: u64, bound: int)
    requires
        0 <= idx < ws.len(),
        placed_by_hours(ws),
        wheel_ids_below(ws, bound),
    ensures
        placed_by_hours(ws.update(idx, remove_first_with_id(ws[idx], id))),
        wheel_ids_below(ws.update(idx, remove_first_with_id(ws[idx], id)), bound),
{
    lemma_remove_first_subset(ws[idx], id);
    let rb = remove_first_with_id(ws[idx], id);
    let nws = ws.update(idx, rb);
    assert forall|i: int, j: int| #![trigger nws[i][j]]
        0 <= i < nws.len() && 0 <= j < nws[i].len() implies nws[i][j].hours == i && timer_ranged(
        nws[i][j],
    ) && nws[i][j].id < bound by {
        if i == idx {
            assert(nws[i][j] == rb[j]);
            let x = choose|x: int| 0 <= x < ws[idx].len() && ws[idx][x] == rb[j];
            assert(ws[idx][x] == nws[i][j]);
        }
    }
}

proof fn lemma_placement_after_empty_seconds(sv: Seq<Seq<Timer>>, idx: int, bound: int)
    requires
        0 <= idx < sv.len(),
        placed_by_seconds(sv),
        wheel_ids_below(sv, bound),
    ensures
        placed_by_seconds(sv.update(idx, Seq::<Timer>::empty())),
        wheel_ids_below(sv.update(idx, Seq::<Timer>::empty()), bound),
{
}

/// Every timer demoted into seconds bucket `j` comes from the bucket and
/// carries `j` as its seconds residual.
proof fn lemma_minute_demoted_elements(b: Seq<Timer>, j: int)
    ensures
        forall|k: int| #![trigger minute_demoted_to(b, j)[k]]
            0 <= k < minute_demoted_to(b, j).len() ==> (minute_demoted_to(b, j)[k].seconds == j
                && exists|x: int| 0 <= x < b.len() && b[x] == minute_demoted_to(b, j)[k]),
    decreases b.len(),
{
    if b.len() > 0 {
        lemma_minute_demoted_elements(b.drop_last(), j);
        let r = minute_demoted_to(b, j);
        let rr = minute_demoted_to(b.drop_last(), j);
        assert forall|k: int| #![trigger r[k]] 0 <= k < r.len() implies (r[k].seconds == j
            && exists|x: int| 0 <= x < b.len() && b[x] == r[k]) by {
            if b.last().seconds != 0 && b.last().seconds == j && k == r.len() - 1 {
                assert(b[b.len() - 1] == r[k]);
            } else {
                assert(r[k] == rr[k]);
                let x0 = choose|x0: int| 0 <= x0 < b.drop_last().len() && b.drop_last()[x0] == rr[k];
                assert(b[x0] == r[k]);
            }
        }
    }
}

proof fn lemma_hour_demoted_to_minutes_elements(b: Seq<Timer>, j: int)
    ensures
        forall|k: int| #![trigger hour_demoted_to_minutes(b, j)[k]]
            0 <= k < hour_demoted_to_minutes(b, j).len() ==> (hour_demoted_to_minutes(b, j)[k].minutes
                == j && exists|x: int| 0 <= x < b.len() && b[x] == hour_demoted_to_minutes(b, j)[k]),
    decreases b.len(),
{
    if b.len() > 0 {
        lemma_hour_demoted_to_minutes_elements(b.drop_last(), j);
        let r = hour_demoted_to_minutes(b, j);
        let rr = hour_demoted_to_minutes(b.drop_last(), j);
        assert forall|k: int| #![trigger r[k]] 0 <= k < r.len() implies (r[k].minutes == j
            && exists|x: int| 0 <= x < b.len() && b[x] == r[k]) by {
            if b.last().minutes != 0 && b.last().minutes == j && k == r.len() - 1 {
                assert(b[b.len() - 1] == r[k]);
            } else {
                assert(r[k] == rr[k]);
                let x0 = choose|x0: int| 0 <= x0 < b.drop_last().len() && b.drop_last()[x0] == rr[k];
                assert(b[x0] == r[k]);
            }
        }
    }
}

proof fn lemma_hour_demoted_to_seconds_elements(b: Seq<Timer>, j: int)
    ensures
        forall|k: int| #![trigger hour_demoted_to_seconds(b, j)[k]]
            0 <= k < hour_demoted_to_seconds(b, j).len() ==> (hour_demoted_to_seconds(b, j)[k].seconds
                == j && exists|x: int| 0 <= x < b.len() && b[x] == hour_demoted_to_seconds(b, j)[k]),
    decreases b.len(),
{
    if b.len() > 0 {
        lemma_hour_demoted_to_seconds_elements(b.drop_last(), j);
        let r = hour_demoted_to_seconds(b, j);
        let rr = hour_demoted_to_seconds(b.drop_last(), j);
        assert forall|k: int| #![trigger r[k]] 0 <= k < r.len() implies (r[k].seconds == j
            && exists|x: int| 0 <= x < b.len() && b[x] == r[k]) by {
            if b.last().minutes == 0 && b.last().seconds != 0 && b.last().seconds == j && k == r.len()
                - 1 {
                assert(b[b.len() - 1] == r[k]);
            } else {
                assert(r[k] == rr[k]);
                let x0 = choose|x0: int| 0 <= x0 < b.drop_last().len() && b.drop_last()[x0] == rr[k];
                assert(b[x0] == r[k]);
            }
        }
    }
}

/// Placement and the id bound survive a minute cascade.
proof fn lemma_wf_after_minute_cascade(
    sv_before: Seq<Seq<Timer>>,
    sv_after: Seq<Seq<Timer>>,
    mv: Seq<Seq<Timer>>,
    m1: int,
    bound: int,
)
    requires
        sv_before.len() == 60,
        sv_after.len() == 60,
        mv.len() == 60,
        0 <= m1 < 60,
        placed_by_seconds(sv_before),
        placed_by_minutes(mv),
        wheel_ids_below(sv_before, bound),
        wheel_ids_below(mv, bound),
        forall|jj: int|
            0 <= jj < 60 ==> #[trigger] sv_after[jj] == sv_before[jj] + minute_demoted_to(
                mv[m1],
                jj,
            ),
    ensures
        placed_by_seconds(sv_after),
        wheel_ids_below(sv_after, bound),
        placed_by_minutes(mv.update(m1, Seq::<Timer>::empty())),
        wheel_ids_below(mv.update(m1, Seq::<Timer>::empty()), bound),
{
    assert forall|i: int, j: int| #![trigger sv_after[i][j]]
        0 <= i < sv_after.len() && 0 <= j < sv_after[i].len() implies sv_after[i][j].seconds == i
        && timer_ranged(sv_after[i][j]) && sv_after[i][j].id < bound by {
        lemma_minute_demoted_elements(mv[m1], i);
        if j < sv_before[i].len() {
            assert(sv_after[i][j] == sv_before[i][j]);
        } else {
            let k = j - sv_before[i].len();
            assert(sv_after[i][j] == minute_demoted_to(mv[m1], i)[k]);
            let x = choose|x: int|
                0 <= x < mv[m1].len() && mv[m1][x] == minute_demoted_to(mv[m1], i)[k];
            assert(mv[m1][x] == sv_after[i][j]);
        }
    }
    let emptied = mv.update(m1, Seq::<Timer>::empty());
    assert forall|i: int, j: int| #![trigger emptied[i][j]]
        0 <= i < emptied.len() && 0 <= j < emptied[i].len() implies emptied[i][j].minutes == i
        && timer_ranged(emptied[i][j]) && emptied[i][j].id < bound by {
        assert(emptied[i][j] == mv[i][j]);
    }
}

/// Placement and the id bound survive an hour cascade.
proof fn lemma_wf_after_hour_cascade(
    sv_before: Seq<Seq<Timer>>,
    sv_after: Seq<Seq<Timer>>,
    mv_before: Seq<Seq<Timer>>,
    mv_after: Seq<Seq<Timer>>,
    hv: Seq<Seq<Timer>>,
    h1: int,
    bound: int,
)
    requires
        sv_before.len() == 60,
        sv_after.len() == 60,
        mv_before.len() == 60,
        mv_after.len() == 60,
        hv.len() == 24,
        0 <= h1 < 24,
        placed_by_seconds(sv_before),
        placed_by_minutes(mv_before),
        placed_by_hours(hv),
        wheel_ids_below(sv_before, bound),
        wheel_ids_below(mv_before, bound),
        wheel_ids_below(hv, bound),
        forall|jj: int|
            0 <= jj < 60 ==> #[trigger] sv_after[jj] == sv_before[jj] + hour_demoted_to_seconds(
                hv[h1],
                jj,
            ),
        forall|jj: int|
            0 <= jj < 60 ==> #[trigger] mv_after[jj] == mv_before[jj] + hour_demoted_to_minutes(
                hv[h1],
                jj,
            ),
    ensures
        placed_by_seconds(sv_after),
        wheel_ids_below(sv_after, bound),
        placed_by_minutes(mv_after),
        wheel_ids_below(mv_after, bound),
        placed_by_hours(hv.update(h1, Seq::<Timer>::empty())),
        wheel_ids_below(hv.update(h1, Seq::<Timer>::empty()), bound),
{
    assert forall|i: int, j: int| #![trigger sv_after[i][j]]
        0 <= i < sv_after.len() && 0 <= j < sv_after[i].len() implies sv_after[i][j].seconds == i
        && timer_ranged(sv_after[i][j]) && sv_after[i][j].id < bound by {
        lemma_hour_demoted_to_seconds_elements(hv[h1], i);
        if j < sv_before[i].len() {
            assert(sv_after[i][j] == sv_before[i][j]);
        } else {
            let k = j - sv_before[i].len();
            assert(sv_after[i][j] == hour_demoted_to_seconds(hv[h1], i)[k]);
            let x = choose|x: int|
                0 <= x < hv[h1].len() && hv[h1][x] == hour_demoted_to_seconds(hv[h1], i)[k];
            assert(hv[h1][x] == sv_after[i][j]);
        }
    }
    assert forall|i: int, j: int| #![trigger mv_after[i][j]]
        0 <= i < mv_after.len() && 0 <= j < mv_after[i].len() implies mv_after[i][j].minutes == i
        && timer_ranged(mv_after[i][j]) && mv_after[i][j].id < bound by {
        lemma_hour_demoted_to_minutes_elements(hv[h1], i);
        if j < mv_before[i].len() {
            assert(mv_after[i][j] == mv_before[i][j]);
        } else {
            let k = j - mv_before[i].len();
            assert(mv_after[i][j] == hour_demoted_to_minutes(hv[h1], i)[k]);
            let x = choose|x: int|
                0 <= x < hv[h1].len() && hv[h1][x] == hour_demoted_to_minutes(hv[h1], i)[k];
            assert(hv[h1][x] == mv_after[i][j]);
        }
    }
    let emptied = hv.update(h1, Seq::<Timer>::empty());
    assert forall|i: int, j: int| #![trigger emptied[i][j]]
        0 <= i < emptied.len() && 0 <= j < emptied[i].len() implies emptied[i][j].hours == i
        && timer_ranged(emptied[i][j]) && emptied[i][j].id < bound by {
        assert(emptied[i][j] == hv[i][j]);
    }
}

/// Conservation on a minute cascade: every timer in the drained bucket
/// either fires or is demoted; none is lost and none is duplicated.
pub proof fn lemma_minute_cascade_conserves(b: Seq<Timer>)
    ensures
        minute_fired_ids(b).len() + minute_demoted(b).len() == b.len(),
    decreases b.len(),
{
    if b.len() > 0 {
        lemma_minute_cascade_conserves(b.drop_last());
    }
}

/// Conservation on an hour cascade: every timer in the drained bucket
/// fires, is demoted to the minutes wheel, or is demoted to the seconds
/// wheel; none is lost and none is duplicated.
pub proof fn lemma_hour_cascade_conserves(b: Seq<Timer>)
    ensures
        hour_fired_ids(b).len() + hour_demoted_minutes(b).len() + hour_demoted_seconds(b).len()
            == b.len(),
    decreases b.len(),
{
    if b.len() > 0 {
        lemma_hour_cascade_conserves(b.drop_last());
    }
}

/// Demotion target from the minutes wheel: every demoted timer lands in
/// the seconds bucket its seconds residual names, and comes from the
/// drained bucket.
pub proof fn lemma_minute_demotion_target(b: Seq<Timer>, j: int)
    ensures
        forall|k: int| #![trigger minute_demoted_to(b, j)[k]]
            0 <= k < minute_demoted_to(b, j).len() ==> (minute_demoted_to(b, j)[k].seconds == j
                && exists|x: int| 0 <= x < b.len() && b[x] == minute_demoted_to(b, j)[k]),
{
    lemma_minute_demoted_elements(b, j);
}

/// Demotion target from the hours wheel: a timer with a minutes residual
/// lands in the minutes bucket that residual names; one without lands in
/// the seconds bucket its seconds residual names.
pub proof fn lemma_hour_demotion_target(b: Seq<Timer>, j: int)
    ensures
        forall|k: int| #![trigger hour_demoted_to_minutes(b, j)[k]]
            0 <= k < hour_demoted_to_minutes(b, j).len() ==> (hour_demoted_to_minutes(b, j)[k].minutes
                == j && hour_demoted_to_minutes(b, j)[k].minutes > 0 && exists|x: int|
                0 <= x < b.len() && b[x] == hour_demoted_to_minutes(b, j)[k]),
        forall|k: int| #![trigger hour_demoted_to_seconds(b, j)[k]]
            0 <= k < hour_demoted_to_seconds(b, j).len() ==> (hour_demoted_to_seconds(b, j)[k].seconds
                == j && hour_demoted_to_seconds(b, j)[k].minutes == 0 && exists|x: int|
                0 <= x < b.len() && b[x] == hour_demoted_to_seconds(b, j)[k]),
    decreases b.len(),
{
    lemma_hour_demoted_to_minutes_elements(b, j);
    lemma_hour_demoted_to_seconds_elements(b, j);
    lemma_hour_demoted_flags(b, j);
}

proof fn lemma_hour_demoted_flags(b: Seq<Timer>, j: int)
    ensures
        forall|k: int| #![trigger hour_demoted_to_minutes(b, j)[k]]
            0 <= k < hour_demoted_to_minutes(b, j).len() ==> hour_demoted_to_minutes(b, j)[k].minutes
                != 0,
        forall|k: int| #![trigger hour_demoted_to_seconds(b, j)[k]]
            0 <= k < hour_demoted_to_seconds(b, j).len() ==> hour_demoted_to_seconds(b, j)[k].minutes
                == 0,
    decreases b.len(),
{
    if b.len() > 0 {
        lemma_hour_demoted_flags(b.drop_last(), j);
        let rm = hour_demoted_to_minutes(b, j);
        let rrm = hour_demoted_to_minutes(b.drop_last(), j);
        assert forall|k: int| #![trigger rm[k]] 0 <= k < rm.len() implies rm[k].minutes != 0 by {
            if b.last().minutes != 0 && b.last().minutes == j && k == rm.len() - 1 {
                assert(rm[k] == b.last());
            } else {
                assert(rm[k] == rrm[k]);
            }
        }
        let rs = hour_demoted_to_seconds(b, j);
        let rrs = hour_demoted_to_seconds(b.drop_last(), j);
        assert forall|k: int| #![trigger rs[k]] 0 <= k < rs.len() implies rs[k].minutes == 0 by {
            if b.last().minutes == 0 && b.last().seconds != 0 && b.last().seconds == j && k == rs.len()
                - 1 {
                assert(rs[k] == b.last());
            } else {
                assert(rs[k] == rrs[k]);
            }
        }
    }
}

/// No fire after cancel, at the bucket level: when the identifier names at
/// most one timer in the bucket, removing it leaves the bucket without it,
/// so no later drain of the bucket can fire it.
pub proof fn lemma_no_fire_after_cancel(b: Seq<Timer>, id: u64)
    requires
        forall|x: int, y: int|
            #![trigger b[x], b[y]]
            0 <= x < y < b.len() ==> !(b[x].id == id && b[y].id == id),
    ensures
        !contains_id(remove_first_with_id(b, id), id),
    decreases b.len(),
{
    if b.len() > 0 {
        let r = remove_first_with_id(b, id);
        if b.first().id == id {
            assert forall|j: int| 0 <= j < r.len() implies r[j].id != id by {
                assert(r[j] == b[j + 1]);
            }
        } else {
            assert forall|x: int, y: int|
                #![trigger b.drop_first()[x], b.drop_first()[y]]
                0 <= x < y < b.drop_first().len() implies !(b.drop_first()[x].id == id
                && b.drop_first()[y].id == id) by {
                assert(b.drop_first()[x] == b[x + 1]);
                assert(b.drop_first()[y] == b[y + 1]);
            }
            lemma_no_fire_after_cancel(b.drop_first(), id);
            let rr = remove_first_with_id(b.drop_first(), id);
            assert forall|j: int| 0 <= j < r.len() implies r[j].id != id by {
                if j == 0 {
                    assert(r[0] == b.first());
                } else {
                    assert(r[j] == rr[j - 1]);
                }
            }
        }
    }
}

/// Round trip: registering a timer and cancelling it at once restores the
/// bucket, because the fresh identity matches only the appended timer.
pub proof fn lemma_stop_undoes_start(b: Seq<Timer>, t: Timer)
    requires
        forall|j: int| #![trigger b[j]] 0 <= j < b.len() ==> b[j].id != t.id,
    ensures
        remove_first_with_id(b.push(t), t.id) == b,
    decreases b.len(),
{
    if b.len() == 0 {
        assert(b.push(t).drop_first() =~= b);
    } else {
        assert(b.push(t).first().id != t.id);
        assert(b.push(t).drop_first() =~= b.drop_first().push(t));
        assert forall|j: int| #![trigger b.drop_first()[j]]
            0 <= j < b.drop_first().len() implies b.drop_first()[j].id != t.id by {
            assert(b.drop_first()[j] == b[j + 1]);
        }
        lemma_stop_undoes_start(b.drop_first(), t);
        assert(seq![b.first()] + b.drop_first() =~= b);
    }
}

} // verus!
