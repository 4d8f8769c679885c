//! Who is free when: the day strip, "free right now", and the ranking of
//! candidate meeting slots.
//!
//! Every function here works on plain busy tuples `(user, start, end)`:
//! whichever source they came from (events people accepted or marked
//! maybe, or an imported calendar), a tuple blocks its user for the
//! half-open interval `[start, end)`.

use vstd::prelude::*;
use vstd::arithmetic::div_mod::{lemma_fundamental_div_mod, lemma_fundamental_div_mod_converse};
use crate::text::{lemma_filter_step, lemma_insert_contains};
use crate::time::{hour, hour_of, representable, weekday, weekday_of, MAX_DELTA_SECS, MAX_INSTANT, MIN_INSTANT, SECS_PER_DAY, SECS_PER_HOUR, SECS_PER_MINUTE};

verus! {

/// Whether `busy` holds a block for `user` that covers the instant `at`.
pub open spec fn busy_covers(busy: Seq<(u128, i64, i64)>, user: u128, at: int) -> bool {
    exists|k: int|
        0 <= k < busy.len() && (#[trigger] busy[k]).0 == user && busy[k].1 <= at && at
            < busy[k].2
}

/// Whether `busy` holds a block for `user` that overlaps `[start, end)`.
pub open spec fn busy_during(busy: Seq<(u128, i64, i64)>, user: u128, start: int, end: int) -> bool {
    exists|k: int|
        0 <= k < busy.len() && (#[trigger] busy[k]).0 == user && busy[k].1 < end && start
            < busy[k].2
}

pub open spec fn free_at_pred(busy: Seq<(u128, i64, i64)>, at: int) -> spec_fn(u128) -> bool {
    |u: u128| !busy_covers(busy, u, at)
}

pub open spec fn free_during_pred(busy: Seq<(u128, i64, i64)>, start: int, end: int) -> spec_fn(
    u128,
) -> bool {
    |u: u128| !busy_during(busy, u, start, end)
}

/// The users of `ids`, in order, with nothing covering the instant `at`.
pub open spec fn free_at(busy: Seq<(u128, i64, i64)>, ids: Seq<u128>, at: int) -> Seq<u128> {
    ids.filter(free_at_pred(busy, at))
}

/// The users of `ids`, in order, with nothing overlapping `[start, end)`.
pub open spec fn free_during(busy: Seq<(u128, i64, i64)>, ids: Seq<u128>, start: int, end: int) -> Seq<
    u128,
> {
    ids.filter(free_during_pred(busy, start, end))
}

/// Whether `user` has a block overlapping `[start, end)`. Half-open on both
/// sides: a block ending exactly at `start` does not count.
fn overlaps(busy: &[(u128, i64, i64)], user: u128, start: i64, end: i64) -> (b: bool)
    ensures
        b == busy_during(busy@, user, start as int, end as int),
{
    let mut k: usize = 0;
    while k < busy.len()
        invariant
            k <= busy@.len(),
            forall|j: int|
                0 <= j < k ==> !((#[trigger] busy@[j]).0 == user && busy@[j].1 < end && start
                    < busy@[j].2),
        decreases busy@.len() - k,
    {
        let (u, s, e) = busy[k];
        if u == user && s < end && start < e {
            return true;
        }
        k = k + 1;
    }
    false
}

/// Whether `user` has a block covering the instant `at`.
fn covers(busy: &[(u128, i64, i64)], user: u128, at: i64) -> (b: bool)
    ensures
        b == busy_covers(busy@, user, at as int),
{
    let mut k: usize = 0;
    while k < busy.len()
        invariant
            k <= busy@.len(),
            forall|j: int|
                0 <= j < k ==> !((#[trigger] busy@[j]).0 == user && busy@[j].1 <= at && at
                    < busy@[j].2),
        decreases busy@.len() - k,
    {
        let (u, s, e) = busy[k];
        if u == user && s <= at && at < e {
            return true;
        }
        k = k + 1;
    }
    false
}

/// Free for the whole of `[start, end)`, not merely at its start: half-open
/// on both sides, so a block ending exactly at `start` does not count.
pub fn free_for_interval(busy: &[(u128, i64, i64)], user_id: u128, start: i64, end: i64) -> (b: bool)
    ensures
        b == !busy_during(busy@, user_id, start as int, end as int),
{
    !overlaps(busy, user_id, start, end)
}

/// The users of `user_ids` with nothing overlapping `[start, end)`.
pub fn free_users_for_interval(busy: &[(u128, i64, i64)], user_ids: &[u128], start: i64, end: i64) -> (r:
    Vec<u128>)
    ensures
        r@ == free_during(busy@, user_ids@, start as int, end as int),
{
    let ghost p = free_during_pred(busy@, start as int, end as int);
    let mut r: Vec<u128> = Vec::new();
    let mut i: usize = 0;
    while i < user_ids.len()
        invariant
            i <= user_ids@.len(),
            p == free_during_pred(busy@, start as int, end as int),
            r@ == user_ids@.take(i as int).filter(p),
        decreases user_ids@.len() - i,
    {
        proof {
            lemma_filter_step(user_ids@, i as int, p);
        }
        if !overlaps(busy, user_ids[i], start, end) {
            r.push(user_ids[i]);
        }
        i = i + 1;
    }
    assert(user_ids@.take(user_ids@.len() as int) =~= user_ids@);
    r
}

/// Which of `user_ids` have no busy block covering the instant `at`, in
/// the order given.
pub fn compute_free_users_at(busy: &[(u128, i64, i64)], user_ids: &[u128], at: i64) -> (r: Vec<
    u128,
>)
    ensures
        r@ == free_at(busy@, user_ids@, at as int),
{
    let ghost p = free_at_pred(busy@, at as int);
    let mut r: Vec<u128> = Vec::new();
    let mut i: usize = 0;
    while i < user_ids.len()
        invariant
            i <= user_ids@.len(),
            p == free_at_pred(busy@, at as int),
            r@ == user_ids@.take(i as int).filter(p),
        decreases user_ids@.len() - i,
    {
        proof {
            lemma_filter_step(user_ids@, i as int, p);
        }
        if !covers(busy, user_ids[i], at) {
            r.push(user_ids[i]);
        }
        i = i + 1;
    }
    assert(user_ids@.take(user_ids@.len() as int) =~= user_ids@);
    r
}

/// One day of the week strip: the day's first instant and who is free for
/// all of that day.
pub struct DayAvailability {
    pub date: i64,
    pub free_user_ids: Vec<u128>,
}

/// The view of a day: its start and the free users.
pub open spec fn day_view(d: DayAvailability) -> (int, Seq<u128>) {
    (d.date as int, d.free_user_ids@)
}

/// The day `day` (0-6) of the week starting at `week_start`: the users with
/// nothing overlapping `[day start, day start + 24h)`.
pub open spec fn week_day(
    busy: Seq<(u128, i64, i64)>,
    ids: Seq<u128>,
    week_start: int,
    day: int,
) -> (int, Seq<u128>) {
    let day_start = week_start + day * 86400;
    (day_start, free_during(busy, ids, day_start, day_start + 86400))
}

/// Per-day free/busy over the seven days starting at `week_start`. A user
/// is free on a day iff none of their blocks overlaps that day at all.
pub fn compute_free_users_per_day(
    busy: &[(u128, i64, i64)],
    user_ids: &[u128],
    week_start: i64,
) -> (days: Vec<DayAvailability>)
    requires
        representable(week_start as int),
        representable(week_start + 7 * 86400),
    ensures
        days@.len() == 7,
        forall|d: int| 0 <= d < 7 ==> day_view(#[trigger] days@[d]) == week_day(busy@, user_ids@, week_start as int, d),
{
    let mut days: Vec<DayAvailability> = Vec::new();
    let mut d: i64 = 0;
    while d < 7
        invariant
            0 <= d <= 7,
            days@.len() == d,
            representable(week_start as int),
            representable(week_start + 7 * 86400),
            forall|e: int| 0 <= e < d ==> day_view(#[trigger] days@[e]) == week_day(busy@, user_ids@, week_start as int, e),
        decreases 7 - d,
    {
        let day_start = week_start + d * SECS_PER_DAY;
        let day_end = day_start + SECS_PER_DAY;
        let free = free_users_for_interval(busy, user_ids, day_start, day_end);
        days.push(DayAvailability { date: day_start, free_user_ids: free });
        d = d + 1;
    }
    days
}

/// A candidate meeting time and who is free for the whole of it.
pub struct Slot {
    pub start: i64,
    pub free_user_ids: Vec<u128>,
}

pub open spec fn slot_view(s: Slot) -> (int, Seq<u128>) {
    (s.start as int, s.free_user_ids@)
}

pub open spec fn slot_views(s: Seq<Slot>) -> Seq<(int, Seq<u128>)> {
    s.map_values(|x: Slot| slot_view(x))
}

/// Local hours a suggestion may start at: evenings every day (18-21), plus
/// 12, 14 and 16 on Saturdays and Sundays. `weekday` counts from Monday = 0.
pub open spec fn candidate_hour(weekday: int, hour: int) -> bool {
    if weekday == 5 || weekday == 6 {
        hour == 12 || hour == 14 || hour == 16 || (18 <= hour && hour <= 21)
    } else {
        18 <= hour && hour <= 21
    }
}

/// The local start hours offered on `weekday` (Monday = 0), in order.
pub fn candidate_local_hours(weekday: u8) -> (hours: Vec<u8>)
    ensures
        hours@ == (if weekday == 5 || weekday == 6 {
            seq![12u8, 14u8, 16u8, 18u8, 19u8, 20u8, 21u8]
        } else {
            seq![18u8, 19u8, 20u8, 21u8]
        }),
        forall|h: u8| hours@.contains(h) <==> candidate_hour(weekday as int, h as int),
{
    if weekday == 5 || weekday == 6 {
        let v: Vec<u8> = vec![12, 14, 16, 18, 19, 20, 21];
        assert forall|h: u8| v@.contains(h) <==> candidate_hour(weekday as int, h as int) by {
            if candidate_hour(weekday as int, h as int) {
                if h == 12 { assert(v@[0] == h); }
                if h == 14 { assert(v@[1] == h); }
                if h == 16 { assert(v@[2] == h); }
                if h == 18 { assert(v@[3] == h); }
                if h == 19 { assert(v@[4] == h); }
                if h == 20 { assert(v@[5] == h); }
                if h == 21 { assert(v@[6] == h); }
            }
        }
        assert(v@ =~= seq![12u8, 14u8, 16u8, 18u8, 19u8, 20u8, 21u8]);
        v
    } else {
        let v: Vec<u8> = vec![18, 19, 20, 21];
        assert forall|h: u8| v@.contains(h) <==> candidate_hour(weekday as int, h as int) by {
            if candidate_hour(weekday as int, h as int) {
                if h == 18 { assert(v@[0] == h); }
                if h == 19 { assert(v@[1] == h); }
                if h == 20 { assert(v@[2] == h); }
                if h == 21 { assert(v@[3] == h); }
            }
        }
        assert(v@ =~= seq![18u8, 19u8, 20u8, 21u8]);
        v
    }
}

/// Whether an hourly cursor is a candidate, read in the requester's local
/// time `cursor + offset` (offset in seconds).
pub open spec fn qualifies(cursor: int, offset: int) -> bool {
    candidate_hour(weekday_of(cursor + offset), hour_of(cursor + offset))
}

/// `t` truncated to the hour, as `DurationRound::duration_trunc` does it; an
/// instant whose nanosecond count does not fit an `i64` is left as it is.
pub open spec fn trunc_hour(t: int) -> int {
    if -9223372036 <= t <= 9223372036 {
        t - t % 3600
    } else {
        t
    }
}

/// The first hourly cursor of a ranking window starting at `from`.
pub open spec fn first_cursor(from: int) -> int {
    if trunc_hour(from) < from {
        trunc_hour(from) + 3600
    } else {
        trunc_hour(from)
    }
}

/// Candidate slots from `cursor` in hourly steps while before `to`, in
/// chronological order, each with who is free for `[start, start + dur)`.
pub open spec fn candidates(
    busy: Seq<(u128, i64, i64)>,
    ids: Seq<u128>,
    cursor: int,
    to: int,
    dur: int,
    offset: int,
) -> Seq<(int, Seq<u128>)>
    decreases (if cursor < to { to - cursor } else { 0 }) as nat,
{
    if cursor >= to {
        seq![]
    } else {
        let rest = candidates(busy, ids, cursor + 3600, to, dur, offset);
        if qualifies(cursor, offset) {
            seq![(cursor, free_during(busy, ids, cursor, cursor + dur))] + rest
        } else {
            rest
        }
    }
}

/// The walk starts at `from` rounded up to the hour (where `chrono` can
/// round it): never before `from`, and less than an hour after it.
pub proof fn law_first_cursor_in_window(from: int)
    ensures
        from <= first_cursor(from) < from + 3600,
{
}

proof fn lemma_candidates_window(
    busy: Seq<(u128, i64, i64)>,
    ids: Seq<u128>,
    cursor: int,
    to: int,
    dur: int,
    offset: int,
)
    ensures
        forall|k: int|
            0 <= k < candidates(busy, ids, cursor, to, dur, offset).len() ==> cursor <= (
            #[trigger] candidates(busy, ids, cursor, to, dur, offset)[k]).0 < to,
    decreases (if cursor < to { to - cursor } else { 0 }) as nat,
{
    if cursor < to {
        lemma_candidates_window(busy, ids, cursor + 3600, to, dur, offset);
        let rest = candidates(busy, ids, cursor + 3600, to, dur, offset);
        let c = candidates(busy, ids, cursor, to, dur, offset);
        if qualifies(cursor, offset) {
            assert forall|k: int| 0 <= k < c.len() implies cursor <= (#[trigger] c[k]).0 < to by {
                if k > 0 {
                    assert(c[k] == rest[k - 1]);
                }
            }
        }
    }
}

/// `a` ranks ahead of `b`: more people free, or as many and sooner.
pub open spec fn ranks_before(a: (int, Seq<u128>), b: (int, Seq<u128>)) -> bool {
    a.1.len() > b.1.len() || (a.1.len() == b.1.len() && a.0 < b.0)
}

/// `r` is `c` ordered best first: the same slots, each listed once, in
/// strictly decreasing rank.
pub open spec fn is_ranking(r: Seq<(int, Seq<u128>)>, c: Seq<(int, Seq<u128>)>) -> bool {
    &&& r.len() == c.len()
    &&& forall|x: (int, Seq<u128>)| r.contains(x) <==> c.contains(x)
    &&& forall|i: int, j: int| 0 <= i < j < r.len() ==> ranks_before(r[i], r[j])
}

/// Whether `r` lists its slots in strictly decreasing rank.
pub open spec fn strictly_ranked(r: Seq<(int, Seq<u128>)>) -> bool {
    forall|i: int, j: int| 0 <= i < j < r.len() ==> ranks_before(r[i], r[j])
}

proof fn lemma_ranked_unique(r1: Seq<(int, Seq<u128>)>, r2: Seq<(int, Seq<u128>)>)
    requires
        r1.len() == r2.len(),
        forall|x: (int, Seq<u128>)| r1.contains(x) <==> r2.contains(x),
        strictly_ranked(r1),
        strictly_ranked(r2),
    ensures
        r1 == r2,
    decreases r1.len(),
{
    if r1.len() == 0 {
        assert(r1 =~= r2);
    } else {
        let a = r1[0];
        let b = r2[0];
        assert(r1.contains(a));
        assert(r2.contains(b));
        let k = choose|k: int| 0 <= k < r2.len() && r2[k] == a;
        let m = choose|m: int| 0 <= m < r1.len() && r1[m] == b;
        if a != b {
            assert(k > 0);
            assert(m > 0);
            assert(ranks_before(r2[0], r2[k]));
            assert(ranks_before(r1[0], r1[m]));
        }
        let t1 = r1.drop_first();
        let t2 = r2.drop_first();
        assert forall|x: (int, Seq<u128>)| t1.contains(x) <==> t2.contains(x) by {
            if t1.contains(x) {
                let i = choose|i: int| 0 <= i < t1.len() && t1[i] == x;
                assert(r1[i + 1] == x);
                assert(ranks_before(r1[0], r1[i + 1]));
                assert(x != a);
                assert(r2.contains(x));
                let j = choose|j: int| 0 <= j < r2.len() && r2[j] == x;
                assert(j != 0);
                assert(t2[j - 1] == x);
            }
            if t2.contains(x) {
                let i = choose|i: int| 0 <= i < t2.len() && t2[i] == x;
                assert(r2[i + 1] == x);
                assert(ranks_before(r2[0], r2[i + 1]));
                assert(x != b);
                assert(r1.contains(x));
                let j = choose|j: int| 0 <= j < r1.len() && r1[j] == x;
                assert(j != 0);
                assert(t1[j - 1] == x);
            }
        }
        assert(strictly_ranked(t1)) by {
            assert forall|i: int, j: int| 0 <= i < j < t1.len() implies ranks_before(t1[i], t1[j]) by {
                assert(t1[i] == r1[i + 1] && t1[j] == r1[j + 1]);
            }
        }
        assert(strictly_ranked(t2)) by {
            assert forall|i: int, j: int| 0 <= i < j < t2.len() implies ranks_before(t2[i], t2[j]) by {
                assert(t2[i] == r2[i + 1] && t2[j] == r2[j + 1]);
            }
        }
        lemma_ranked_unique(t1, t2);
        assert(r1 =~= seq![a] + t1);
        assert(r2 =~= seq![b] + t2);
    }
}

/// Ties break toward the soonest slot and the order is total, so there is
/// one ranking of a set of candidates: the suggestion cannot shuffle
/// between two computations over the same data.
pub proof fn law_ranking_is_unique(
    r1: Seq<(int, Seq<u128>)>,
    r2: Seq<(int, Seq<u128>)>,
    c: Seq<(int, Seq<u128>)>,
)
    requires
        is_ranking(r1, c),
        is_ranking(r2, c),
    ensures
        r1 == r2,
{
    lemma_ranked_unique(r1, r2);
}

/// When `rank_slots` does any work at all.
pub open spec fn ranking_applies(n_users: int, from: int, to: int, slot_minutes: int) -> bool {
    n_users > 0 && slot_minutes > 0 && from < to
}

/// Whether `secs` seconds make a `chrono::TimeDelta` (`TimeDelta::minutes`
/// panics otherwise).
pub open spec fn delta_fits(secs: int) -> bool {
    -MAX_DELTA_SECS <= secs <= MAX_DELTA_SECS
}

/// Whether the hourly walk from `cursor` to `to` stays inside what a
/// `DateTime<Utc>` holds: each cursor read in local time (`cursor + off`),
/// each candidate's end (`cursor + dur`), and each step to the next hour.
/// Where any of these leaves the range, `chrono` panics.
pub open spec fn walk_fits(cursor: int, to: int, dur: int, off: int) -> bool
    decreases (if cursor < to { to - cursor } else { 0 }) as nat,
{
    if cursor >= to {
        true
    } else {
        &&& representable(cursor + off)
        &&& (qualifies(cursor, off) ==> representable(cursor + dur))
        &&& representable(cursor + 3600)
        &&& walk_fits(cursor + 3600, to, dur, off)
    }
}

/// The inputs on which a ranking runs without `chrono` panicking: both
/// lengths make a `TimeDelta`, and the walk stays in range. (The first
/// step up to the hour never leaves the range: an instant is truncated
/// only within a few centuries of the epoch.)
pub open spec fn ranking_in_range(
    from: int,
    to: int,
    slot_minutes: int,
    tz_offset_minutes: int,
) -> bool {
    &&& delta_fits(tz_offset_minutes * 60)
    &&& delta_fits(slot_minutes * 60)
    &&& walk_fits(first_cursor(from), to, slot_minutes * 60, tz_offset_minutes * 60)
}

fn trunc_hour_exec(t: i64) -> (r: i64)
    requires
        representable(t as int),
    ensures
        r == trunc_hour(t as int),
        t - 3599 <= r <= t,
{
    if -9223372036 <= t && t <= 9223372036 {
        let shifted: u64 = (t + 9223372800) as u64;
        proof {
            lemma_fundamental_div_mod(t as int, 3600);
            lemma_fundamental_div_mod_converse(
                t + 9223372800,
                3600,
                (t as int) / 3600 + 2562048,
                (t as int) % 3600,
            );
        }
        let m: i64 = (shifted % 3600) as i64;
        t - m
    } else {
        t
    }
}

/// Inserts `x` into the best-first `ranked`, after every slot with at least
/// as many free, given that `x` is later than every slot already there.
fn insert_ranked(ranked: &mut Vec<Slot>, x: Slot)
    requires
        forall|i: int, j: int|
            0 <= i < j < old(ranked)@.len() ==> ranks_before(
                slot_view(old(ranked)@[i]),
                slot_view(old(ranked)@[j]),
            ),
        forall|i: int| 0 <= i < old(ranked)@.len() ==> (#[trigger] old(ranked)@[i]).start < x.start,
    ensures
        exists|p: int|
            0 <= p <= old(ranked)@.len() && slot_views(final(ranked)@) == slot_views(
                old(ranked)@,
            ).insert(p, slot_view(x)),
        final(ranked)@.len() == old(ranked)@.len() + 1,
        forall|i: int, j: int|
            0 <= i < j < final(ranked)@.len() ==> ranks_before(
                slot_view(final(ranked)@[i]),
                slot_view(final(ranked)@[j]),
            ),
        forall|i: int|
            0 <= i < final(ranked)@.len() ==> (#[trigger] final(ranked)@[i]).start <= x.start,
{
    let ghost old_r = ranked@;
    let count = x.free_user_ids.len();
    let mut p: usize = 0;
    while p < ranked.len() && ranked[p].free_user_ids.len() >= count
        invariant
            p <= ranked@.len(),
            ranked@ == old_r,
            forall|i: int| 0 <= i < p ==> (#[trigger] ranked@[i]).free_user_ids@.len() >= count,
        decreases ranked@.len() - p,
    {
        p = p + 1;
    }
    let ghost xv = slot_view(x);
    ranked.insert(p, x);
    proof {
        old_r.insert_ensures(p as int, x);
        assert(slot_views(ranked@) =~= slot_views(old_r).insert(p as int, xv));
        assert forall|i: int, j: int| 0 <= i < j < ranked@.len() implies ranks_before(
            slot_view(ranked@[i]),
            slot_view(ranked@[j]),
        ) by {
            if i < p && j < p {
            } else if i < p && j == p {
                assert(old_r[i].free_user_ids@.len() >= count);
            } else if i < p && j > p {
                assert(ranks_before(slot_view(old_r[i]), slot_view(old_r[j - 1])));
            } else if i == p {
                // every slot from p on has fewer free than x
                assert(p < old_r.len());
                assert(old_r[p as int].free_user_ids@.len() < count);
                if j - 1 > p {
                    assert(ranks_before(slot_view(old_r[p as int]), slot_view(old_r[j - 1])));
                }
            } else {
                assert(ranks_before(slot_view(old_r[i - 1]), slot_view(old_r[j - 1])));
            }
        }
    }
}

/// Whether the local instant `local` falls on a candidate hour.
fn is_candidate_local(local: i64) -> (b: bool)
    requires
        representable(local as int),
    ensures
        b == candidate_hour(weekday_of(local as int), hour_of(local as int)),
{
    let wd = weekday(local);
    let hr = hour(local);
    let hours = candidate_local_hours(wd);
    let mut found = false;
    let mut h: usize = 0;
    while h < hours.len()
        invariant
            h <= hours@.len(),
            found == (exists|k: int| 0 <= k < h && hours@[k] == hr),
        decreases hours@.len() - h,
    {
        if hours[h] == hr {
            found = true;
        }
        h = h + 1;
    }
    proof {
        assert(found == hours@.contains(hr));
    }
    found
}

/// Whether `rank_slots` can run on these arguments without `chrono`
/// panicking: exactly `ranking_in_range`.
pub fn ranking_fits(from: i64, to: i64, slot_minutes: i64, tz_offset_minutes: i64) -> (b: bool)
    requires
        representable(from as int),
        representable(to as int),
    ensures
        b == ranking_in_range(from as int, to as int, slot_minutes as int, tz_offset_minutes as int),
{
    if tz_offset_minutes < -153722867280912 || tz_offset_minutes > 153722867280912
        || slot_minutes < -153722867280912 || slot_minutes > 153722867280912 {
        return false;
    }
    let offset = tz_offset_minutes * SECS_PER_MINUTE;
    let duration = slot_minutes * SECS_PER_MINUTE;
    let ghost dur = slot_minutes * 60;
    let ghost off = tz_offset_minutes * 60;
    let mut cursor = trunc_hour_exec(from);
    if cursor < from {
        cursor = cursor + SECS_PER_HOUR;
    }
    let ghost c0 = cursor as int;
    assert(c0 == first_cursor(from as int));
    while cursor < to
        invariant
            from <= cursor,
            cursor < from + 3600 || cursor < to + 3600,
            representable(from as int),
            representable(to as int),
            dur == duration,
            off == offset,
            dur == slot_minutes * 60,
            off == tz_offset_minutes * 60,
            c0 == first_cursor(from as int),
            -MAX_DELTA_SECS <= offset <= MAX_DELTA_SECS,
            -MAX_DELTA_SECS <= duration <= MAX_DELTA_SECS,
            walk_fits(c0, to as int, dur, off) == walk_fits(cursor as int, to as int, dur, off),
        decreases to + 3600 - cursor,
    {
        let local = cursor + offset;
        if local < MIN_INSTANT || local > MAX_INSTANT {
            assert(!walk_fits(cursor as int, to as int, dur, off));
            return false;
        }
        let q = is_candidate_local(local);
        assert(q == qualifies(cursor as int, off));
        if q && (cursor + duration < MIN_INSTANT || cursor + duration > MAX_INSTANT) {
            assert(!walk_fits(cursor as int, to as int, dur, off));
            return false;
        }
        if cursor + SECS_PER_HOUR > MAX_INSTANT {
            assert(!walk_fits(cursor as int, to as int, dur, off));
            return false;
        }
        cursor = cursor + SECS_PER_HOUR;
    }
    true
}

/// Candidate slots in `[from, to)`, best first.
///
/// Candidates are the hourly instants from `from` (rounded up to the hour)
/// whose local time, at `tz_offset_minutes` from UTC, is a candidate hour;
/// each lists who of `user_ids` is free for the whole `slot_minutes`. The
/// order is by how many are free, ties to the soonest - total, so the
/// suggestion is stable. Nothing is ranked for an empty user list, a
/// non-positive length, or a window that is empty or backwards.
pub fn rank_slots(
    busy: &[(u128, i64, i64)],
    user_ids: &[u128],
    from: i64,
    to: i64,
    slot_minutes: i64,
    tz_offset_minutes: i64,
) -> (r: Vec<Slot>)
    requires
        representable(from as int),
        representable(to as int),
        ranking_applies(user_ids@.len() as int, from as int, to as int, slot_minutes as int)
            ==> ranking_in_range(
            from as int,
            to as int,
            slot_minutes as int,
            tz_offset_minutes as int,
        ),
    ensures
        !ranking_applies(user_ids@.len() as int, from as int, to as int, slot_minutes as int)
            ==> r@.len() == 0,
        ranking_applies(user_ids@.len() as int, from as int, to as int, slot_minutes as int)
            ==> is_ranking(
            slot_views(r@),
            candidates(
                busy@,
                user_ids@,
                first_cursor(from as int),
                to as int,
                slot_minutes * 60,
                tz_offset_minutes * 60,
            ),
        ),
        forall|i: int| 0 <= i < r@.len() ==> from <= (#[trigger] r@[i]).start < to,
{
    if user_ids.len() == 0 || slot_minutes <= 0 || to <= from {
        return Vec::new();
    }
    let offset = tz_offset_minutes * SECS_PER_MINUTE;
    let duration = slot_minutes * SECS_PER_MINUTE;
    let ghost dur = slot_minutes * 60;
    let ghost off = tz_offset_minutes * 60;

    let mut cursor = trunc_hour_exec(from);
    if cursor < from {
        cursor = cursor + SECS_PER_HOUR;
    }
    let ghost c0 = cursor as int;
    let ghost all = candidates(busy@, user_ids@, c0, to as int, dur, off);
    let ghost mut made: Seq<(int, Seq<u128>)> = seq![];
    let mut ranked: Vec<Slot> = Vec::new();

    while cursor < to
        invariant
            from <= cursor,
            cursor < to + 3600,
            slot_minutes > 0,
            c0 == first_cursor(from as int),
            dur == duration,
            off == offset,
            walk_fits(cursor as int, to as int, dur, off),
            duration == slot_minutes * 60,
            offset == tz_offset_minutes * 60,
            all == candidates(busy@, user_ids@, c0, to as int, dur, off),
            made + candidates(busy@, user_ids@, cursor as int, to as int, dur, off) == all,
            slot_views(ranked@).len() == made.len(),
            forall|x: (int, Seq<u128>)| slot_views(ranked@).contains(x) <==> made.contains(x),
            forall|i: int, j: int|
                0 <= i < j < ranked@.len() ==> ranks_before(
                    slot_view(ranked@[i]),
                    slot_view(ranked@[j]),
                ),
            forall|i: int| 0 <= i < ranked@.len() ==> (#[trigger] ranked@[i]).start < cursor,
        decreases to + 3600 - cursor,
    {
        let found = is_candidate_local(cursor + offset);
        let ghost rest = candidates(busy@, user_ids@, cursor + 3600, to as int, dur, off);
        if found {
            let free = free_users_for_interval(busy, user_ids, cursor, cursor + duration);
            let slot = Slot { start: cursor, free_user_ids: free };
            let ghost sv = slot_view(slot);
            let ghost old_views = slot_views(ranked@);
            insert_ranked(&mut ranked, slot);
            proof {
                let p = choose|p: int|
                    0 <= p <= old_views.len() && slot_views(ranked@) == old_views.insert(p, sv);
                assert forall|x: (int, Seq<u128>)| slot_views(ranked@).contains(x) <==> made.push(
                    sv,
                ).contains(x) by {
                    lemma_insert_contains(old_views, p, sv, x);
                    if made.push(sv).contains(x) {
                        let k = choose|k: int| 0 <= k < made.push(sv).len() && made.push(sv)[k] == x;
                        if k < made.len() {
                            assert(made[k] == x);
                        }
                    }
                    if made.contains(x) {
                        let k = choose|k: int| 0 <= k < made.len() && made[k] == x;
                        assert(made.push(sv)[k] == x);
                    }
                    if x == sv {
                        assert(made.push(sv)[made.len() as int] == x);
                    }
                }
                assert(made + candidates(busy@, user_ids@, cursor as int, to as int, dur, off)
                    =~= made.push(sv) + rest);
                made = made.push(sv);
            }
        }
        cursor = cursor + SECS_PER_HOUR;
    }
    proof {
        assert(made =~= all);
        lemma_candidates_window(busy@, user_ids@, c0, to as int, dur, off);
        law_first_cursor_in_window(from as int);
        assert forall|i: int| 0 <= i < ranked@.len() implies from <= (#[trigger] ranked@[i]).start < to by {
            let sv = slot_views(ranked@);
            assert(sv[i] == slot_view(ranked@[i]));
            assert(sv.contains(sv[i]));
            assert(all.contains(sv[i]));
            let k = choose|k: int| 0 <= k < all.len() && all[k] == sv[i];
        }
    }
    ranked
}

/// One suggestion as the caller sees it: the slot, and which of their
/// friends are free for it (the caller never counted).
pub struct SlotSuggestion {
    pub start: i64,
    pub free_count: usize,
    pub free_friend_ids: Vec<u128>,
}

/// How many suggestions are returned at most.
pub const MAX_SUGGESTIONS: usize = 5;

/// The slots the caller `me` is free for, in the given order, each with `me`
/// removed from its free list.
pub open spec fn suggestions_of(slots: Seq<(int, Seq<u128>)>, me: u128) -> Seq<(int, Seq<u128>)> {
    slots.filter(includes(me)).map_values(without(me))
}

pub open spec fn not_user(me: u128) -> spec_fn(u128) -> bool {
    |u: u128| u != me
}

pub open spec fn includes(me: u128) -> spec_fn((int, Seq<u128>)) -> bool {
    |s: (int, Seq<u128>)| s.1.contains(me)
}

pub open spec fn without(me: u128) -> spec_fn((int, Seq<u128>)) -> (int, Seq<u128>) {
    |s: (int, Seq<u128>)| (s.0, s.1.filter(not_user(me)))
}

pub open spec fn suggestion_view(s: SlotSuggestion) -> (int, Seq<u128>) {
    (s.start as int, s.free_friend_ids@)
}

/// Turns a ranking over the caller and their friends into what the caller
/// is shown: only slots the caller is free for, the caller stripped from
/// each, at most five, best first.
pub fn suggest(slots: Vec<Slot>, me: u128) -> (r: Vec<SlotSuggestion>)
    ensures
        r@.len() == if suggestions_of(slot_views(slots@), me).len() < 5 {
            suggestions_of(slot_views(slots@), me).len()
        } else {
            5
        },
        forall|i: int|
            0 <= i < r@.len() ==> suggestion_view(#[trigger] r@[i]) == suggestions_of(
                slot_views(slots@),
                me,
            )[i] && r@[i].free_count == r@[i].free_friend_ids@.len(),
{
    let ghost views = slot_views(slots@);
    let ghost keep = includes(me);
    let ghost strip = without(me);
    let ghost not_me = not_user(me);
    let mut r: Vec<SlotSuggestion> = Vec::new();
    let mut i: usize = 0;
    while i < slots.len() && r.len() < MAX_SUGGESTIONS
        invariant
            i <= slots@.len(),
            views == slot_views(slots@),
            keep == includes(me),
            strip == without(me),
            not_me == not_user(me),
            r@.len() <= 5,
            r@.len() == views.take(i as int).filter(keep).len(),
            forall|k: int|
                0 <= k < r@.len() ==> suggestion_view(#[trigger] r@[k]) == strip(
                    views.take(i as int).filter(keep)[k],
                ) && r@[k].free_count == r@[k].free_friend_ids@.len(),
        decreases slots@.len() - i,
    {
        proof {
            lemma_filter_step(views, i as int, keep);
        }
        let ids = &slots[i].free_user_ids;
        let mut has_me = false;
        let mut others: Vec<u128> = Vec::new();
        let mut k: usize = 0;
        while k < ids.len()
            invariant
                k <= ids@.len(),
                i < slots@.len(),
                ids@ == slots@[i as int].free_user_ids@,
                not_me == not_user(me),
                has_me == ids@.take(k as int).contains(me),
                others@ == ids@.take(k as int).filter(not_me),
            decreases ids@.len() - k,
        {
            proof {
                lemma_filter_step(ids@, k as int, not_me);
                assert(ids@.take(k + 1) =~= ids@.take(k as int).push(ids@[k as int]));
                assert(ids@.take(k as int).push(ids@[k as int]).contains(me) <==> (ids@.take(
                    k as int,
                ).contains(me) || ids@[k as int] == me)) by {
                    if ids@.take(k as int).contains(me) {
                        let j = choose|j: int| 0 <= j < k && ids@.take(k as int)[j] == me;
                        assert(ids@.take(k as int).push(ids@[k as int])[j] == me);
                    }
                    if ids@[k as int] == me {
                        assert(ids@.take(k as int).push(ids@[k as int])[k as int] == me);
                    }
                }
            }
            if ids[k] == me {
                has_me = true;
            } else {
                others.push(ids[k]);
            }
            k = k + 1;
        }
        proof {
            assert(ids@.take(ids@.len() as int) =~= ids@);
            assert(views[i as int] == slot_view(slots@[i as int]));
            assert(others@ == ids@.filter(not_user(me)));
        }
        if has_me {
            let n = others.len();
            r.push(SlotSuggestion { start: slots[i].start, free_count: n, free_friend_ids: others });
        }
        i = i + 1;
    }
    proof {
        let f = views.filter(keep);
        let m = f.map_values(strip);
        assert(suggestions_of(views, me) =~= m);
        assert(views.take(i as int).is_prefix_of(views));
        views.take(i as int).lemma_filter_monotone(views, keep);
        if i >= slots.len() {
            assert(views.take(slots@.len() as int) =~= views);
        }
    }
    r
}

} // verus!
