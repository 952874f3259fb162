//! Adaptive weighted selection of recurring tasks.
//!
//! A task carries a static weight: its target number of completions per
//! cycle (a rolling window of `CYCLE` days). Weights are held in hundredths,
//! so a target of three and a half completions per cycle is the weight 350;
//! all arithmetic on them is exact. Task identifiers are 128-bit values and
//! timestamps are whole seconds since the unix epoch.
//!
//! One run filters the history to the current cycle window, tallies
//! completions per task, estimates today's quota, derives a dynamic sampling
//! weight per task, and draws the quota of tasks without replacement.

use vstd::prelude::*;
use vstd::arithmetic::div_mod::lemma_fundamental_div_mod;
use crate::count_table::{CountTable, lookup, total, lemma_total_nonneg};
use crate::outside::{now_parts, rand_below, weighted_pick};

verus! {

/// Days in the rolling cycle window.
pub const CYCLE: u64 = 7;

/// Hundredths per whole unit of static weight.
pub const SCALE: u64 = 100;

/// A recurring task. `weight` is the static weight in hundredths of a
/// completion per cycle, so it is a positive integer for any positive real
/// target with two decimals.
#[derive(Debug, Clone)]
pub struct Task {
    pub id: u128,
    pub name: String,
    pub weight: u64,
}

/// A record of the tasks completed on one day. `date` is in whole seconds
/// since the unix epoch.
#[derive(Debug, Clone)]
pub struct WorkDay {
    pub date: i64,
    pub tasks: Vec<u128>,
}

/// The mathematical value of a `WorkDay`.
pub struct WorkDayView {
    pub date: int,
    pub tasks: Seq<u128>,
}

impl View for WorkDay {
    type V = WorkDayView;

    open spec fn view(&self) -> WorkDayView {
        WorkDayView { date: self.date as int, tasks: self.tasks@ }
    }
}

impl DeepView for WorkDay {
    type V = WorkDayView;

    open spec fn deep_view(&self) -> WorkDayView {
        self.view()
    }
}

/// The failure modes of the weighted sampler.
#[derive(Debug, Clone, Copy, PartialEq, Eq, Structural)]
pub enum SelectError {
    /// Every remaining candidate weight was zero (or no candidate remained)
    /// when a draw was demanded.
    InvalidWeightDistribution,
    /// A task had no entry in the dynamic weight table.
    MissingWeightEntry,
}

impl WorkDay {
    /// A record of today's chosen tasks, dated with the clock's current
    /// reading.
    pub fn new(tasks: Vec<u128>) -> (r: WorkDay)
        ensures
            r.tasks@ == tasks@,
    {
        let (ts, _, _, _) = now_parts();
        WorkDay { date: ts, tasks }
    }
}

/// No identifier occurs twice among the tasks.
pub open spec fn distinct_ids(s: Seq<Task>) -> bool {
    forall|i: int, j: int| 0 <= i < j < s.len() ==> s[i].id != s[j].id
}

/// The sum of the static weights, in hundredths.
pub open spec fn sum_weights(s: Seq<Task>) -> int
    decreases s.len(),
{
    if s.len() == 0 {
        0
    } else {
        s[0].weight + sum_weights(s.subrange(1, s.len() as int))
    }
}

/// The records of the window `[cutoff, now]`: those dated at or after the
/// cutoff and not after now, kept in order.
pub open spec fn filter_window(days: Seq<WorkDayView>, cutoff: int, now: int) -> Seq<WorkDayView>
    decreases days.len(),
{
    if days.len() == 0 {
        Seq::empty()
    } else {
        let rest = filter_window(days.subrange(1, days.len() as int), cutoff, now);
        if cutoff <= days[0].date <= now {
            seq![days[0]] + rest
        } else {
            rest
        }
    }
}

/// How often `id` occurs in one day's task list.
pub open spec fn count_in_day(tasks: Seq<u128>, id: u128) -> int
    decreases tasks.len(),
{
    if tasks.len() == 0 {
        0
    } else {
        (if tasks[0] == id {
            1int
        } else {
            0int
        }) + count_in_day(tasks.subrange(1, tasks.len() as int), id)
    }
}

/// How often `id` occurs across all the days.
pub open spec fn occurrences(days: Seq<WorkDayView>, id: u128) -> int
    decreases days.len(),
{
    if days.len() == 0 {
        0
    } else {
        count_in_day(days[0].tasks, id) + occurrences(days.subrange(1, days.len() as int), id)
    }
}

/// The number of completions recorded across all the days.
pub open spec fn occurrence_total(days: Seq<WorkDayView>) -> int
    decreases days.len(),
{
    if days.len() == 0 {
        0
    } else {
        days[0].tasks.len() + occurrence_total(days.subrange(1, days.len() as int))
    }
}

/// The table is exactly the per-identifier completion counts of the days:
/// an identifier has an entry precisely when it occurs, the entry is its
/// number of occurrences, and the counts sum to the number of completions.
pub open spec fn tally_matches(t: Seq<(u128, u64)>, days: Seq<WorkDayView>) -> bool {
    &&& forall|id: u128| #[trigger] lookup(t, id) is Some <==> occurrences(days, id) > 0
    &&& forall|id: u128|
        occurrences(days, id) > 0 ==> #[trigger] lookup(t, id) == Some(
            occurrences(days, id) as u64,
        )
    &&& total(t) == occurrence_total(days)
}

/// The moment `CYCLE` days before the latest midnight not after `now`: the
/// cutoff of the cycle window. The hour, minute and second are the local
/// time of day at `now`.
pub fn cycle_cutoff(now_ts: i64, hour: u32, minute: u32, second: u32) -> (r: i128)
    requires
        hour < 24,
        minute < 60,
        second < 60,
    ensures
        r == now_ts - (CYCLE * 24 * 60 * 60 + hour * 60 * 60 + minute * 60 + second),
{
    (now_ts as i128) - (7 * 24 * 60 * 60 + (hour as i128) * 60 * 60 + (minute as i128) * 60
        + (second as i128))
}

fn copy_work_day(d: &WorkDay) -> (r: WorkDay)
    ensures
        r.deep_view() == d.deep_view(),
{
    let n = d.tasks.len();
    let mut ts: Vec<u128> = Vec::new();
    let mut i: usize = 0;
    while i < n
        invariant
            n == d.tasks@.len(),
            0 <= i <= n,
            ts@ == d.tasks@.subrange(0, i as int),
        decreases n - i,
    {
        ts.push(d.tasks[i]);
        proof {
            assert(ts@ =~= d.tasks@.subrange(0, i + 1));
        }
        i = i + 1;
    }
    proof {
        assert(ts@ =~= d.tasks@);
    }
    WorkDay { date: d.date, tasks: ts }
}

proof fn lemma_filter_window_push(days: Seq<WorkDayView>, d: WorkDayView, cutoff: int, now: int)
    ensures
        filter_window(days.push(d), cutoff, now) == if cutoff <= d.date <= now {
            filter_window(days, cutoff, now).push(d)
        } else {
            filter_window(days, cutoff, now)
        },
    decreases days.len(),
{
    reveal_with_fuel(filter_window, 2);
    if days.len() == 0 {
        assert(days.push(d)[0] == d);
        assert(days.push(d).subrange(1, 1) =~= Seq::<WorkDayView>::empty());
        if cutoff <= d.date <= now {
            assert(seq![d] + Seq::<WorkDayView>::empty() =~= filter_window(
                days,
                cutoff,
                now,
            ).push(d));
        }
    } else {
        assert(days.push(d)[0] == days[0]);
        assert(days.push(d).subrange(1, days.len() as int + 1) =~= days.subrange(
            1,
            days.len() as int,
        ).push(d));
        lemma_filter_window_push(days.subrange(1, days.len() as int), d, cutoff, now);
        let rest = filter_window(days.subrange(1, days.len() as int), cutoff, now);
        if cutoff <= d.date <= now && cutoff <= days[0].date <= now {
            assert(seq![days[0]] + rest.push(d) =~= (seq![days[0]] + rest).push(d));
        }
    }
}

/// The cycle window keeps exactly the records dated within `[cutoff, now]`:
/// none strictly older than the cutoff or newer than now is kept, and every
/// one inside the window is.
pub proof fn lemma_filter_window_membership(days: Seq<WorkDayView>, cutoff: int, now: int)
    ensures
        forall|v: WorkDayView| #[trigger]
            filter_window(days, cutoff, now).contains(v) <==> days.contains(v) && cutoff <= v.date
                <= now,
    decreases days.len(),
{
    if days.len() > 0 {
        let tail = days.subrange(1, days.len() as int);
        lemma_filter_window_membership(tail, cutoff, now);
        assert forall|v: WorkDayView| #[trigger]
            filter_window(days, cutoff, now).contains(v) implies days.contains(v) && cutoff
            <= v.date <= now by {
            let f = filter_window(days, cutoff, now);
            let rest = filter_window(tail, cutoff, now);
            let k = choose|k: int| 0 <= k < f.len() && f[k] == v;
            if cutoff <= days[0].date <= now && k == 0 {
                assert(days[0] == v);
            } else {
                assert(rest.contains(v));
                let j = choose|j: int| 0 <= j < tail.len() && tail[j] == v;
                assert(days[j + 1] == v);
            }
        }
        assert forall|v: WorkDayView| days.contains(v) && cutoff <= v.date <= now implies #[trigger]
            filter_window(days, cutoff, now).contains(v) by {
            let k = choose|k: int| 0 <= k < days.len() && days[k] == v;
            let rest = filter_window(tail, cutoff, now);
            if k == 0 {
                assert(filter_window(days, cutoff, now)[0] == v);
            } else {
                assert(tail[k - 1] == v);
                assert(rest.contains(v));
                let j = choose|j: int| 0 <= j < rest.len() && rest[j] == v;
                if cutoff <= days[0].date <= now {
                    assert(filter_window(days, cutoff, now)[j + 1] == v);
                }
            }
        }
    }
}

/// A window holds no more completions than the history it was cut from.
proof fn lemma_filter_window_occurrence_total(days: Seq<WorkDayView>, cutoff: int, now: int)
    ensures
        0 <= occurrence_total(filter_window(days, cutoff, now)) <= occurrence_total(days),
    decreases days.len(),
{
    reveal_with_fuel(occurrence_total, 2);
    if days.len() == 0 {
    } else {
        let tail = days.subrange(1, days.len() as int);
        lemma_filter_window_occurrence_total(tail, cutoff, now);
        if cutoff <= days[0].date <= now {
            let f = seq![days[0]] + filter_window(tail, cutoff, now);
            assert(f.subrange(1, f.len() as int) =~= filter_window(tail, cutoff, now));
        }
    }
}

proof fn lemma_count_in_day_nonneg(tasks: Seq<u128>, id: u128)
    ensures
        0 <= count_in_day(tasks, id) <= tasks.len(),
    decreases tasks.len(),
{
    if tasks.len() > 0 {
        lemma_count_in_day_nonneg(tasks.subrange(1, tasks.len() as int), id);
    }
}

proof fn lemma_count_in_day_push(tasks: Seq<u128>, t: u128, id: u128)
    ensures
        count_in_day(tasks.push(t), id) == count_in_day(tasks, id) + (if t == id {
            1int
        } else {
            0int
        }),
    decreases tasks.len(),
{
    reveal_with_fuel(count_in_day, 2);
    if tasks.len() == 0 {
        assert(tasks.push(t)[0] == t);
        assert(tasks.push(t).subrange(1, 1) =~= Seq::<u128>::empty());
    } else {
        assert(tasks.push(t)[0] == tasks[0]);
        assert(tasks.push(t).subrange(1, tasks.len() as int + 1) =~= tasks.subrange(
            1,
            tasks.len() as int,
        ).push(t));
        lemma_count_in_day_push(tasks.subrange(1, tasks.len() as int), t, id);
    }
}

proof fn lemma_occurrences_nonneg(days: Seq<WorkDayView>, id: u128)
    ensures
        occurrences(days, id) >= 0,
    decreases days.len(),
{
    if days.len() > 0 {
        lemma_count_in_day_nonneg(days[0].tasks, id);
        lemma_occurrences_nonneg(days.subrange(1, days.len() as int), id);
    }
}

proof fn lemma_occurrences_push(days: Seq<WorkDayView>, d: WorkDayView, id: u128)
    ensures
        occurrences(days.push(d), id) == occurrences(days, id) + count_in_day(d.tasks, id),
    decreases days.len(),
{
    reveal_with_fuel(occurrences, 2);
    if days.len() == 0 {
        assert(days.push(d)[0] == d);
        assert(days.push(d).subrange(1, 1) =~= Seq::<WorkDayView>::empty());
    } else {
        assert(days.push(d)[0] == days[0]);
        assert(days.push(d).subrange(1, days.len() as int + 1) =~= days.subrange(
            1,
            days.len() as int,
        ).push(d));
        lemma_occurrences_push(days.subrange(1, days.len() as int), d, id);
    }
}

proof fn lemma_occurrence_total_nonneg(days: Seq<WorkDayView>)
    ensures
        occurrence_total(days) >= 0,
    decreases days.len(),
{
    if days.len() > 0 {
        lemma_occurrence_total_nonneg(days.subrange(1, days.len() as int));
    }
}

proof fn lemma_occurrences_le_total(days: Seq<WorkDayView>, id: u128)
    ensures
        occurrences(days, id) <= occurrence_total(days),
    decreases days.len(),
{
    if days.len() > 0 {
        lemma_count_in_day_nonneg(days[0].tasks, id);
        lemma_occurrences_le_total(days.subrange(1, days.len() as int), id);
    }
}

proof fn lemma_occurrence_total_split(days: Seq<WorkDayView>, i: int)
    requires
        0 <= i <= days.len(),
    ensures
        occurrence_total(days) == occurrence_total(days.subrange(0, i)) + occurrence_total(
            days.subrange(i, days.len() as int),
        ),
    decreases i,
{
    reveal_with_fuel(occurrence_total, 2);
    if i == 0 {
        assert(days.subrange(0, 0) =~= Seq::<WorkDayView>::empty());
        assert(days.subrange(0, days.len() as int) =~= days);
    } else {
        let tail = days.subrange(1, days.len() as int);
        lemma_occurrence_total_split(tail, i - 1);
        assert(days.subrange(0, i).subrange(1, i) =~= tail.subrange(0, i - 1));
        assert(days.subrange(i, days.len() as int) =~= tail.subrange(i - 1, tail.len() as int));
        assert(occurrence_total(days.subrange(0, i)) == days[0].tasks.len() + occurrence_total(
            tail.subrange(0, i - 1),
        ));
    }
}

/// Aggregates the (filtered) days into per-task completion counts. A task
/// absent from the days is absent from the table, never zero-valued.
pub fn tally_completions(days: &Vec<WorkDay>) -> (r: CountTable)
    requires
        occurrence_total(days.deep_view()) <= u64::MAX,
    ensures
        r.wf(),
        tally_matches(r@, days.deep_view()),
{
    let ghost all = days.deep_view();
    let mut t = CountTable::new();
    let n = days.len();
    let mut i: usize = 0;
    proof {
        assert(all.subrange(0, 0) =~= Seq::<WorkDayView>::empty());
        assert forall|id: u128| #[trigger] lookup(t@, id) == none_or_occ(
            Seq::<WorkDayView>::empty(),
            id,
        ) by {}
    }
    while i < n
        invariant
            n == days@.len(),
            all == days.deep_view(),
            occurrence_total(all) <= u64::MAX,
            0 <= i <= n,
            t.wf(),
            forall|id: u128| #[trigger] lookup(t@, id) == none_or_occ(all.subrange(0, i as int), id),
            total(t@) == occurrence_total(all.subrange(0, i as int)),
        decreases n - i,
    {
        let ghost prefix = all.subrange(0, i as int);
        let m = days[i].tasks.len();
        let mut k: usize = 0;
        proof {
            assert(all[i as int].tasks.subrange(0, 0) =~= Seq::<u128>::empty());
            assert forall|id: u128| #[trigger] lookup(t@, id) == none_or_part(prefix, all[i as int].tasks, 0, id) by {
                lemma_occurrences_nonneg(prefix, id);
            }
        }
        while k < m
            invariant
                n == days@.len(),
                all == days.deep_view(),
                occurrence_total(all) <= u64::MAX,
                0 <= i < n,
                m == all[i as int].tasks.len(),
                0 <= k <= m,
                prefix == all.subrange(0, i as int),
                t.wf(),
                forall|id: u128| #[trigger] lookup(t@, id) == none_or_part(
                    prefix,
                    all[i as int].tasks,
                    k as int,
                    id,
                ),
                total(t@) == occurrence_total(prefix) + k,
            decreases m - k,
        {
            let id0 = days[i].tasks[k];
            let ghost dts = all[i as int].tasks;
            let ghost pre = t@;
            proof {
                assert(dts[k as int] == id0);
                lemma_occurrence_total_split(all, i as int);
                lemma_occurrence_total_nonneg(all.subrange(i as int, n as int));
                assert(all.subrange(i as int, n as int)[0] == all[i as int]);
                assert(occurrence_total(all.subrange(i as int, n as int)) >= m) by {
                    let suffix = all.subrange(i as int, n as int);
                    lemma_occurrence_total_nonneg(suffix.subrange(1, suffix.len() as int));
                }
                assert(total(t@) + (m - k) <= u64::MAX);
                if lookup(t@, id0) is Some {
                    crate::count_table::lemma_lookup_le_total(t@, id0);
                }
                lemma_occurrences_nonneg(prefix, id0);
                lemma_count_in_day_nonneg(dts.subrange(0, k as int), id0);
            }
            t.increment(id0);
            proof {
                assert(dts.subrange(0, k as int + 1) =~= dts.subrange(0, k as int).push(dts[k as int]));
                assert forall|id: u128| #[trigger] lookup(t@, id) == none_or_part(
                    prefix,
                    dts,
                    k as int + 1,
                    id,
                ) by {
                    lemma_count_in_day_push(dts.subrange(0, k as int), dts[k as int], id);
                    lemma_occurrences_nonneg(prefix, id);
                    lemma_count_in_day_nonneg(dts.subrange(0, k as int), id);
                    assert(lookup(pre, id) == none_or_part(prefix, dts, k as int, id));
                    if id == id0 {
                        let c = occurrences(prefix, id) + count_in_day(dts.subrange(0, k as int), id);
                        lemma_occurrences_le_total(prefix, id);
                        assert(c <= occurrence_total(prefix) + k);
                        if c > 0 {
                            assert(lookup(pre, id) == Some(c as u64));
                            assert(c + 1 <= u64::MAX);
                            assert(lookup(t@, id) == Some((c + 1) as u64));
                        } else {
                            assert(lookup(pre, id) is None);
                            assert(lookup(t@, id) == Some(1u64));
                        }
                    } else {
                        assert(lookup(t@, id) == lookup(pre, id));
                    }
                }
            }
            k = k + 1;
        }
        proof {
            let dts = all[i as int].tasks;
            assert(dts.subrange(0, m as int) =~= dts);
            assert(all.subrange(0, i as int + 1) =~= prefix.push(all[i as int]));
            assert forall|id: u128| #[trigger] lookup(t@, id) == none_or_occ(
                all.subrange(0, i as int + 1),
                id,
            ) by {
                lemma_occurrences_push(prefix, all[i as int], id);
                lemma_occurrences_nonneg(prefix, id);
                lemma_count_in_day_nonneg(dts, id);
            }
            assert(occurrence_total(all.subrange(0, i as int + 1)) == occurrence_total(prefix)
                + m) by {
                lemma_occurrence_total_push(prefix, all[i as int]);
            }
        }
        i = i + 1;
    }
    proof {
        assert(all.subrange(0, n as int) =~= all);
        assert forall|id: u128| #[trigger] lookup(t@, id) is Some implies occurrences(all, id)
            > 0 by {
            lemma_occurrences_nonneg(all, id);
        }
    }
    t
}

/// The expected table entry while `days` plus the first `k` completions of
/// one more day's list have been aggregated.
spec fn none_or_part(days: Seq<WorkDayView>, tasks: Seq<u128>, k: int, id: u128) -> Option<u64> {
    let c = occurrences(days, id) + count_in_day(tasks.subrange(0, k), id);
    if c > 0 {
        Some(c as u64)
    } else {
        None
    }
}

/// The expected table entry once `days` have been aggregated.
spec fn none_or_occ(days: Seq<WorkDayView>, id: u128) -> Option<u64> {
    if occurrences(days, id) > 0 {
        Some(occurrences(days, id) as u64)
    } else {
        None
    }
}

proof fn lemma_occurrence_total_push(days: Seq<WorkDayView>, d: WorkDayView)
    ensures
        occurrence_total(days.push(d)) == occurrence_total(days) + d.tasks.len(),
    decreases days.len(),
{
    reveal_with_fuel(occurrence_total, 2);
    if days.len() == 0 {
        assert(days.push(d)[0] == d);
        assert(days.push(d).subrange(1, 1) =~= Seq::<WorkDayView>::empty());
    } else {
        assert(days.push(d)[0] == days[0]);
        assert(days.push(d).subrange(1, days.len() as int + 1) =~= days.subrange(
            1,
            days.len() as int,
        ).push(d));
        lemma_occurrence_total_push(days.subrange(1, days.len() as int), d);
    }
}

/// The completion tally of the cycle window ending now: the history is cut
/// to `[now - (CYCLE days + time of day), now]` by the machine's clock and
/// aggregated per task. The witnesses of the `ensures` have the shape of a
/// clock reading: a whole-second timestamp and a time of day below one day.
pub fn tasks_last_cycle(history: &Vec<WorkDay>) -> (r: CountTable)
    requires
        occurrence_total(history.deep_view()) <= u64::MAX,
    ensures
        r.wf(),
        exists|now: int, cutoff: int| #[trigger]
            clock_cut(now, cutoff) && tally_matches(
                r@,
                filter_window(history.deep_view(), cutoff, now),
            ),
{
    let (ts, h, mi, se) = now_parts();
    let cutoff = cycle_cutoff(ts, h, mi, se);
    proof {
        lemma_filter_window_occurrence_total(history.deep_view(), cutoff as int, ts as int);
    }
    let window = filter_last_cycle(history, cutoff, ts);
    let r = tally_completions(&window);
    proof {
        assert(clock_cut(ts as int, cutoff as int));
        assert(tally_matches(r@, filter_window(history.deep_view(), cutoff as int, ts as int)));
    }
    r
}

/// The subset of the history within the cycle window `[cutoff, now]`: the
/// records dated at or after `cutoff` and not after `now`, in their
/// original order.
pub fn filter_last_cycle(history: &Vec<WorkDay>, cutoff: i128, now: i64) -> (r: Vec<WorkDay>)
    ensures
        r.deep_view() == filter_window(history.deep_view(), cutoff as int, now as int),
{
    let n = history.len();
    let mut out: Vec<WorkDay> = Vec::new();
    let mut i: usize = 0;
    while i < n
        invariant
            n == history@.len(),
            0 <= i <= n,
            out.deep_view() == filter_window(
                history.deep_view().subrange(0, i as int),
                cutoff as int,
                now as int,
            ),
        decreases n - i,
    {
        let ghost prefix = history.deep_view().subrange(0, i as int);
        let ghost dv = history@[i as int]@;
        proof {
            assert(history.deep_view().subrange(0, i + 1) =~= prefix.push(dv));
            lemma_filter_window_push(prefix, dv, cutoff as int, now as int);
        }
        if cutoff <= (history[i].date as i128) && history[i].date <= now {
            let c = copy_work_day(&history[i]);
            out.push(c);
            proof {
                assert(out.deep_view() =~= filter_window(prefix, cutoff as int, now as int).push(
                    dv,
                ));
            }
        }
        i = i + 1;
    }
    proof {
        assert(history.deep_view().subrange(0, n as int) =~= history.deep_view());
    }
    out
}

proof fn lemma_sum_weights_nonneg(s: Seq<Task>)
    ensures
        sum_weights(s) >= 0,
    decreases s.len(),
{
    if s.len() > 0 {
        lemma_sum_weights_nonneg(s.subrange(1, s.len() as int));
    }
}

proof fn lemma_sum_weights_split(s: Seq<Task>, i: int)
    requires
        0 <= i <= s.len(),
    ensures
        sum_weights(s) == sum_weights(s.subrange(0, i)) + sum_weights(s.subrange(i, s.len() as int)),
    decreases i,
{
    reveal_with_fuel(sum_weights, 2);
    if i == 0 {
        assert(s.subrange(0, 0) =~= Seq::<Task>::empty());
        assert(s.subrange(0, s.len() as int) =~= s);
    } else {
        let tail = s.subrange(1, s.len() as int);
        lemma_sum_weights_split(tail, i - 1);
        assert(s.subrange(0, i).subrange(1, i) =~= tail.subrange(0, i - 1));
        assert(s.subrange(i, s.len() as int) =~= tail.subrange(i - 1, tail.len() as int));
        assert(sum_weights(s.subrange(0, i)) == s[0].weight + sum_weights(tail.subrange(0, i - 1)));
    }
}

fn sum_static_weights(tasks: &Vec<Task>) -> (r: u64)
    requires
        sum_weights(tasks@) <= u64::MAX,
    ensures
        r == sum_weights(tasks@),
{
    let n = tasks.len();
    let mut acc: u64 = 0;
    let mut i: usize = 0;
    proof {
        assert(tasks@.subrange(0, 0) =~= Seq::<Task>::empty());
    }
    while i < n
        invariant
            n == tasks@.len(),
            0 <= i <= n,
            sum_weights(tasks@) <= u64::MAX,
            acc == sum_weights(tasks@.subrange(0, i as int)),
        decreases n - i,
    {
        proof {
            lemma_sum_weights_split(tasks@, i as int);
            let suffix = tasks@.subrange(i as int, n as int);
            assert(suffix[0] == tasks@[i as int]);
            lemma_sum_weights_nonneg(suffix.subrange(1, suffix.len() as int));
            assert(suffix.subrange(1, suffix.len() as int) =~= tasks@.subrange(i + 1, n as int));
            assert(sum_weights(suffix) == tasks@[i as int].weight + sum_weights(
                tasks@.subrange(i + 1, n as int),
            ));
            assert(tasks@.subrange(0, i + 1) =~= tasks@.subrange(0, i as int).push(
                tasks@[i as int],
            ));
            lemma_sum_weights_push(tasks@.subrange(0, i as int), tasks@[i as int]);
        }
        acc = acc + tasks.as_slice()[i].weight;
        i = i + 1;
    }
    proof {
        assert(tasks@.subrange(0, n as int) =~= tasks@);
    }
    acc
}

proof fn lemma_sum_weights_push(s: Seq<Task>, t: Task)
    ensures
        sum_weights(s.push(t)) == sum_weights(s) + t.weight,
    decreases s.len(),
{
    reveal_with_fuel(sum_weights, 2);
    if s.len() == 0 {
        assert(s.push(t)[0] == t);
        assert(s.push(t).subrange(1, 1) =~= Seq::<Task>::empty());
    } else {
        assert(s.push(t)[0] == s[0]);
        assert(s.push(t).subrange(1, s.len() as int + 1) =~= s.subrange(1, s.len() as int).push(t));
        lemma_sum_weights_push(s.subrange(1, s.len() as int), t);
    }
}

/// The numerator of the raw quota, as an exact rational over `quota_den`:
/// the squared sum of static weights (in hundredths).
pub open spec fn quota_num(tasks: Seq<Task>) -> int {
    sum_weights(tasks) * sum_weights(tasks)
}

/// The denominator of the raw quota. With `W` the weight sum in hundredths
/// and `C` the tally total, the target average per day is
/// `W / (SCALE * CYCLE)` and the current average is `C / CYCLE`; the raw
/// quota of the estimator's rule works out to `W^2 / (SCALE * CYCLE)^2` on
/// an empty tally and to `W^2 / (SCALE^2 * CYCLE * C)` otherwise.
pub open spec fn quota_den(c: int) -> int {
    if c == 0 {
        490000
    } else {
        70000 * c
    }
}

/// With `q = num / den` (rationally): `num > n * den` exactly when the
/// integer part of `q` exceeds `n`, or equals it with a nonzero remainder.
proof fn lemma_raw_quota_compare(num: int, den: int, n: int)
    requires
        num >= 0,
        den > 0,
        n >= 0,
    ensures
        num > n * den <==> (num / den > n || (num / den == n && num % den > 0)),
{
    lemma_fundamental_div_mod(num, den);
    let q = num / den;
    let r = num % den;
    assert(0 <= r < den);
    assert(num == den * q + r);
    if q > n {
        assert(den * q >= den * (n + 1)) by (nonlinear_arith)
            requires
                den > 0,
                q >= n + 1,
        ;
        assert(den * (n + 1) == n * den + den) by (nonlinear_arith);
        assert(num > n * den);
    } else if q == n {
        assert(den * q == n * den) by (nonlinear_arith)
            requires
                q == n,
        ;
        assert(num > n * den <==> r > 0);
    } else {
        assert(den * q <= den * (n - 1)) by (nonlinear_arith)
            requires
                den > 0,
                q <= n - 1,
        ;
        assert(den * (n - 1) == n * den - den) by (nonlinear_arith);
        assert(num < n * den);
    }
}

/// How many tasks to pick today. The raw quota `quota_num / quota_den` is
/// clamped to the task count when it exceeds it; otherwise its integer part
/// is kept and the fractional remainder is the probability of rounding up
/// (one uniform draw per call). An empty task list yields zero.
pub fn num_tasks_today(tasks: &Vec<Task>, last_cycle: &CountTable) -> (r: usize)
    requires
        last_cycle.wf(),
        sum_weights(tasks@) <= u64::MAX,
        total(last_cycle@) <= u64::MAX,
    ensures
        r <= tasks@.len(),
        tasks@.len() == 0 ==> r == 0,
        quota_num(tasks@) > tasks@.len() * quota_den(total(last_cycle@)) ==> r == tasks@.len(),
        quota_num(tasks@) <= tasks@.len() * quota_den(total(last_cycle@)) ==> {
            let floor = quota_num(tasks@) / quota_den(total(last_cycle@));
            r == floor || r == floor + 1
        },
        (quota_num(tasks@) <= tasks@.len() * quota_den(total(last_cycle@)) && quota_num(tasks@)
            % quota_den(total(last_cycle@)) == 0) ==> r == quota_num(tasks@) / quota_den(
            total(last_cycle@),
        ),
        quota_possible(tasks@, total(last_cycle@), r as int),
{
    let n = tasks.len();
    if n == 0 {
        proof {
            lemma_total_nonneg(last_cycle@);
            lemma_sum_weights_nonneg(tasks@);
            assert(quota_num(tasks@) == 0) by (nonlinear_arith)
                requires
                    sum_weights(tasks@) == 0,
                    quota_num(tasks@) == sum_weights(tasks@) * sum_weights(tasks@),
            ;
        }
        return 0;
    }
    let w = sum_static_weights(tasks);
    proof {
        lemma_total_nonneg(last_cycle@);
        lemma_sum_weights_nonneg(tasks@);
        assert((w as u128) * (w as u128) == quota_num(tasks@)) by (nonlinear_arith)
            requires
                w == sum_weights(tasks@),
                0 <= w <= u64::MAX,
        ;
    }
    let c = last_cycle.total_count();
    proof {
        assert((w as int) * (w as int) <= (u64::MAX as int) * (u64::MAX as int)) by (nonlinear_arith)
            requires
                0 <= w <= u64::MAX,
        ;
        assert((u64::MAX as int) * (u64::MAX as int) < u128::MAX as int);
    }
    let num: u128 = (w as u128) * (w as u128);
    let den: u128 = if c == 0 {
        490000
    } else {
        70000u128 * (c as u128)
    };
    proof {
        assert(den == quota_den(total(last_cycle@)));
        lemma_raw_quota_compare(num as int, den as int, n as int);
    }
    let floor = num / den;
    let rem = num % den;
    if floor > (n as u128) || (floor == (n as u128) && rem > 0) {
        return n;
    }
    if rem > 0 {
        let draw = rand_below(den);
        if draw < rem {
            return (floor as usize) + 1;
        }
    }
    floor as usize
}

/// Round-half-away-from-zero of the non-negative rational `num / den`
/// (`den` positive and even), the one rounding rule used for weights.
pub open spec fn round_div(num: int, den: int) -> int
    recommends
        den > 0,
        den % 2 == 0,
{
    (num + den / 2) / den
}

/// Today's sampling weight of a task with static weight `w` (in hundredths),
/// given the task's tally entry. For a task present in the tally with count
/// `c`, the base is `c` and the multiplier `w / c`, whose product is exactly
/// the static weight, so the weight is `w` rounded to a whole number of
/// units. For an absent task, base and multiplier are both twice the static
/// weight, so the weight is `(2w)^2` rounded; the denominator is squared
/// because the product carries hundredths of hundredths.
pub open spec fn dyn_weight(w: int, entry: Option<u64>) -> int {
    match entry {
        Some(_) => round_div(w, 100),
        None => round_div(4 * w * w, 10000),
    }
}

/// Recomputes each task's sampling weight for today from its static weight
/// and its entry in the completion tally, which this call consumes. Every
/// task of the list gets an entry; a task over its target is suppressed and
/// one under it is boosted.
pub fn generate_weights(tasks: &Vec<Task>, last_cycle: CountTable) -> (r: CountTable)
    requires
        last_cycle.wf(),
        distinct_ids(tasks@),
        forall|i: int| 0 <= i < tasks@.len() ==> (#[trigger] tasks@[i].weight) <= u32::MAX,
    ensures
        r.wf(),
        r@.len() == tasks@.len(),
        forall|i: int| 0 <= i < tasks@.len() ==> (#[trigger] r@[i]).0 == tasks@[i].id,
        forall|i: int| 0 <= i < tasks@.len() ==> (#[trigger] r@[i]).1 == dyn_weight(
            tasks@[i].weight as int,
            lookup(last_cycle@, tasks@[i].id),
        ),
        forall|i: int| 0 <= i < tasks@.len() ==> #[trigger] lookup(r@, tasks@[i].id) == Some(
            dyn_weight(tasks@[i].weight as int, lookup(last_cycle@, tasks@[i].id)) as u64,
        ),
{
    let n = tasks.len();
    let mut r = CountTable::new();
    let mut i: usize = 0;
    while i < n
        invariant
            n == tasks@.len(),
            0 <= i <= n,
            r.wf(),
            last_cycle.wf(),
            distinct_ids(tasks@),
            forall|j: int| 0 <= j < n ==> (#[trigger] tasks@[j].weight) <= u32::MAX,
            r@.len() == i,
            forall|j: int| 0 <= j < i ==> (#[trigger] r@[j]).0 == tasks@[j].id,
            forall|j: int| 0 <= j < i ==> (#[trigger] r@[j]).1 == dyn_weight(
                tasks@[j].weight as int,
                lookup(last_cycle@, tasks@[j].id),
            ),
        decreases n - i,
    {
        let id = tasks.as_slice()[i].id;
        let w = tasks.as_slice()[i].weight;
        let dw: u64 = match last_cycle.get(id) {
            Some(_) => (w + 50) / 100,
            None => {
                proof {
                    assert(4 * (w as int) * (w as int) + 5000 <= 4 * (u32::MAX as int) * (
                    u32::MAX as int) + 5000) by (nonlinear_arith)
                        requires
                            0 <= w <= u32::MAX,
                    ;
                    let q = 4 * (w as int) * (w as int) + 5000;
                    lemma_fundamental_div_mod(q, 10000);
                    assert(q / 10000 <= u64::MAX);
                }
                let q: u128 = 4 * (w as u128) * (w as u128) + 5000;
                (q / 10000) as u64
            },
        };
        proof {
            assert(dw == dyn_weight(tasks@[i as int].weight as int, lookup(last_cycle@, id)));
            assert forall|j: int| 0 <= j < i implies (#[trigger] r@[j]).0 != id by {
                assert(tasks@[j].id != tasks@[i as int].id);
            }
            crate::count_table::lemma_lookup_absent(r@, id);
        }
        r.insert_new(id, dw);
        i = i + 1;
    }
    proof {
        assert forall|i2: int| 0 <= i2 < tasks@.len() implies #[trigger] lookup(
            r@,
            tasks@[i2].id,
        ) == Some(
            dyn_weight(tasks@[i2].weight as int, lookup(last_cycle@, tasks@[i2].id)) as u64,
        ) by {
            crate::count_table::lemma_lookup_at_index(r@, i2);
        }
    }
    r
}

/// The sampling weight the table gives `t`: its entry, or zero when absent.
pub open spec fn weight_of(w: Seq<(u128, u64)>, t: Task) -> int {
    match lookup(w, t.id) {
        Some(v) => v as int,
        None => 0,
    }
}

/// Every task of the list has an entry in the weight table.
pub open spec fn all_weights_present(tasks: Seq<Task>, w: Seq<(u128, u64)>) -> bool {
    forall|i: int| 0 <= i < tasks.len() ==> #[trigger] lookup(w, tasks[i].id) is Some
}

/// How many tasks of the list have positive sampling weight.
pub open spec fn pos_weight_count(tasks: Seq<Task>, w: Seq<(u128, u64)>) -> int
    decreases tasks.len(),
{
    if tasks.len() == 0 {
        0
    } else {
        (if weight_of(w, tasks[0]) > 0 {
            1int
        } else {
            0int
        }) + pos_weight_count(tasks.subrange(1, tasks.len() as int), w)
    }
}

proof fn lemma_pos_count_bounds(tasks: Seq<Task>, w: Seq<(u128, u64)>)
    ensures
        0 <= pos_weight_count(tasks, w) <= tasks.len(),
    decreases tasks.len(),
{
    if tasks.len() > 0 {
        lemma_pos_count_bounds(tasks.subrange(1, tasks.len() as int), w);
    }
}

proof fn lemma_pos_count_all(tasks: Seq<Task>, w: Seq<(u128, u64)>)
    requires
        forall|j: int| 0 <= j < tasks.len() ==> weight_of(w, #[trigger] tasks[j]) > 0,
    ensures
        pos_weight_count(tasks, w) == tasks.len(),
    decreases tasks.len(),
{
    if tasks.len() > 0 {
        lemma_pos_count_all(tasks.subrange(1, tasks.len() as int), w);
    }
}

proof fn lemma_pos_count_zero(tasks: Seq<Task>, w: Seq<(u128, u64)>)
    requires
        forall|j: int| 0 <= j < tasks.len() ==> weight_of(w, #[trigger] tasks[j]) == 0,
    ensures
        pos_weight_count(tasks, w) == 0,
    decreases tasks.len(),
{
    if tasks.len() > 0 {
        lemma_pos_count_zero(tasks.subrange(1, tasks.len() as int), w);
    }
}

/// Removing one task lowers the positive-weight count by one exactly when
/// that task's weight is positive.
proof fn lemma_pos_count_remove(tasks: Seq<Task>, w: Seq<(u128, u64)>, i: int)
    requires
        0 <= i < tasks.len(),
    ensures
        pos_weight_count(tasks.remove(i), w) == pos_weight_count(tasks, w) - (if weight_of(
            w,
            tasks[i],
        ) > 0 {
            1int
        } else {
            0int
        }),
    decreases i,
{
    reveal_with_fuel(pos_weight_count, 2);
    let u = tasks.remove(i);
    tasks.remove_ensures(i);
    if i == 0 {
        assert(u =~= tasks.subrange(1, tasks.len() as int));
    } else {
        let tail = tasks.subrange(1, tasks.len() as int);
        assert(u[0] == tasks[0]);
        tail.remove_ensures(i - 1);
        assert(u.subrange(1, u.len() as int) =~= tail.remove(i - 1));
        lemma_pos_count_remove(tail, w, i - 1);
    }
}

/// Draws `num_tasks` tasks without replacement: each round builds the
/// weighted distribution over the remaining tasks, draws one and moves it to
/// the result. A task lacking a weight entry fails the draw with
/// `MissingWeightEntry`; a round over only zero weights (or over nothing)
/// fails it with `InvalidWeightDistribution`, never falling back to uniform
/// sampling. No task is returned twice, and with every entry present the
/// call succeeds exactly when the quota is covered by tasks of positive
/// weight.
#[verifier::loop_isolation(false)]
pub fn the_choosening(tasks: Vec<Task>, weights: CountTable, num_tasks: usize) -> (r: Result<
    Vec<Task>,
    SelectError,
>)
    requires
        weights.wf(),
        distinct_ids(tasks@),
    ensures
        r matches Ok(chosen) ==> {
            &&& chosen@.len() == num_tasks
            &&& distinct_ids(chosen@)
            &&& forall|i: int| 0 <= i < chosen@.len() ==> tasks@.contains(#[trigger] chosen@[i])
                && weight_of(weights@, chosen@[i]) > 0
        },
        num_tasks == 0 ==> (r matches Ok(chosen) && chosen@.len() == 0),
        num_tasks > 0 && !all_weights_present(tasks@, weights@) ==> r == Err::<
            Vec<Task>,
            SelectError,
        >(SelectError::MissingWeightEntry),
        all_weights_present(tasks@, weights@) && num_tasks <= pos_weight_count(tasks@, weights@)
            ==> r is Ok,
        all_weights_present(tasks@, weights@) && num_tasks > pos_weight_count(tasks@, weights@)
            ==> r == Err::<Vec<Task>, SelectError>(SelectError::InvalidWeightDistribution),
{
    let ghost orig = tasks@;
    let mut remaining = tasks;
    let mut chosen: Vec<Task> = Vec::new();
    let mut k: usize = 0;
    while k < num_tasks
        invariant
            0 <= k <= num_tasks,
            chosen@.len() == k,
            distinct_ids(remaining@),
            distinct_ids(chosen@),
            forall|a: int, b: int|
                0 <= a < chosen@.len() && 0 <= b < remaining@.len() ==> (#[trigger] chosen@[a]).id
                    != (#[trigger] remaining@[b]).id,
            forall|j: int| 0 <= j < remaining@.len() ==> orig.contains(#[trigger] remaining@[j]),
            forall|j: int| 0 <= j < chosen@.len() ==> orig.contains(#[trigger] chosen@[j])
                && weight_of(weights@, chosen@[j]) > 0,
            k == 0 ==> remaining@ == orig,
            k > 0 ==> all_weights_present(orig, weights@),
            all_weights_present(orig, weights@) ==> pos_weight_count(remaining@, weights@)
                == pos_weight_count(orig, weights@) - k,
        decreases num_tasks - k,
    {
        let m = remaining.len();
        let mut ws: Vec<u64> = Vec::new();
        let mut j: usize = 0;
        while j < m
            invariant
                0 <= j <= m,
                ws@.len() == j,
                forall|x: int| 0 <= x < j ==> Some(#[trigger] ws@[x]) == lookup(
                    weights@,
                    remaining@[x].id,
                ),
            decreases m - j,
        {
            match weights.get(remaining.as_slice()[j].id) {
                Some(wv) => {
                    ws.push(wv);
                },
                None => {
                    proof {
                        let jj = choose|jj: int|
                            0 <= jj < orig.len() && orig[jj] == remaining@[j as int];
                        assert(lookup(weights@, orig[jj].id) is None);
                        assert(!all_weights_present(orig, weights@));
                    }
                    return Err(SelectError::MissingWeightEntry);
                },
            }
            j = j + 1;
        }
        proof {
            if k == 0 {
                assert forall|x: int| 0 <= x < orig.len() implies #[trigger] lookup(
                    weights@,
                    orig[x].id,
                ) is Some by {
                    assert(Some(ws@[x]) == lookup(weights@, remaining@[x].id));
                }
                assert(all_weights_present(orig, weights@));
            }
        }
        match weighted_pick(&ws) {
            None => {
                proof {
                    assert forall|x: int| 0 <= x < remaining@.len() implies weight_of(
                        weights@,
                        #[trigger] remaining@[x],
                    ) == 0 by {
                        assert(Some(ws@[x]) == lookup(weights@, remaining@[x].id));
                        assert(ws@[x] == 0);
                    }
                    lemma_pos_count_zero(remaining@, weights@);
                    assert(pos_weight_count(orig, weights@) == k);
                }
                return Err(SelectError::InvalidWeightDistribution);
            },
            Some(idx) => {
                proof {
                    assert(Some(ws@[idx as int]) == lookup(weights@, remaining@[idx as int].id));
                    lemma_pos_count_remove(remaining@, weights@, idx as int);
                    remaining@.remove_ensures(idx as int);
                }
                let ghost before = remaining@;
                let picked = remaining.remove(idx);
                chosen.push(picked);
                proof {
                    assert(forall|a: int, b: int|
                        0 <= a < b < remaining@.len() ==> (#[trigger] remaining@[a]).id
                            != (#[trigger] remaining@[b]).id) by {
                        before.remove_ensures(idx as int);
                    }
                    assert forall|b: int| 0 <= b < remaining@.len() implies picked.id
                        != (#[trigger] remaining@[b]).id by {
                        before.remove_ensures(idx as int);
                    }
                    if k == 0 {
                        assert(all_weights_present(orig, weights@));
                    }
                }
                k = k + 1;
            },
        }
    }
    proof {
        if all_weights_present(orig, weights@) {
            lemma_pos_count_bounds(remaining@, weights@);
        }
    }
    Ok(chosen)
}

/// Law of the dynamic weights: a task absent from the tally is sampled with
/// weight `(2w)^2` rounded, and a task present in the tally (with any
/// count) is sampled with its static weight rounded — in particular, with
/// exactly its static weight when that weight is a whole number of units.
pub proof fn lemma_dyn_weight_law(w: int, c: u64)
    requires
        w >= 0,
    ensures
        dyn_weight(w, None) == round_div(4 * w * w, 10000),
        dyn_weight(w, Some(c)) == round_div(w, 100),
        w % 100 == 0 ==> dyn_weight(w, Some(c)) * 100 == w,
{
    if w % 100 == 0 {
        lemma_fundamental_div_mod(w, 100);
        let q = w / 100;
        vstd::arithmetic::div_mod::lemma_fundamental_div_mod_converse(w + 50, 100, q, 50);
        assert((w + 50) / 100 == q);
    }
}

/// Within the machine bound on static weights, a dynamic weight is a `u64`;
/// and a task whose static weight is at least half a unit keeps a positive
/// dynamic weight, present in the tally or not.
proof fn lemma_dyn_weight_bounds(w: int, entry: Option<u64>)
    requires
        0 <= w <= u32::MAX,
    ensures
        0 <= dyn_weight(w, entry) <= u64::MAX,
        w >= 50 ==> dyn_weight(w, entry) > 0,
{
    assert(4 * w * w <= 4 * (u32::MAX as int) * (u32::MAX as int)) by (nonlinear_arith)
        requires
            0 <= w <= u32::MAX,
    ;
    assert(w >= 50 ==> 4 * w * w >= 10000) by (nonlinear_arith);
    lemma_fundamental_div_mod(w + 50, 100);
    lemma_fundamental_div_mod(4 * w * w + 5000, 10000);
}

/// A window end and start the clock can produce: the window closes at the
/// whole-second reading `now` and opens `CYCLE` days plus the time of day
/// at `now` (under one day) earlier.
pub open spec fn clock_cut(now: int, cutoff: int) -> bool {
    now - CYCLE * 24 * 60 * 60 - 86400 < cutoff <= now - CYCLE * 24 * 60 * 60
}

/// The sampling weight a task would get from the cycle window `days`: its
/// tally entry is its occurrence count there, absent when it does not
/// occur.
pub open spec fn window_weight(days: Seq<WorkDayView>, t: Task) -> int {
    dyn_weight(
        t.weight as int,
        if occurrences(days, t.id) > 0 {
            Some(occurrences(days, t.id) as u64)
        } else {
            None
        },
    )
}

/// How many tasks keep a positive sampling weight under the window `days`.
pub open spec fn pos_window_count(tasks: Seq<Task>, days: Seq<WorkDayView>) -> int
    decreases tasks.len(),
{
    if tasks.len() == 0 {
        0
    } else {
        (if window_weight(days, tasks[0]) > 0 {
            1int
        } else {
            0int
        }) + pos_window_count(tasks.subrange(1, tasks.len() as int), days)
    }
}

proof fn lemma_pos_counts_agree(tasks: Seq<Task>, w: Seq<(u128, u64)>, days: Seq<WorkDayView>)
    requires
        forall|j: int|
            0 <= j < tasks.len() ==> weight_of(w, #[trigger] tasks[j]) == window_weight(
                days,
                tasks[j],
            ),
    ensures
        pos_weight_count(tasks, w) == pos_window_count(tasks, days),
    decreases tasks.len(),
{
    if tasks.len() > 0 {
        lemma_pos_counts_agree(tasks.subrange(1, tasks.len() as int), w, days);
    }
}

/// The quotas the estimator can return for the given tasks against a tally
/// totalling `c` completions: the task count when the raw quota exceeds it,
/// the raw quota's exact integer value when its remainder is zero, and
/// either neighbour of the raw quota otherwise.
pub open spec fn quota_possible(tasks: Seq<Task>, c: int, q: int) -> bool {
    let n = tasks.len() as int;
    if quota_num(tasks) > n * quota_den(c) {
        q == n
    } else if quota_num(tasks) % quota_den(c) == 0 {
        q == quota_num(tasks) / quota_den(c)
    } else {
        q == quota_num(tasks) / quota_den(c) || q == quota_num(tasks) / quota_den(c) + 1
    }
}

/// One full selection run on loaded inputs: tally the cycle window of the
/// history, estimate today's quota, derive the dynamic weights and draw the
/// quota of tasks. Every task gets a weight entry, so the draw can only
/// fail with `InvalidWeightDistribution` (every candidate weight zero while
/// the quota is positive). For some cycle window the clock can produce, a
/// successful draw holds a possible quota of tasks, and a failed one was
/// asked for a possible quota above the number of tasks that window leaves
/// with positive weight.
pub fn tasks_for_today(tasks: Vec<Task>, history: &Vec<WorkDay>) -> (r: Result<
    Vec<Task>,
    SelectError,
>)
    requires
        distinct_ids(tasks@),
        sum_weights(tasks@) <= u64::MAX,
        forall|i: int| 0 <= i < tasks@.len() ==> (#[trigger] tasks@[i].weight) <= u32::MAX,
        occurrence_total(history.deep_view()) <= u64::MAX,
    ensures
        r matches Ok(chosen) ==> {
            &&& chosen@.len() <= tasks@.len()
            &&& distinct_ids(chosen@)
            &&& forall|i: int| 0 <= i < chosen@.len() ==> tasks@.contains(#[trigger] chosen@[i])
        },
        r is Err ==> r == Err::<Vec<Task>, SelectError>(SelectError::InvalidWeightDistribution),
        tasks@.len() == 0 ==> (r matches Ok(chosen) && chosen@.len() == 0),
        (forall|i: int| 0 <= i < tasks@.len() ==> (#[trigger] tasks@[i].weight) >= SCALE / 2)
            ==> r is Ok,
        exists|now: int, cutoff: int|
            {
                let days = filter_window(history.deep_view(), cutoff, now);
                &&& #[trigger] clock_cut(now, cutoff)
                &&& (r matches Ok(chosen) ==> quota_possible(
                    tasks@,
                    occurrence_total(days),
                    chosen@.len() as int,
                ))
                &&& (r is Err ==> exists|q: int|
                    quota_possible(tasks@, occurrence_total(days), q) && q > pos_window_count(
                        tasks@,
                        days,
                    ))
            },
{
    let ghost hist = history.deep_view();
    let last_cycle = tasks_last_cycle(history);
    let ghost (now, cutoff) = choose|now: int, cutoff: int|
        clock_cut(now, cutoff) && tally_matches(last_cycle@, filter_window(hist, cutoff, now));
    let ghost days = filter_window(hist, cutoff, now);
    proof {
        lemma_filter_window_occurrence_total(hist, cutoff, now);
    }
    let quota = num_tasks_today(&tasks, &last_cycle);
    let ghost tally_view = last_cycle@;
    let weights = generate_weights(&tasks, last_cycle);
    let ghost tasks_view = tasks@;
    let ghost weights_view = weights@;
    let r = the_choosening(tasks, weights, quota);
    proof {
        assert(all_weights_present(tasks_view, weights_view));
        assert forall|j: int| 0 <= j < tasks_view.len() implies weight_of(
            weights_view,
            #[trigger] tasks_view[j],
        ) == window_weight(days, tasks_view[j]) by {
            lemma_dyn_weight_bounds(
                tasks_view[j].weight as int,
                lookup(tally_view, tasks_view[j].id),
            );
        }
        lemma_pos_counts_agree(tasks_view, weights_view, days);
        if quota > pos_weight_count(tasks_view, weights_view) {
            assert(r == Err::<Vec<Task>, SelectError>(SelectError::InvalidWeightDistribution));
        } else {
            assert(r is Ok);
        }
        if forall|i: int| 0 <= i < tasks_view.len() ==> (#[trigger] tasks_view[i].weight) >= SCALE
            / 2 {
            assert forall|j: int| 0 <= j < tasks_view.len() implies weight_of(
                weights_view,
                #[trigger] tasks_view[j],
            ) > 0 by {
                lemma_dyn_weight_bounds(
                    tasks_view[j].weight as int,
                    lookup(tally_view, tasks_view[j].id),
                );
            }
            lemma_pos_count_all(tasks_view, weights_view);
        }
        assert(occurrence_total(days) == total(tally_view));
        assert(quota_possible(tasks_view, occurrence_total(days), quota as int));
        if r is Err {
            assert(quota > pos_window_count(tasks_view, days));
        }
        assert(clock_cut(now, cutoff));
    }
    r
}



/// The one append of a run: a record of today's chosen tasks, dated with
/// the clock's current reading, is put at the end of the history, and
/// everything already there stays as it was.
pub fn record_run(history: &mut Vec<WorkDay>, chosen: &Vec<Task>)
    ensures
        final(history)@.len() == old(history)@.len() + 1,
        forall|i: int| 0 <= i < old(history)@.len() ==> final(history)@[i] == old(history)@[i],
        final(history)@.last().tasks@ == chosen@.map_values(|t: Task| t.id),
{
    let n = chosen.len();
    let mut ids: Vec<u128> = Vec::new();
    let mut i: usize = 0;
    proof {
        assert(ids@ =~= chosen@.subrange(0, 0).map_values(|t: Task| t.id));
    }
    while i < n
        invariant
            n == chosen@.len(),
            0 <= i <= n,
            ids@ == chosen@.subrange(0, i as int).map_values(|t: Task| t.id),
        decreases n - i,
    {
        ids.push(chosen[i].id);
        proof {
            assert(ids@ =~= chosen@.subrange(0, i + 1).map_values(|t: Task| t.id));
        }
        i = i + 1;
    }
    proof {
        assert(chosen@.subrange(0, n as int) =~= chosen@);
    }
    let today = WorkDay::new(ids);
    history.push(today);
}

} // verus!
