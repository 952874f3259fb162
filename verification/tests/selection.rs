use daily_tasks::{
    cycle_cutoff, filter_last_cycle, generate_weights, num_tasks_today, record_run,
    tally_completions, tasks_for_today, tasks_last_cycle, the_choosening, CountTable,
    SelectError, Task, WorkDay,
};

fn task(id: u128, weight: u64) -> Task {
    Task { id, name: format!("task {}", id), weight }
}

fn day(date: i64, tasks: Vec<u128>) -> WorkDay {
    WorkDay { date, tasks }
}

#[test]
fn count_table_increments() {
    let mut t = CountTable::new();
    assert_eq!(t.len(), 0);
    assert_eq!(t.get(5), None);
    t.increment(5);
    assert_eq!(t.get(5), Some(1));
    t.increment(5);
    assert_eq!(t.get(5), Some(2));
    t.increment(9);
    assert_eq!(t.get(9), Some(1));
    assert_eq!(t.get(7), None);
    assert_eq!(t.total_count(), 3);
    assert_eq!(t.len(), 2);
}

#[test]
fn count_table_insert_new() {
    let mut t = CountTable::new();
    t.insert_new(1, 10);
    t.insert_new(2, 0);
    assert_eq!(t.get(1), Some(10));
    assert_eq!(t.get(2), Some(0));
    assert_eq!(t.get(3), None);
    assert_eq!(t.total_count(), 10);
}

#[test]
fn cutoff_is_midnight_one_cycle_back() {
    // seven days plus the time since midnight, in seconds
    assert_eq!(cycle_cutoff(1_000_000, 0, 0, 0), 1_000_000 - 604_800);
    assert_eq!(cycle_cutoff(1_000_000, 1, 2, 3), 1_000_000 - 604_800 - 3_723);
    assert_eq!(cycle_cutoff(0, 23, 59, 59), -604_800 - 86_399);
}

#[test]
fn window_boundary_is_inclusive() {
    // entries strictly older than the cutoff or newer than now leave;
    // entries at either boundary stay
    let cutoff: i128 = 395_200;
    let now: i64 = 1_000_000;
    let history = vec![
        day(395_199, vec![1]),
        day(395_200, vec![2]),
        day(395_201, vec![3]),
        day(1_000_000, vec![4]),
        day(1_000_001, vec![5]),
    ];
    let kept = filter_last_cycle(&history, cutoff, now);
    let dates: Vec<i64> = kept.iter().map(|d| d.date).collect();
    assert_eq!(dates, vec![395_200, 395_201, 1_000_000]);
    assert_eq!(kept[0].tasks, vec![2]);
}

#[test]
fn window_of_empty_history_is_empty() {
    let kept = filter_last_cycle(&Vec::new(), 0, 1_000_000);
    assert!(kept.is_empty());
}

#[test]
fn tally_counts_each_occurrence() {
    let days = vec![day(10, vec![1, 2, 1]), day(11, vec![2]), day(12, vec![])];
    let t = tally_completions(&days);
    assert_eq!(t.get(1), Some(2));
    assert_eq!(t.get(2), Some(2));
    assert_eq!(t.total_count(), 4);
}

#[test]
fn tally_has_no_entry_for_absent_task() {
    let days = vec![day(10, vec![1, 2])];
    let t = tally_completions(&days);
    assert_eq!(t.get(99), None);
    let none = tally_completions(&Vec::new());
    assert_eq!(none.len(), 0);
    assert_eq!(none.get(1), None);
}

#[test]
fn last_cycle_uses_the_clock() {
    // a record dated this moment is inside the window; the epoch and the
    // far future are both outside it on any current clock
    let now = chrono::Local::now().timestamp();
    let history = vec![day(0, vec![7]), day(i64::MAX / 2, vec![8]), day(now, vec![9])];
    let t = tasks_last_cycle(&history);
    assert_eq!(t.get(7), None);
    assert_eq!(t.get(8), None);
    assert_eq!(t.get(9), Some(1));
}

#[test]
fn quota_of_empty_task_list_is_zero() {
    let t = CountTable::new();
    assert_eq!(num_tasks_today(&Vec::new(), &t), 0);
}

#[test]
fn quota_clamps_to_task_count() {
    // weights [7, 3.5, 3.5]: target average 2, empty tally, raw quota 4,
    // clamped to the three tasks
    let tasks = vec![task(1, 700), task(2, 350), task(3, 350)];
    let t = CountTable::new();
    assert_eq!(num_tasks_today(&tasks, &t), 3);
}

#[test]
fn quota_with_integral_raw_value_is_deterministic() {
    // one task of weight 7: raw quota is exactly 1, no fractional remainder
    let tasks = vec![task(1, 700)];
    let t = CountTable::new();
    for _ in 0..20 {
        assert_eq!(num_tasks_today(&tasks, &t), 1);
    }
}

#[test]
fn quota_never_exceeds_task_count() {
    let t = CountTable::new();
    for n in 0..6u128 {
        let tasks: Vec<Task> = (0..n).map(|i| task(i, 900)).collect();
        for _ in 0..20 {
            assert!(num_tasks_today(&tasks, &t) <= tasks.len());
        }
    }
}

#[test]
fn quota_rounds_both_ways_on_a_half_remainder() {
    // four tasks of weight 1.75 each: weight sum 7, tally total 2, so the
    // raw quota is 49 / 14 = 3.5; over many trials both 3 and 4 must occur
    let tasks = vec![task(1, 175), task(2, 175), task(3, 175), task(4, 175)];
    let days = vec![day(10, vec![1, 1])];
    let t = tally_completions(&days);
    let mut saw = [false; 5];
    for _ in 0..300 {
        let q = num_tasks_today(&tasks, &t);
        assert!(q == 3 || q == 4);
        saw[q] = true;
    }
    assert!(saw[3] && saw[4]);
}

#[test]
fn absent_task_weight_is_double_squared() {
    // weight 3.5 absent from the tally: (2 * 3.5)^2 = 49
    let tasks = vec![task(1, 350)];
    let w = generate_weights(&tasks, CountTable::new());
    assert_eq!(w.get(1), Some(49));
    // weight 7 absent: 14^2 = 196
    let w2 = generate_weights(&vec![task(2, 700)], CountTable::new());
    assert_eq!(w2.get(2), Some(196));
    // weight 1.25 absent: 2.5^2 = 6.25, rounded to 6
    let w3 = generate_weights(&vec![task(3, 125)], CountTable::new());
    assert_eq!(w3.get(3), Some(6));
}

#[test]
fn present_task_weight_rounds_to_static_weight() {
    // count equal to the static weight: base 7 times multiplier 1 gives 7
    let tasks = vec![task(1, 700)];
    let days = vec![day(10, vec![1, 1, 1, 1, 1, 1, 1])];
    let w = generate_weights(&tasks, tally_completions(&days));
    assert_eq!(w.get(1), Some(7));
    // any other count: base c times multiplier 7/c is still 7
    let days2 = vec![day(10, vec![1, 1, 1])];
    let w2 = generate_weights(&tasks, tally_completions(&days2));
    assert_eq!(w2.get(1), Some(7));
    // half units round half away from zero: 3.5 present rounds to 4
    let tasks3 = vec![task(2, 350)];
    let days3 = vec![day(10, vec![2])];
    let w3 = generate_weights(&tasks3, tally_completions(&days3));
    assert_eq!(w3.get(2), Some(4));
}

#[test]
fn sampler_returns_quota_without_duplicates() {
    let tasks: Vec<Task> = (1..=5).map(|i| task(i, 100)).collect();
    let mut w = CountTable::new();
    for i in 1..=5u128 {
        w.insert_new(i, i as u64);
    }
    for _ in 0..30 {
        let chosen = the_choosening(tasks.clone(), w.clone(), 3).unwrap();
        assert_eq!(chosen.len(), 3);
        for a in 0..chosen.len() {
            for b in (a + 1)..chosen.len() {
                assert_ne!(chosen[a].id, chosen[b].id);
            }
            assert!(tasks.iter().any(|t| t.id == chosen[a].id));
        }
    }
}

#[test]
fn sampler_fails_on_all_zero_weights() {
    let tasks = vec![task(1, 100), task(2, 100), task(3, 100)];
    let mut w = CountTable::new();
    for i in 1..=3u128 {
        w.insert_new(i, 0);
    }
    let r = the_choosening(tasks, w, 2);
    assert!(matches!(r, Err(SelectError::InvalidWeightDistribution)));
}

#[test]
fn sampler_fails_on_missing_entry() {
    let tasks = vec![task(1, 100), task(2, 100)];
    let mut w = CountTable::new();
    w.insert_new(1, 5);
    let r = the_choosening(tasks, w, 1);
    assert!(matches!(r, Err(SelectError::MissingWeightEntry)));
}

#[test]
fn sampler_fails_when_quota_outruns_positive_weights() {
    let tasks = vec![task(1, 100), task(2, 100)];
    let mut w = CountTable::new();
    w.insert_new(1, 5);
    w.insert_new(2, 0);
    let r = the_choosening(tasks, w, 2);
    assert!(matches!(r, Err(SelectError::InvalidWeightDistribution)));
    // asking for more draws than tasks exist fails the same way
    let mut w2 = CountTable::new();
    w2.insert_new(1, 5);
    let r2 = the_choosening(vec![task(1, 100)], w2, 2);
    assert!(matches!(r2, Err(SelectError::InvalidWeightDistribution)));
}

#[test]
fn sampler_with_zero_quota_draws_nothing() {
    let r = the_choosening(Vec::new(), CountTable::new(), 0).unwrap();
    assert!(r.is_empty());
}

#[test]
fn sampler_never_picks_zero_weight() {
    let tasks = vec![task(1, 100), task(2, 100), task(3, 100)];
    for _ in 0..50 {
        let mut w = CountTable::new();
        w.insert_new(1, 0);
        w.insert_new(2, 5);
        w.insert_new(3, 0);
        let chosen = the_choosening(tasks.clone(), w, 1).unwrap();
        assert_eq!(chosen.len(), 1);
        assert_eq!(chosen[0].id, 2);
    }
}

#[test]
fn work_day_keeps_its_tasks() {
    let w = WorkDay::new(vec![1, 2, 3]);
    assert_eq!(w.tasks, vec![1, 2, 3]);
}

#[test]
fn full_run_cold_start_picks_every_task() {
    // weights [7, 3.5, 3.5] and no history: quota 3 of 3, so all three
    // tasks come back, in some order
    let tasks = vec![task(1, 700), task(2, 350), task(3, 350)];
    let chosen = tasks_for_today(tasks, &Vec::new()).unwrap();
    let mut ids: Vec<u128> = chosen.iter().map(|t| t.id).collect();
    ids.sort();
    assert_eq!(ids, vec![1, 2, 3]);
}

#[test]
fn full_run_on_empty_task_list_is_empty() {
    let chosen = tasks_for_today(Vec::new(), &vec![day(5, vec![1])]).unwrap();
    assert!(chosen.is_empty());
}

#[test]
fn full_run_fails_when_every_weight_rounds_to_zero() {
    // weight 0.1 per task rounds to a zero sampling weight ((2 * 0.1)^2 is
    // 0.04), and 4901 such tasks push the raw quota over the task count, so
    // a positive quota meets an all-zero distribution
    let tasks: Vec<Task> = (0..4901).map(|i| task(i, 10)).collect();
    let r = tasks_for_today(tasks, &Vec::new());
    assert!(matches!(r, Err(SelectError::InvalidWeightDistribution)));
}

#[test]
fn weight_rounding_boundaries() {
    // absent with weight 0.35: (0.7)^2 = 0.49 rounds down to 0
    let w = generate_weights(&vec![task(1, 35)], CountTable::new());
    assert_eq!(w.get(1), Some(0));
    // absent with weight 0.36: (0.72)^2 = 0.5184 rounds up to 1
    let w2 = generate_weights(&vec![task(2, 36)], CountTable::new());
    assert_eq!(w2.get(2), Some(1));
    // present with weight 0.49 rounds down to 0, with 0.50 up to 1
    let days = vec![day(10, vec![3]), day(10, vec![4])];
    let t = tally_completions(&days);
    let w3 = generate_weights(&vec![task(3, 49), task(4, 50)], t);
    assert_eq!(w3.get(3), Some(0));
    assert_eq!(w3.get(4), Some(1));
}

#[test]
fn record_run_appends_exactly_one() {
    let mut history = vec![day(5, vec![1])];
    let chosen = vec![task(2, 700), task(3, 350)];
    record_run(&mut history, &chosen);
    assert_eq!(history.len(), 2);
    assert_eq!(history[0].date, 5);
    assert_eq!(history[0].tasks, vec![1]);
    assert_eq!(history[1].tasks, vec![2, 3]);
}
