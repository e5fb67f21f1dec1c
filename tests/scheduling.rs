use shift_scheduler::helpers::{find_shift, find_shift_index, truncate_shifts};
use shift_scheduler::overrides::{apply_override, apply_overrides};
use shift_scheduler::scheduler::{generate_shifts, schedule_shifts, Schedule, ScheduleError, Shift};

const DAY: i64 = 86400;
/// 2024-01-01T00:00:00Z
const JAN1: i64 = 1704067200;

/// Midnight UTC at the start of the given day of January 2024.
fn jan(day: i64) -> i64 {
    JAN1 + (day - 1) * DAY
}

fn shift(user: &str, start: i64, end: i64) -> Shift {
    Shift::new(user.to_string(), start, end)
}

fn spans(shifts: &[Shift]) -> Vec<(String, i64, i64)> {
    shifts.iter().map(|s| (s.user().clone(), s.start_at(), s.end_at())).collect()
}

fn span(user: &str, start: i64, end: i64) -> (String, i64, i64) {
    (user.to_string(), start, end)
}

fn alice_bob() -> Schedule {
    Schedule::new(vec!["alice".to_string(), "bob".to_string()], jan(1), 7)
}

fn base() -> Vec<Shift> {
    generate_shifts(&alice_bob(), jan(22)).unwrap()
}

fn is_ordered(shifts: &[Shift]) -> bool {
    for i in 0..shifts.len() {
        if shifts[i].start_at() >= shifts[i].end_at() {
            return false;
        }
        if i + 1 < shifts.len() && shifts[i].end_at() > shifts[i + 1].start_at() {
            return false;
        }
    }
    true
}

#[test]
fn generates_three_shifts() {
    assert_eq!(
        spans(&base()),
        vec![span("alice", jan(1), jan(8)), span("bob", jan(8), jan(15)), span("alice", jan(15), jan(22))]
    );
}

#[test]
fn override_splits_a_shift() {
    let mut shifts = base();
    apply_override(shift("carol", jan(10), jan(12)), &mut shifts).unwrap();
    assert_eq!(
        spans(&shifts),
        vec![
            span("alice", jan(1), jan(8)),
            span("bob", jan(8), jan(10)),
            span("carol", jan(10), jan(12)),
            span("bob", jan(12), jan(15)),
            span("alice", jan(15), jan(22)),
        ]
    );
}

#[test]
fn override_from_jan9_to_jan16_trims_both_neighbours() {
    let mut shifts = base();
    apply_override(shift("carol", jan(9), jan(16)), &mut shifts).unwrap();
    assert_eq!(
        spans(&shifts),
        vec![
            span("alice", jan(1), jan(8)),
            span("bob", jan(8), jan(9)),
            span("carol", jan(9), jan(16)),
            span("alice", jan(16), jan(22)),
        ]
    );
}

#[test]
fn override_covering_a_whole_shift_removes_it() {
    let mut shifts = base();
    apply_override(shift("carol", jan(8), jan(16)), &mut shifts).unwrap();
    assert_eq!(
        spans(&shifts),
        vec![span("alice", jan(1), jan(8)), span("carol", jan(8), jan(16)), span("alice", jan(16), jan(22))]
    );
}

#[test]
fn truncation_window_clips_first_and_last() {
    let out = truncate_shifts(base(), &alice_bob(), jan(5), jan(12));
    assert_eq!(spans(&out), vec![span("alice", jan(5), jan(8)), span("bob", jan(8), jan(12))]);
}

#[test]
fn applying_an_override_twice_changes_nothing() {
    let mut once = base();
    apply_override(shift("carol", jan(10), jan(12)), &mut once).unwrap();
    let mut twice = base();
    apply_override(shift("carol", jan(10), jan(12)), &mut twice).unwrap();
    apply_override(shift("carol", jan(10), jan(12)), &mut twice).unwrap();
    assert_eq!(spans(&once), spans(&twice));
}

#[test]
fn later_override_wins_the_overlap() {
    let mut shifts = base();
    let overrides = vec![shift("dave", jan(9), jan(13)), shift("erin", jan(11), jan(16))];
    apply_overrides(&mut shifts, overrides).unwrap();
    assert_eq!(
        spans(&shifts),
        vec![
            span("alice", jan(1), jan(8)),
            span("bob", jan(8), jan(9)),
            span("dave", jan(9), jan(11)),
            span("erin", jan(11), jan(16)),
            span("alice", jan(16), jan(22)),
        ]
    );
    let i = find_shift_index(jan(12), &shifts).unwrap();
    assert_eq!(shifts[i].user(), "erin");
}

#[test]
fn overrides_keep_the_sequence_ordered() {
    let mut shifts = base();
    let overrides = vec![
        shift("carol", jan(10), jan(12)),
        shift("dave", jan(0), jan(3)),
        shift("erin", jan(14), jan(30)),
        shift("frank", jan(11), jan(11) + 3600),
    ];
    apply_overrides(&mut shifts, overrides).unwrap();
    assert!(is_ordered(&shifts));
    assert_eq!(
        spans(&shifts),
        vec![
            span("dave", jan(0), jan(3)),
            span("alice", jan(3), jan(8)),
            span("bob", jan(8), jan(10)),
            span("carol", jan(10), jan(11)),
            span("frank", jan(11), jan(11) + 3600),
            span("carol", jan(11) + 3600, jan(12)),
            span("bob", jan(12), jan(14)),
            span("erin", jan(14), jan(30)),
        ]
    );
}

#[test]
fn lookup_finds_the_covering_shift() {
    let shifts = base();
    assert_eq!(find_shift_index(jan(3), &shifts), Some(0));
    assert_eq!(find_shift_index(jan(10), &shifts), Some(1));
    assert_eq!(find_shift_index(jan(20), &shifts), Some(2));
    assert_eq!(find_shift_index(jan(22), &shifts), Some(2));
    assert_eq!(find_shift_index(jan(22) + 1, &shifts), None);
    assert_eq!(find_shift_index(jan(1) - 1, &shifts), None);
}

#[test]
fn lookup_at_a_handover_prefers_the_earlier_shift() {
    let shifts = base();
    assert_eq!(find_shift_index(jan(8), &shifts), Some(0));
    assert_eq!(find_shift_index(jan(15), &shifts), Some(1));
    let two = vec![shift("a", jan(1), jan(2)), shift("b", jan(2), jan(3))];
    assert_eq!(find_shift_index(jan(2), &two), Some(0));
}

#[test]
fn lookup_in_a_gap_finds_nothing() {
    let shifts = vec![shift("a", jan(1), jan(3)), shift("b", jan(5), jan(7)), shift("c", jan(9), jan(11))];
    assert_eq!(find_shift_index(jan(4), &shifts), None);
    assert_eq!(find_shift_index(jan(8), &shifts), None);
    assert_eq!(find_shift_index(jan(6), &shifts), Some(1));
    assert_eq!(find_shift_index(jan(10), &shifts), Some(2));
    assert_eq!(find_shift_index(jan(2), &[]), None);
}

#[test]
fn find_shift_returns_the_shift() {
    let shifts = base();
    assert_eq!(find_shift(jan(9), &shifts).map(|s| s.user().clone()), Some("bob".to_string()));
    assert!(find_shift(jan(30), &shifts).is_none());
}

#[test]
fn truncating_twice_changes_nothing() {
    let once = truncate_shifts(base(), &alice_bob(), jan(5), jan(12));
    let twice = truncate_shifts(truncate_shifts(base(), &alice_bob(), jan(5), jan(12)), &alice_bob(), jan(5), jan(12));
    assert_eq!(spans(&once), spans(&twice));
}

#[test]
fn empty_window_gives_nothing() {
    assert!(truncate_shifts(base(), &alice_bob(), jan(10), jan(10)).is_empty());
    assert!(truncate_shifts(base(), &alice_bob(), jan(12), jan(5)).is_empty());
}

#[test]
fn window_before_rotation_start_does_not_clip_head() {
    let shifts = vec![shift("zed", jan(0), jan(2)), shift("alice", jan(2), jan(8))];
    let out = truncate_shifts(shifts, &alice_bob(), jan(1) - 3600, jan(5));
    assert_eq!(spans(&out), vec![span("zed", jan(0), jan(2)), span("alice", jan(2), jan(5))]);
}

#[test]
fn generation_counts_whole_shifts_only() {
    let out = generate_shifts(&alice_bob(), jan(21) + DAY / 2).unwrap();
    assert_eq!(spans(&out), vec![span("alice", jan(1), jan(8)), span("bob", jan(8), jan(15))]);
    assert!(generate_shifts(&alice_bob(), jan(8) - 1).unwrap().is_empty());
    assert!(generate_shifts(&alice_bob(), jan(1)).unwrap().is_empty());
    assert!(generate_shifts(&alice_bob(), jan(1) - 30 * DAY).unwrap().is_empty());
}

#[test]
fn generation_cycles_through_users() {
    let sched = Schedule::new(vec!["a".to_string(), "b".to_string(), "c".to_string()], jan(1), 1);
    let out = generate_shifts(&sched, jan(6)).unwrap();
    let users: Vec<String> = out.iter().map(|s| s.user().clone()).collect();
    assert_eq!(users, vec!["a", "b", "c", "a", "b"]);
    assert_eq!(out[4].start_at(), jan(5));
    assert_eq!(out[4].end_at(), jan(6));
}

#[test]
fn generation_refuses_empty_user_list() {
    let sched = Schedule::new(vec![], jan(1), 7);
    assert_eq!(generate_shifts(&sched, jan(22)).unwrap_err(), ScheduleError::EmptyUserList);
    let both = Schedule::new(vec![], jan(1), 0);
    assert_eq!(generate_shifts(&both, jan(22)).unwrap_err(), ScheduleError::EmptyUserList);
}

#[test]
fn generation_refuses_non_positive_interval() {
    let zero = Schedule::new(vec!["a".to_string()], jan(1), 0);
    assert_eq!(generate_shifts(&zero, jan(22)).unwrap_err(), ScheduleError::NonPositiveInterval);
    let negative = Schedule::new(vec!["a".to_string()], jan(1), -7);
    assert_eq!(generate_shifts(&negative, jan(22)).unwrap_err(), ScheduleError::NonPositiveInterval);
}

#[test]
fn invalid_override_is_refused_and_changes_nothing() {
    let mut shifts = base();
    assert_eq!(apply_override(shift("carol", jan(12), jan(12)), &mut shifts), Err(ScheduleError::InvalidInterval));
    assert_eq!(spans(&shifts), spans(&base()));
    let overrides = vec![shift("carol", jan(10), jan(12)), shift("dave", jan(14), jan(13))];
    assert_eq!(apply_overrides(&mut shifts, overrides), Err(ScheduleError::InvalidInterval));
    assert_eq!(spans(&shifts), spans(&base()));
}

#[test]
fn override_outside_the_sequence_is_spliced_in() {
    let mut shifts = base();
    apply_override(shift("early", jan(0) - DAY, jan(0)), &mut shifts).unwrap();
    apply_override(shift("late", jan(23), jan(24)), &mut shifts).unwrap();
    assert_eq!(
        spans(&shifts),
        vec![
            span("early", jan(0) - DAY, jan(0)),
            span("alice", jan(1), jan(8)),
            span("bob", jan(8), jan(15)),
            span("alice", jan(15), jan(22)),
            span("late", jan(23), jan(24)),
        ]
    );
}

#[test]
fn override_in_a_gap_keeps_neighbours() {
    let mut shifts = vec![shift("a", jan(1), jan(3)), shift("b", jan(5), jan(7))];
    apply_override(shift("c", jan(3), jan(5)), &mut shifts).unwrap();
    assert_eq!(spans(&shifts), vec![span("a", jan(1), jan(3)), span("c", jan(3), jan(5)), span("b", jan(5), jan(7))]);
    let mut all = base();
    apply_override(shift("c", jan(0), jan(30)), &mut all).unwrap();
    assert_eq!(spans(&all), vec![span("c", jan(0), jan(30))]);
    let mut empty: Vec<Shift> = vec![];
    apply_override(shift("c", jan(2), jan(4)), &mut empty).unwrap();
    assert_eq!(spans(&empty), vec![span("c", jan(2), jan(4))]);
}

#[test]
fn schedule_runs_the_whole_pipeline() {
    let out = schedule_shifts(alice_bob(), vec![shift("carol", jan(10), jan(12))], jan(5), jan(12)).unwrap();
    assert_eq!(spans(&out), vec![span("alice", jan(5), jan(8)), span("carol", jan(10), jan(12))]);
    let full = schedule_shifts(alice_bob(), vec![shift("carol", jan(10), jan(12))], jan(1), jan(22)).unwrap();
    assert_eq!(
        spans(&full),
        vec![
            span("alice", jan(1), jan(8)),
            span("bob", jan(8), jan(10)),
            span("carol", jan(10), jan(12)),
            span("bob", jan(12), jan(15)),
            span("alice", jan(15), jan(22)),
        ]
    );
}

#[test]
fn schedule_keeps_overrides_before_rotation_start() {
    let out = schedule_shifts(alice_bob(), vec![shift("zed", jan(0) - DAY, jan(2))], jan(0), jan(22)).unwrap();
    assert_eq!(
        spans(&out),
        vec![
            span("zed", jan(0) - DAY, jan(2)),
            span("alice", jan(2), jan(8)),
            span("bob", jan(8), jan(15)),
            span("alice", jan(15), jan(22)),
        ]
    );
}

#[test]
fn schedule_reports_errors() {
    let no_users = Schedule::new(vec![], jan(1), 7);
    assert_eq!(schedule_shifts(no_users, vec![], jan(1), jan(22)).unwrap_err(), ScheduleError::EmptyUserList);
    let bad = vec![shift("carol", jan(12), jan(10))];
    assert_eq!(schedule_shifts(alice_bob(), bad, jan(1), jan(22)).unwrap_err(), ScheduleError::InvalidInterval);
}

#[test]
fn setters_refuse_inverted_shifts() {
    let mut s = shift("a", jan(1), jan(3));
    assert_eq!(s.set_start_at(jan(3)), Err(ScheduleError::InvalidInterval));
    assert_eq!(s.set_end_at(jan(0)), Err(ScheduleError::InvalidInterval));
    assert_eq!((s.start_at(), s.end_at()), (jan(1), jan(3)));
    assert!(s.set_start_at(jan(2)).is_ok());
    assert!(s.set_end_at(jan(5)).is_ok());
    assert_eq!((s.start_at(), s.end_at()), (jan(2), jan(5)));
    assert!(s.is_valid());
    assert!(!shift("b", jan(4), jan(4)).is_valid());
    assert_eq!(alice_bob().handover_start_at(), jan(1));
}
