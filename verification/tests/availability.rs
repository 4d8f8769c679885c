use chrono::{TimeZone, Timelike, Utc};
use friends_calendar::api::{check_best_slot_query, default_slot_minutes, BestSlotError};
use friends_calendar::availability::{
    candidate_local_hours, compute_free_users_at, compute_free_users_per_day, free_for_interval,
    rank_slots, ranking_fits, suggest, Slot,
};
use friends_calendar::time::{MAX_INSTANT, MIN_INSTANT};

fn dt(y: i32, m: u32, d: u32, h: u32) -> i64 {
    Utc.with_ymd_and_hms(y, m, d, h, 0, 0).unwrap().timestamp()
}

fn hour_of(t: i64) -> u32 {
    chrono::DateTime::from_timestamp(t, 0).unwrap().hour()
}

const ALICE: u128 = 0x1111;
const BOB: u128 = 0x2222;

#[test]
fn free_users_at_excludes_anyone_with_an_overlapping_event() {
    let busy = vec![(ALICE, dt(2026, 3, 1, 18), dt(2026, 3, 1, 20))];

    let free = compute_free_users_at(&busy, &[ALICE, BOB], dt(2026, 3, 1, 19));
    assert_eq!(free, vec![BOB]);
}

#[test]
fn free_users_at_treats_interval_end_as_exclusive() {
    let busy = vec![(ALICE, dt(2026, 3, 1, 18), dt(2026, 3, 1, 20))];

    let free = compute_free_users_at(&busy, &[ALICE], dt(2026, 3, 1, 20));
    assert_eq!(free, vec![ALICE]);

    let free = compute_free_users_at(&busy, &[ALICE], dt(2026, 3, 1, 20) - 60);
    assert!(free.is_empty());
}

#[test]
fn free_users_at_with_no_events_is_everyone() {
    let free = compute_free_users_at(&[], &[ALICE, BOB], dt(2026, 3, 1, 12));
    assert_eq!(free.len(), 2);
}

#[test]
fn free_users_per_day_marks_a_day_busy_if_any_event_overlaps_it() {
    let week_start = dt(2026, 3, 2, 0);
    let busy = vec![(ALICE, dt(2026, 3, 4, 10), dt(2026, 3, 4, 12))];

    let days = compute_free_users_per_day(&busy, &[ALICE], week_start);
    assert_eq!(days.len(), 7);
    assert_eq!(days[0].free_user_ids, vec![ALICE]);
    assert_eq!(days[1].free_user_ids, vec![ALICE]);
    assert!(days[2].free_user_ids.is_empty());
    assert_eq!(days[3].free_user_ids, vec![ALICE]);
}

#[test]
fn free_users_per_day_handles_an_event_spanning_midnight() {
    let week_start = dt(2026, 3, 2, 0);
    let busy = vec![(ALICE, dt(2026, 3, 2, 22), dt(2026, 3, 3, 2))];

    let days = compute_free_users_per_day(&busy, &[ALICE], week_start);
    assert!(days[0].free_user_ids.is_empty(), "Monday should be busy");
    assert!(days[1].free_user_ids.is_empty(), "Tuesday should be busy");
    assert_eq!(days[2].free_user_ids, vec![ALICE], "Wednesday should be free");
}

#[test]
fn free_users_per_day_with_no_users_returns_seven_empty_days() {
    let days = compute_free_users_per_day(&[], &[], dt(2026, 3, 2, 0));
    assert_eq!(days.len(), 7);
    assert!(days.iter().all(|d| d.free_user_ids.is_empty()));
}

fn mon(hour: u32) -> i64 {
    dt(2026, 3, 2, hour)
}
fn sat(hour: u32) -> i64 {
    dt(2026, 3, 7, hour)
}

fn rank(busy: &[(u128, i64, i64)], users: &[u128], from: i64, to: i64) -> Vec<Slot> {
    rank_slots(busy, users, from, to, 120, 0)
}

#[test]
fn someone_with_nothing_on_is_free_in_every_candidate_slot() {
    let slots = rank(&[], &[ALICE], mon(0), mon(23));

    assert_eq!(slots.len(), 4);
    assert!(slots.iter().all(|s| s.free_user_ids == vec![ALICE]));
}

#[test]
fn a_morning_event_does_not_block_that_evening() {
    let busy = vec![(ALICE, mon(9), mon(10))];

    let slots = rank(&busy, &[ALICE], mon(0), mon(23));

    assert!(slots.iter().all(|s| s.free_user_ids == vec![ALICE]));
}

#[test]
fn a_slot_that_runs_into_an_event_is_not_free() {
    let busy = vec![(ALICE, mon(20), mon(22))];

    let slots = rank(&busy, &[ALICE], mon(0), mon(23));

    let at = |h: u32| {
        slots
            .iter()
            .find(|s| s.start == mon(h))
            .map(|s| s.free_user_ids.len())
    };
    assert_eq!(at(18), Some(1));
    assert_eq!(at(19), Some(0));
    assert_eq!(at(20), Some(0));
}

#[test]
fn an_event_ending_exactly_when_a_slot_starts_does_not_block_it() {
    let busy = vec![(ALICE, mon(16), mon(18))];

    let slots = rank(&busy, &[ALICE], mon(0), mon(23));

    assert_eq!(
        slots.iter().find(|s| s.start == mon(18)).unwrap().free_user_ids,
        vec![ALICE]
    );
}

#[test]
fn an_all_day_event_blocks_every_slot_that_day() {
    let busy = vec![(ALICE, mon(0), mon(23))];

    let slots = rank(&busy, &[ALICE], mon(0), mon(23));

    assert!(slots.iter().all(|s| s.free_user_ids.is_empty()));
}

#[test]
fn slots_are_ranked_by_how_many_are_free() {
    let busy = vec![(BOB, mon(20), mon(22))];

    let slots = rank(&busy, &[ALICE, BOB], mon(0), mon(23));

    assert_eq!(slots[0].start, mon(18));
    assert_eq!(slots[0].free_user_ids.len(), 2);
    assert!(slots[1..].iter().all(|s| s.free_user_ids.len() == 1));
}

#[test]
fn ties_resolve_to_the_soonest_slot() {
    let slots = rank(&[], &[ALICE], mon(0), mon(23));

    assert_eq!(slots[0].start, mon(18));
    let starts: Vec<_> = slots.iter().map(|s| s.start).collect();
    let mut sorted = starts.clone();
    sorted.sort();
    assert_eq!(starts, sorted, "equal-scoring slots should be chronological");
}

#[test]
fn small_hours_are_never_suggested() {
    let slots = rank(&[], &[ALICE], mon(0), mon(23));

    assert!(slots.iter().all(|s| hour_of(s.start) >= 18));
}

#[test]
fn weekends_also_offer_afternoons() {
    let slots = rank(&[], &[ALICE], sat(0), sat(23));

    assert!(slots.iter().any(|s| hour_of(s.start) == 12));
    assert!(slots.iter().any(|s| hour_of(s.start) == 20));
}

#[test]
fn candidate_hours_follow_the_requesters_offset() {
    let slots = rank_slots(&[], &[ALICE], mon(0), mon(23), 120, 120);

    let hours: Vec<u32> = slots.iter().map(|s| hour_of(s.start)).collect();
    assert_eq!(hours, vec![16, 17, 18, 19]);
}

#[test]
fn an_empty_user_list_yields_nothing_rather_than_panicking() {
    assert!(rank(&[], &[], mon(0), mon(23)).is_empty());
}

#[test]
fn a_backwards_or_zero_window_yields_nothing() {
    assert!(rank(&[], &[ALICE], mon(23), mon(0)).is_empty());
    assert!(rank_slots(&[], &[ALICE], mon(0), mon(23), 0, 0).is_empty());
}


#[test]
fn free_for_an_interval_is_half_open_on_both_sides() {
    let busy = vec![(ALICE, mon(16), mon(18))];
    assert!(free_for_interval(&busy, ALICE, mon(18), mon(20)));
    assert!(free_for_interval(&busy, ALICE, mon(14), mon(16)));
    assert!(!free_for_interval(&busy, ALICE, mon(17), mon(19)));
    assert!(free_for_interval(&busy, BOB, mon(17), mon(19)));
}

#[test]
fn weekday_candidate_hours_are_the_evening() {
    assert_eq!(candidate_local_hours(0), vec![18, 19, 20, 21]);
    assert_eq!(candidate_local_hours(6), vec![12, 14, 16, 18, 19, 20, 21]);
}

#[test]
fn suggestions_keep_only_slots_the_caller_is_free_for() {
    let slots = vec![
        Slot { start: mon(18), free_user_ids: vec![ALICE, BOB] },
        Slot { start: mon(19), free_user_ids: vec![BOB] },
        Slot { start: mon(20), free_user_ids: vec![ALICE] },
    ];
    let out = suggest(slots, ALICE);
    assert_eq!(out.len(), 2);
    assert_eq!(out[0].start, mon(18));
    assert_eq!(out[0].free_friend_ids, vec![BOB]);
    assert_eq!(out[0].free_count, 1);
    assert_eq!(out[1].start, mon(20));
    assert_eq!(out[1].free_count, 0);
}

#[test]
fn at_most_five_suggestions_are_made() {
    let slots: Vec<Slot> = (0..8).map(|h| Slot { start: mon(h), free_user_ids: vec![ALICE] }).collect();
    assert_eq!(suggest(slots, ALICE).len(), 5);
}

#[test]
fn a_best_slot_request_is_checked_before_anything_else() {
    assert_eq!(default_slot_minutes(), 120);
    assert_eq!(check_best_slot_query(mon(1), mon(1), 60), Err(BestSlotError::EmptyWindow));
    assert_eq!(check_best_slot_query(mon(1), mon(2), 0), Err(BestSlotError::NonPositiveDuration));
    assert_eq!(check_best_slot_query(mon(1), mon(2), 60), Ok(()));
    assert_eq!(BestSlotError::EmptyWindow.message(), "`to` must be after `from`");
}

#[test]
fn a_window_at_the_start_of_time_is_still_ranked() {
    let from = MIN_INSTANT + 10;
    let to = from + 7 * 86_400;
    assert!(ranking_fits(from, to, 60, 0));
    let slots = rank_slots(&[], &[1], from, to, 60, 0);
    assert!(!slots.is_empty());
    // Too far from the epoch to be truncated: the hours step from `from`.
    assert!(slots.iter().all(|s| (s.start - from) % 3600 == 0 && s.start < to));
}

#[test]
fn a_ranking_that_would_overflow_is_recognised() {
    // Read at UTC+2, the last hours of the range would be past its end.
    assert!(!ranking_fits(MAX_INSTANT - 7200, MAX_INSTANT, 60, 120));
    assert!(ranking_fits(MAX_INSTANT - 7200, MAX_INSTANT, 60, 0));
    // An offset too large for a `TimeDelta`.
    assert!(!ranking_fits(dt(2026, 3, 2, 0), dt(2026, 3, 3, 0), 60, 153_722_867_280_913));
    assert!(ranking_fits(dt(2026, 3, 2, 0), dt(2026, 3, 3, 0), 60, 60));
}
