use friends_calendar::models::ParticipationStatus;
use chrono::{DateTime, TimeZone, Utc};
use friends_calendar::digest::{digest_channel, digest_message, is_due as digest_is_due};
use friends_calendar::nudge::{
    can_nudge, check_nudge, format_nudge_message, next_nudge_at, nudge_notification, NudgeError,
};

fn at(hour: i64) -> i64 {
    Utc.with_ymd_and_hms(2026, 3, 1, 0, 0, 0).unwrap().timestamp() + hour * 3600
}

#[test]
fn a_never_nudged_event_can_be_nudged() {
    assert!(can_nudge(at(0), None));
}

#[test]
fn nudging_again_inside_the_cooldown_is_refused() {
    assert!(!can_nudge(at(1), Some(at(0))));
    assert!(!can_nudge(at(23), Some(at(0))));
}

#[test]
fn the_cooldown_boundary_is_inclusive() {
    assert!(can_nudge(at(24), Some(at(0))));
}

#[test]
fn next_nudge_at_is_the_cooldown_after_the_last_one() {
    assert_eq!(next_nudge_at(at(0)), at(24));
}

fn dt(s: &str) -> i64 {
    DateTime::parse_from_rfc3339(s).unwrap().timestamp()
}

#[test]
fn not_due_outside_monday_morning() {
    let tuesday_9am = dt("2026-03-03T09:00:00Z");
    assert!(!digest_is_due(tuesday_9am, None));

    let monday_8am = dt("2026-03-02T08:59:00Z");
    assert!(!digest_is_due(monday_8am, None));
}

#[test]
fn due_on_first_monday_morning_with_nothing_sent_yet() {
    let monday_9am = dt("2026-03-02T09:00:00Z");
    assert!(digest_is_due(monday_9am, None));
}

#[test]
fn not_due_again_within_the_same_week() {
    let monday_9am = dt("2026-03-02T09:00:00Z");
    let sent_earlier_that_morning = dt("2026-03-02T09:05:00Z");
    assert!(!digest_is_due(monday_9am, Some(sent_earlier_that_morning)));

    let following_wednesday = dt("2026-03-04T10:00:00Z");
    assert!(!digest_is_due(following_wednesday, Some(sent_earlier_that_morning)));
}

#[test]
fn due_again_the_next_monday() {
    let last_sent = dt("2026-03-02T09:05:00Z");
    let next_monday = dt("2026-03-09T09:10:00Z");
    assert!(digest_is_due(next_monday, Some(last_sent)));
}


#[test]
fn a_refused_nudge_says_when_the_next_is_allowed() {
    assert_eq!(check_nudge(None, at(5)), Err(NudgeError::NotYours));
    assert_eq!(check_nudge(Some(None), at(5)), Ok(()));
    assert_eq!(check_nudge(Some(Some(at(0))), at(5)), Err(NudgeError::TooSoon(at(24))));
    assert_eq!(check_nudge(Some(Some(at(0))), at(24)), Ok(()));
}

#[test]
fn the_nudge_messages() {
    assert_eq!(
        format_nudge_message("Quiz", 1_700_000_000, 2),
        "⏳ **Quiz** c'est <t:1700000000:R> — il manque encore 2 réponses."
    );
    assert_eq!(
        format_nudge_message("Quiz", 1_700_000_000, 1),
        "⏳ **Quiz** c'est <t:1700000000:R> — il manque encore 1 réponse."
    );
    assert_eq!(nudge_notification("Quiz"), "Still waiting on your answer for \"Quiz\"");
}

#[test]
fn the_digest_line_counts_posts() {
    assert_eq!(digest_message(1), "📬 **Weekly digest** — 1 new post this week.");
    assert_eq!(digest_message(3), "📬 **Weekly digest** — 3 new posts this week.");
}

#[test]
fn the_digest_needs_a_switch_a_channel_and_a_due_time() {
    let monday_9am = dt("2026-03-02T09:00:00Z");
    assert_eq!(digest_channel(true, Some("c1".to_string()), None, monday_9am), Some("c1".to_string()));
    assert_eq!(digest_channel(false, Some("c1".to_string()), None, monday_9am), None);
    assert_eq!(digest_channel(true, None, None, monday_9am), None);
    assert_eq!(digest_channel(true, Some("c1".to_string()), None, monday_9am + 86400), None);
}

#[test]
fn exactly_six_days_later_the_digest_is_due_again() {
    let last = dt("2026-03-02T10:00:00Z");
    assert!(digest_is_due(last + 7 * 86400, Some(last)));
    let monday_9 = dt("2026-03-09T09:00:00Z");
    assert!(digest_is_due(monday_9, Some(monday_9 - 6 * 86400)));
    assert!(!digest_is_due(monday_9, Some(monday_9 - 6 * 86400 + 1)));
}

#[test]
fn a_nudge_chases_only_those_who_never_answered() {
    let ps = [
        (1u128, ParticipationStatus::Accepted),
        (2, ParticipationStatus::Pending),
        (3, ParticipationStatus::Maybe),
        (4, ParticipationStatus::Pending),
        (5, ParticipationStatus::Declined),
    ];
    assert_eq!(friends_calendar::nudge::nudge_recipients(&ps), vec![2, 4]);
}
