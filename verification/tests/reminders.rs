use chrono::Utc;
use friends_calendar::models::{CalendarEvent, ParticipationStatus, Visibility};
use friends_calendar::reminders::{
    format_reminder_message, humanise_lead, is_due, leads_for_create, normalise_leads, plan_reminders,
    rearms_reminders, reminder_notification, reminder_recipients, sweep,
    DEFAULT_LEAD_MINUTES,
};

fn now() -> i64 {
    Utc::now().timestamp()
}

fn at(now: i64, mins_from_now: i64) -> i64 {
    now + mins_from_now * 60
}

const HOUR: i32 = 60;

#[test]
fn due_inside_the_lead_window() {
    let now = now();
    assert!(is_due(now, at(now, 55), HOUR, None));
    assert!(is_due(now, at(now, 1), HOUR, None));
}

#[test]
fn not_due_before_the_window_opens() {
    let now = now();
    assert!(!is_due(now, at(now, 6 * 60), HOUR, None));
    assert!(!is_due(now, at(now, 61), HOUR, None));
}

#[test]
fn the_window_follows_the_events_own_lead_time() {
    let now = now();
    let in_two_days = at(now, 2 * 1440 - 10);

    assert!(!is_due(now, in_two_days, HOUR, None), "1h lead: far too early");
    assert!(!is_due(now, in_two_days, 1440, None), "1 day lead: still too early");
    assert!(is_due(now, in_two_days, 2880, None), "2 day lead: due");
    assert!(is_due(now, in_two_days, 10080, None), "1 week lead: due");
}

#[test]
fn a_zero_lead_never_fires() {
    let now = now();
    for mins in [1, 59, 1440, 100_000] {
        assert!(!is_due(now, at(now, mins), 0, None), "0 lead must never be due");
    }
}

#[test]
fn not_due_once_already_reminded() {
    let now = now();
    assert!(!is_due(now, at(now, 30), HOUR, Some(now - 5 * 60)));
}

#[test]
fn not_due_for_an_event_that_already_started() {
    let now = now();
    assert!(!is_due(now, at(now, -1), HOUR, None));
    assert!(!is_due(now, at(now, -180), HOUR, None));
    assert!(!is_due(now, at(now, -1), 10080, None), "a long lead doesn't resurrect a past event");
    assert!(!is_due(now, now, HOUR, None), "an event starting exactly now is not upcoming");
}

#[test]
fn humanises_each_offered_lead_time() {
    assert_eq!(humanise_lead(60), "1 hour");
    assert_eq!(humanise_lead(180), "3 hours");
    assert_eq!(humanise_lead(1440), "1 day");
    assert_eq!(humanise_lead(2880), "2 days");
    assert_eq!(humanise_lead(10080), "1 week");
    assert_eq!(humanise_lead(20160), "2 weeks");
    assert_eq!(humanise_lead(30), "30 minutes");
}

#[test]
fn the_thread_message_uses_discord_timestamps_not_server_local_time() {
    let start = Utc::now().timestamp() + 30 * 60;
    let event = CalendarEvent {
        id: 1,
        creator_id: 2,
        title: "Raclette".to_string(),
        description: None,
        start_time: start,
        end_time: start + 120 * 60,
        location: Some("Chez Lina".to_string()),
        visibility: Visibility::Friends,
        created_at: start,
        updated_at: start,
        discord_message_id: None,
        discord_channel_id: None,
        price: Some("15".to_string()),
        link: None,
    };

    let message = format_reminder_message(&event, DEFAULT_LEAD_MINUTES);
    assert!(message.contains(&format!("<t:{}:R>", event.start_time)));
    assert!(message.contains("Raclette"));
    assert!(message.contains("Chez Lina"));
}


#[test]
fn the_lead_window_closes_exactly_at_the_lead() {
    let now = 1_000_000;
    assert!(is_due(now, now + 3600, HOUR, None));
    assert!(!is_due(now, now + 3601, HOUR, None));
}

#[test]
fn odd_lead_times_fall_back_to_smaller_units() {
    assert_eq!(humanise_lead(90), "90 minutes");
    assert_eq!(humanise_lead(1500), "25 hours");
    assert_eq!(humanise_lead(4320), "3 days");
    assert_eq!(humanise_lead(0), "0 minutes");
    assert_eq!(humanise_lead(-60), "-60 minutes");
}

#[test]
fn the_in_app_reminder_names_the_event_and_lead() {
    assert_eq!(reminder_notification("Raclette", 1440), "Raclette starts in 1 day");
}

#[test]
fn the_full_thread_message() {
    let event = CalendarEvent {
        id: 1,
        creator_id: 2,
        title: "Quiz".to_string(),
        description: None,
        start_time: 1_700_000_000,
        end_time: 1_700_003_600,
        location: None,
        visibility: Visibility::Private,
        created_at: 0,
        updated_at: 0,
        discord_message_id: None,
        discord_channel_id: None,
        price: None,
        link: None,
    };
    assert_eq!(
        format_reminder_message(&event, 60),
        "⏰ **Rappel :** Quiz commence <t:1700000000:R> !\n**Heure :** <t:1700000000:t>\n\nÀ tout à l'heure ! 🎉"
    );
}

#[test]
fn set_reminders_drops_duplicates_and_non_positive_values() {
    assert_eq!(normalise_leads(&[60, 0, -5, 1440, 60, 10080, 1440]), vec![60, 1440, 10080]);
    assert!(normalise_leads(&[]).is_empty());
    assert!(normalise_leads(&[0, -1]).is_empty());
}

#[test]
fn a_new_event_without_leads_gets_the_default_reminder() {
    assert_eq!(leads_for_create(None), vec![60]);
    assert_eq!(leads_for_create(Some(&[])), Vec::<i32>::new());
    assert_eq!(leads_for_create(Some(&[1440, 60, 60, 0, -30])), vec![60, 1440]);
}

#[test]
fn only_moving_the_start_rearms_reminders() {
    assert!(rearms_reminders(1_000, Some(4_600)));
    assert!(!rearms_reminders(1_000, Some(1_000)));
    assert!(!rearms_reminders(1_000, None));
}

#[test]
fn setting_leads_keeps_what_already_went_out() {
    let existing = [(60, Some(1_000)), (180, None)];
    assert_eq!(
        plan_reminders(&existing, &[1440, 60, 60, 0, -30]),
        vec![(60, Some(1_000)), (1440, None)]
    );
    assert_eq!(plan_reminders(&existing, &[]), vec![]);
}

#[test]
fn a_second_sweep_sends_nothing() {
    let now = 1_000_000;
    let rs = vec![
        (1u128, now + 1_800, 60, None),
        (2u128, now + 7_200, 60, None),
        (3u128, now + 600, 60, Some(now - 60)),
        (4u128, now - 60, 60, None),
    ];
    assert_eq!(sweep(now, &rs), vec![1]);
    let after: Vec<_> = rs.iter().map(|e| if e.0 == 1 { (e.0, e.1, e.2, Some(now)) } else { *e }).collect();
    assert_eq!(sweep(now, &after), Vec::<u128>::new());
}

#[test]
fn reminders_go_to_yes_and_maybe_only() {
    let ps = [
        (1u128, ParticipationStatus::Accepted),
        (2, ParticipationStatus::Pending),
        (3, ParticipationStatus::Maybe),
        (4, ParticipationStatus::Declined),
    ];
    assert_eq!(reminder_recipients(&ps), vec![1, 3]);
}
