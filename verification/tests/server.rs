use friends_calendar::api::{confirm_deletion, feed_url, AppError, DeleteAccountOutcome};
use friends_calendar::calendar_feed::feed_token;
use friends_calendar::calendar::{
    announcement_channel, event_view, initial_visibility, invitees, invite_message, rsvp_message,
};
use friends_calendar::external_calendar::{normalise_feed_url, FeedUrlError};
use friends_calendar::friend_requests::{
    outcome_of, request_notification, send_request_action, SendAction, SendRequestOutcome,
};
use friends_calendar::friends::{guild_candidates, guild_members, member_page, stale_friends};
use friends_calendar::models::{
    apply_event_update, CalendarEvent, ParticipantInfo, ParticipationStatus, UpdateEventRequest, Visibility,
};
use friends_calendar::notifications::{preference_column_for, should_deliver};
use friends_calendar::origins::allowed_origins;

#[test]
fn the_configured_frontend_origin_is_allowed() {
    let origins = allowed_origins("https://calendar.example.com");
    assert!(origins.contains(&"https://calendar.example.com".to_string()));
}

#[test]
fn packaged_tauri_origins_are_allowed() {
    let origins = allowed_origins("https://calendar.example.com");
    assert!(origins.contains(&"tauri://localhost".to_string()));
    assert!(origins.contains(&"https://tauri.localhost".to_string()));
}

#[test]
fn the_dev_origin_survives_a_production_frontend_url() {
    let origins = allowed_origins("https://calendar.example.com");
    assert!(origins.contains(&"http://localhost:1420".to_string()));
}

#[test]
fn the_default_frontend_url_is_not_duplicated() {
    let origins = allowed_origins("http://localhost:1420");
    let count = origins.iter().filter(|o| *o == "http://localhost:1420").count();
    assert_eq!(count, 1, "dev origin listed {count} times");
}

#[test]
fn a_trailing_slash_in_frontend_url_is_normalised() {
    let origins = allowed_origins("https://calendar.example.com/");
    assert!(origins.contains(&"https://calendar.example.com".to_string()));
}

#[test]
fn a_malformed_frontend_url_does_not_take_the_server_down() {
    let origins = allowed_origins("https://bad\norigin");
    assert!(origins.contains(&"tauri://localhost".to_string()));
    assert_eq!(origins.len(), 3);
}

#[test]
fn webcal_is_rewritten_rather_than_refused() {
    assert_eq!(
        normalise_feed_url("webcal://example.com/a.ics").unwrap(),
        "https://example.com/a.ics"
    );
}

#[test]
fn non_http_schemes_are_refused() {
    for bad in ["file:///etc/passwd", "gopher://example.com/", "data:text/plain,hi", "not a url"] {
        assert!(normalise_feed_url(bad).is_err(), "should refuse {bad}");
    }
}


#[test]
fn feed_url_errors_say_why() {
    assert_eq!(normalise_feed_url("not a url"), Err(FeedUrlError::Invalid));
    assert_eq!(
        normalise_feed_url("gopher://example.com/"),
        Err(FeedUrlError::UnsupportedScheme("gopher".to_string()))
    );
    assert_eq!(
        FeedUrlError::UnsupportedScheme("file".to_string()).message(),
        "Only http(s) calendar links are supported, not file"
    );
    assert_eq!(normalise_feed_url("  HTTP://Example.com  ").unwrap(), "http://example.com/");
}

#[test]
fn each_gated_kind_has_its_own_preference() {
    assert_eq!(preference_column_for("event_invite"), Some("notify_event_invites"));
    assert_eq!(preference_column_for("rsvp_change"), Some("notify_rsvp_changes"));
    assert_eq!(preference_column_for("announcement"), Some("notify_announcements"));
    assert_eq!(preference_column_for("event_reminder"), Some("notify_event_reminders"));
    assert_eq!(preference_column_for("friend_request"), None);
    assert!(should_deliver("friend_request", None));
    assert!(!should_deliver("event_invite", Some(false)));
    assert!(!should_deliver("event_invite", None));
    assert!(should_deliver("event_invite", Some(true)));
}

#[test]
fn errors_answer_with_their_status() {
    assert_eq!(AppError::NotFound.status_code(), 404);
    assert_eq!(AppError::NotFound.message(), "Not found");
    assert_eq!(AppError::Unauthorized.status_code(), 401);
    assert_eq!(AppError::DatabaseError("boom".to_string()).status_code(), 500);
    assert_eq!(AppError::ExternalApiError("x".to_string()).status_code(), 502);
    assert_eq!(AppError::OAuth2Error("bad".to_string()).message(), "bad");
}

#[test]
fn deleting_an_account_needs_its_own_username() {
    assert_eq!(confirm_deletion("lina", "lina"), DeleteAccountOutcome::Deleted);
    assert_eq!(confirm_deletion("lina", "Lina"), DeleteAccountOutcome::ConfirmationMismatch);
    assert_eq!(feed_url("https://api.example", "abc").url, "https://api.example/calendar/abc.ics");
}

#[test]
fn a_friend_request_is_decided_in_order() {
    assert_eq!(send_request_action(1, None, false, None, None), SendAction::Refuse(SendRequestOutcome::UserNotFound));
    assert_eq!(send_request_action(1, Some(1), false, None, None), SendAction::Refuse(SendRequestOutcome::CannotRequestSelf));
    assert_eq!(send_request_action(1, Some(2), true, Some(9), None), SendAction::Refuse(SendRequestOutcome::AlreadyFriends));
    assert_eq!(send_request_action(1, Some(2), false, Some(9), Some((5, true))), SendAction::AcceptReverse(9));
    assert_eq!(send_request_action(1, Some(2), false, None, Some((5, true))), SendAction::Refuse(SendRequestOutcome::AlreadyPending));
    assert_eq!(send_request_action(1, Some(2), false, None, Some((5, false))), SendAction::Reopen(5));
    assert_eq!(send_request_action(1, Some(2), false, None, None), SendAction::Create);
    assert_eq!(outcome_of(SendAction::AcceptReverse(9)), SendRequestOutcome::AutoAccepted);
    assert_eq!(outcome_of(SendAction::Reopen(5)), SendRequestOutcome::Sent);
}

#[test]
fn a_friend_sync_drops_only_the_unconfirmed() {
    assert_eq!(stale_friends(&[1, 2, 3], &[2]), vec![1, 3]);
    assert_eq!(guild_members(&[4, 5], 9), vec![4, 5, 9]);
    assert_eq!(
        guild_candidates(&["a".to_string(), "me".to_string(), "b".to_string()], "me"),
        vec!["a".to_string(), "b".to_string()]
    );
    let page = vec![Some(("1".to_string(), false)), None, Some(("2".to_string(), true))];
    assert_eq!(member_page(&page, 3), (vec!["1".to_string()], Some("2".to_string())));
    assert_eq!(member_page(&page, 4), (vec!["1".to_string()], None));
}

fn sample_event() -> CalendarEvent {
    CalendarEvent {
        id: 1,
        creator_id: 10,
        title: "Old".to_string(),
        description: Some("d".to_string()),
        start_time: 100,
        end_time: 200,
        location: None,
        visibility: Visibility::Private,
        created_at: 1,
        updated_at: 2,
        discord_message_id: None,
        discord_channel_id: None,
        price: None,
        link: None,
    }
}

#[test]
fn an_update_changes_only_what_it_names() {
    let mut e = sample_event();
    apply_event_update(
        &mut e,
        UpdateEventRequest {
            title: Some("New".to_string()),
            description: None,
            start_time: None,
            end_time: Some(300),
            location: Some("Here".to_string()),
            visibility: None,
            price: None,
            link: None,
        },
    );
    assert_eq!(e.title, "New");
    assert_eq!(e.description, Some("d".to_string()));
    assert_eq!(e.start_time, 100);
    assert_eq!(e.end_time, 300);
    assert_eq!(e.location, Some("Here".to_string()));
    assert_eq!(e.visibility, Visibility::Private);
}

#[test]
fn events_invite_everyone_but_their_creator() {
    assert_eq!(invitees(10, &[3, 10, 4]), vec![3, 4]);
    assert_eq!(initial_visibility(Some(Visibility::Private), Some(Visibility::Public)), Visibility::Private);
    assert_eq!(initial_visibility(None, Some(Visibility::Public)), Visibility::Public);
    assert_eq!(initial_visibility(None, None), Visibility::Private);
    assert_eq!(Visibility::default(), Visibility::Private);
    assert_eq!(invite_message("lina", "Quiz"), "lina invited you to Quiz");
    assert_eq!(rsvp_message(10, 10, "lina", ParticipationStatus::Accepted, "Quiz"), None);
    assert_eq!(
        rsvp_message(10, 11, "sam", ParticipationStatus::Declined, "Quiz"),
        Some("sam can't make it to your event Quiz".to_string())
    );
    assert_eq!(announcement_channel(Some("123"), Some(9)), Some(123));
    assert_eq!(announcement_channel(Some("abc"), Some(9)), Some(9));
    assert_eq!(announcement_channel(None, None), None);
}

#[test]
fn an_event_view_knows_the_callers_answer() {
    let p = |user_id: u128, status| ParticipantInfo {
        user_id,
        discord_id: "d".to_string(),
        username: "u".to_string(),
        avatar_url: None,
        status,
        responded_at: None,
    };
    let v = event_view(sample_event(), vec![p(10, ParticipationStatus::Accepted), p(11, ParticipationStatus::Maybe)], 11);
    assert!(!v.is_creator);
    assert_eq!(v.my_status, Some(ParticipationStatus::Maybe));
    assert!(v.is_participant);
    let e = sample_event();
    assert_eq!(
        (v.event.id, v.event.title.as_str(), v.event.start_time, v.event.end_time, v.event.location.as_deref()),
        (e.id, e.title.as_str(), e.start_time, e.end_time, e.location.as_deref())
    );
    let w = event_view(sample_event(), vec![], 10);
    assert!(w.is_creator);
    assert_eq!(w.my_status, None);
    assert!(!w.is_participant);
}

#[test]
fn a_feed_link_names_its_token_again() {
    let link = feed_url("https://api.example.com", "0a1b2c");
    assert_eq!(link.url, "https://api.example.com/calendar/0a1b2c.ics");
    let segment = link.url.rsplit('/').next().unwrap();
    assert_eq!(feed_token(segment), "0a1b2c");
    assert_eq!(feed_token("0a1b2c"), "0a1b2c");
    assert_eq!(feed_token(".ics"), "");
}

#[test]
fn the_recipient_is_told_who_asked() {
    assert_eq!(request_notification("alice"), "alice sent you a friend request");
}
