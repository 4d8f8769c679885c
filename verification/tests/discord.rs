use friends_calendar::calendar::{announce_step, AnnounceStep};
use chrono::Utc;
use friends_calendar::discord::{
    check_guild_id, guild_reply, icon_url_for, is_attendance_emoji, next_reactor_page, split_title, thread_name,
    url_encode,
    AdoptError, RegisterError,
};
use friends_calendar::discord_announcement::format_event_message;
use friends_calendar::models::{CalendarEvent, LinkedServerInfo, User, Visibility};

fn event(title: &str) -> CalendarEvent {
    let now = Utc::now().timestamp();
    CalendarEvent {
        id: 7,
        creator_id: 8,
        title: title.to_string(),
        description: None,
        start_time: now + 2 * 86400,
        end_time: now + 2 * 86400 + 2 * 3600,
        location: Some("Chez Lina".to_string()),
        visibility: Visibility::Friends,
        created_at: now,
        updated_at: now,
        discord_message_id: None,
        discord_channel_id: None,
        price: Some("15".to_string()),
        link: None,
    }
}

fn full_event() -> CalendarEvent {
    let mut e = event("EsdeeKid");
    e.location = Some("L'Olympia".into());
    e.price = Some("59e20 fosse".into());
    e.link = Some("https://www.ticketmaster.fr/x?utm=1".into());
    e.description = Some("OKAY".into());
    e
}

#[test]
fn opens_with_a_heading_not_an_underline() {
    let message = format_event_message(&full_event());
    assert!(message.starts_with("@everyone\n## Proposition d'activité :\n"));
    assert!(!message.contains("__"));
}

#[test]
fn each_field_is_a_quoted_line_with_the_value_emphasised() {
    let message = format_event_message(&full_event());
    assert!(message.contains("> Activité : **EsdeeKid**"));
    assert!(message.contains("> Lieu : **L'Olympia**"));
    assert!(message.contains("> Prix : **59e20 fosse**"));
    assert!(!message.contains("**Activité :**"));
}

#[test]
fn the_date_is_a_discord_timestamp_so_each_reader_sees_their_own_zone() {
    let message = format_event_message(&full_event());
    assert!(message.contains("> Date : **<t:"));
    assert!(message.contains(":F>**"));
}

#[test]
fn the_link_stays_masked_and_unbolded() {
    let message = format_event_message(&full_event());
    assert!(message.contains("> Lien : [OKAY](https://www.ticketmaster.fr/x?utm=1)"));
    assert!(!message.contains("**[OKAY]"));
}

#[test]
fn a_link_with_no_description_gets_a_default_label() {
    let mut e = full_event();
    e.description = None;
    assert!(format_event_message(&e).contains("> Lien : [Informations]("));
}

#[test]
fn the_link_line_is_omitted_entirely_when_there_is_no_link() {
    let mut e = full_event();
    e.link = None;
    assert!(!format_event_message(&e).contains("Lien"));
}

#[test]
fn missing_location_and_price_still_say_so() {
    let mut e = full_event();
    e.location = None;
    e.price = None;
    let message = format_event_message(&e);
    assert!(message.contains("> Lieu : **Non spécifié**"));
    assert!(message.contains("> Prix : **À définir**"));
}

#[test]
fn closes_with_the_rsvp_instruction() {
    assert!(format_event_message(&full_event()).ends_with("\n\n**Réagissez avec ✅ pour participer !**"));
}

#[test]
fn split_title_uses_first_line_when_multiline() {
    let (title, body) = split_title("Game night!\nBring snacks, starts at 7pm.");
    assert_eq!(title.as_deref(), Some("Game night!"));
    assert_eq!(body, "Bring snacks, starts at 7pm.");
}

#[test]
fn split_title_has_no_title_for_single_line_content() {
    let (title, body) = split_title("Just a one-liner");
    assert!(title.is_none());
    assert_eq!(body, "Just a one-liner");
}

#[test]
fn only_check_marks_count_as_attendance() {
    assert!(is_attendance_emoji(Some("✅")));
    assert!(is_attendance_emoji(Some("☑️")));
    assert!(!is_attendance_emoji(Some("👍")));
    assert!(!is_attendance_emoji(Some("❌")));
}

#[test]
fn build_icon_url_formats_the_cdn_url() {
    assert_eq!(
        LinkedServerInfo::build_icon_url("g1", Some("abc123")),
        Some("https://cdn.discordapp.com/icons/g1/abc123.png".to_string())
    );
}

#[test]
fn build_icon_url_is_none_without_a_hash() {
    assert_eq!(LinkedServerInfo::build_icon_url("g1", None), None);
}


#[test]
fn a_blank_first_line_is_no_title() {
    let (title, body) = split_title("   \n  Body text  ");
    assert!(title.is_none());
    assert_eq!(body, "Body text");
    let (title, body) = split_title("  Title  \n\n body \n");
    assert_eq!(title.as_deref(), Some("Title"));
    assert_eq!(body, "body");
}

#[test]
fn every_byte_is_percent_encoded_in_upper_case() {
    assert_eq!(url_encode("✅"), "%E2%9C%85");
    assert_eq!(url_encode("a b"), "%61%20%62");
    assert_eq!(url_encode(""), "");
}

#[test]
fn avatars_and_icons_live_on_the_cdn() {
    assert_eq!(
        User::build_avatar_url("42", &Some("hash".to_string())),
        Some("https://cdn.discordapp.com/avatars/42/hash.png".to_string())
    );
    assert_eq!(User::build_avatar_url("42", &None), None);
    assert_eq!(
        icon_url_for("99", Some("i")),
        Some("https://cdn.discordapp.com/icons/99/i.png".to_string())
    );
}

#[test]
fn a_server_id_must_be_digits() {
    assert_eq!(check_guild_id("  123456789012345678 "), Ok("123456789012345678".to_string()));
    assert_eq!(check_guild_id(""), Err(RegisterError::NotASnowflake));
    assert_eq!(check_guild_id("https://discord.gg/abc"), Err(RegisterError::NotASnowflake));
    assert_eq!(check_guild_id("#123"), Err(RegisterError::NotASnowflake));
}

#[test]
fn registration_and_adoption_errors_read_as_sentences() {
    assert_eq!(
        RegisterError::Unreachable("HTTP 500".to_string()).message(),
        "Couldn't reach Discord: HTTP 500"
    );
    assert_eq!(AdoptError::UnknownPost.message(), "No such announcement");
}

#[test]
fn a_short_reaction_page_is_the_last() {
    let full: Vec<String> = (0..100).map(|i| format!("u{i}")).collect();
    assert_eq!(next_reactor_page(&full), Some("u99".to_string()));
    assert_eq!(next_reactor_page(&full[..99]), None);
    assert_eq!(next_reactor_page(&[]), None);
}

#[test]
fn a_thread_is_named_after_the_title() {
    assert_eq!(thread_name("Raclette"), "Raclette");
    assert_eq!(thread_name(&"é".repeat(120)), "é".repeat(90));
    assert_eq!(thread_name("   "), "Thread");
    assert_eq!(thread_name(""), "Thread");
}

#[test]
fn each_selected_server_is_announced_in_its_own_channel() {
    assert_eq!(announce_step(None, Some("42"), Some(7)), AnnounceStep::UnknownServer);
    assert_eq!(announce_step(Some("1"), Some("42"), Some(7)), AnnounceStep::Publish("42".to_string()));
    assert_eq!(announce_step(Some("1"), Some("nope"), Some(7)), AnnounceStep::Publish("7".to_string()));
    assert_eq!(announce_step(Some("1"), None, None), AnnounceStep::NoChannel);
}

#[test]
fn a_server_the_bot_is_not_in_reads_the_same_as_no_server() {
    assert_eq!(guild_reply(404, "404 Not Found"), Err(RegisterError::BotNotInServer));
    assert_eq!(guild_reply(403, "403 Forbidden"), Err(RegisterError::BotNotInServer));
    assert_eq!(
        guild_reply(500, "500 Internal Server Error"),
        Err(RegisterError::Unreachable("HTTP 500 Internal Server Error".to_string()))
    );
    assert_eq!(guild_reply(200, "200 OK"), Ok(()));
}
