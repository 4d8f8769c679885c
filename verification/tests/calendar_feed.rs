use chrono::{TimeZone, Utc};
use friends_calendar::calendar_feed::{escape_text, fold, generate_token, hex_token, render};
use friends_calendar::ics::lines::unfold;
use friends_calendar::models::{CalendarEvent, EventWithParticipants, Visibility};

fn an_event(title: &str) -> EventWithParticipants {
    EventWithParticipants {
        event: CalendarEvent {
            id: 0,
            creator_id: 0,
            title: title.to_string(),
            description: None,
            start_time: Utc.with_ymd_and_hms(2026, 3, 1, 19, 0, 0).unwrap().timestamp(),
            end_time: Utc.with_ymd_and_hms(2026, 3, 1, 22, 0, 0).unwrap().timestamp(),
            location: None,
            visibility: Visibility::Friends,
            created_at: Utc.with_ymd_and_hms(2026, 2, 1, 0, 0, 0).unwrap().timestamp(),
            updated_at: Utc.with_ymd_and_hms(2026, 2, 2, 0, 0, 0).unwrap().timestamp(),
            discord_message_id: None,
            discord_channel_id: None,
            price: None,
            link: None,
        },
        participants: vec![],
        is_creator: true,
        my_status: None,
        is_participant: true,
    }
}

#[test]
fn commas_semicolons_and_backslashes_are_escaped() {
    assert_eq!(escape_text("Drinks, then food"), "Drinks\\, then food");
    assert_eq!(escape_text("a;b"), "a\\;b");
    assert_eq!(escape_text("a\\b"), "a\\\\b");
}

#[test]
fn newlines_become_literal_backslash_n() {
    assert_eq!(escape_text("one\ntwo"), "one\\ntwo");
    assert_eq!(escape_text("one\r\ntwo"), "one\\ntwo");
}

#[test]
fn a_short_line_is_left_alone() {
    assert_eq!(fold("SUMMARY:short"), "SUMMARY:short");
}

#[test]
fn a_long_line_is_folded_at_75_octets_with_a_leading_space() {
    let line = format!("DESCRIPTION:{}", "x".repeat(200));
    let folded = fold(&line);

    let parts: Vec<&str> = folded.split("\r\n").collect();
    assert!(parts.len() > 1, "a 212-octet line must fold");
    assert_eq!(parts[0].len(), 75);
    for continuation in &parts[1..] {
        assert!(continuation.starts_with(' '), "continuations need a space");
        assert!(continuation.len() <= 75);
    }
    assert_eq!(folded.replace("\r\n ", ""), line);
}

#[test]
fn folding_never_splits_a_multibyte_character() {
    let line = format!("SUMMARY:{}", "é".repeat(80));

    let folded = fold(&line);

    assert_eq!(folded.replace("\r\n ", ""), line);
    for part in folded.split("\r\n") {
        assert!(std::str::from_utf8(part.as_bytes()).is_ok());
    }
}

#[test]
fn every_line_ends_crlf() {
    let out = render(&[an_event("Raclette")], "https://app.example");

    assert!(out.starts_with("BEGIN:VCALENDAR\r\n"));
    assert!(out.ends_with("END:VCALENDAR\r\n"));
    assert!(!out.replace("\r\n", "").contains('\n'));
}

#[test]
fn times_are_utc_with_a_trailing_z() {
    let out = render(&[an_event("Raclette")], "https://app.example");

    assert!(out.contains("DTSTART:20260301T190000Z\r\n"));
    assert!(out.contains("DTEND:20260301T220000Z\r\n"));
}

#[test]
fn the_uid_is_stable_across_renders() {
    let first = render(&[an_event("Raclette")], "https://app.example");
    let second = render(&[an_event("Raclette")], "https://app.example");

    assert_eq!(first, second);
    assert!(first.contains(&format!("UID:{}@friends-calendar", uuid::Uuid::nil())));
}

#[test]
fn an_empty_calendar_is_still_a_valid_document() {
    let out = render(&[], "https://app.example");

    assert!(out.contains("BEGIN:VCALENDAR"));
    assert!(out.contains("END:VCALENDAR"));
    assert!(!out.contains("BEGIN:VEVENT"));
}

#[test]
fn the_link_is_appended_to_the_description() {
    let mut event = an_event("Concert");
    event.event.description = Some("Doors at 19h".into());
    event.event.link = Some("https://tickets.example/x".into());

    let out = render(&[event], "https://app.example");

    assert!(out.contains("DESCRIPTION:Doors at 19h\\nhttps://tickets.example/x"));
}

#[test]
fn a_token_is_long_and_url_safe() {
    let token = generate_token();

    assert_eq!(token.len(), 64);
    assert!(token.chars().all(|c| c.is_ascii_hexdigit()));
    assert_ne!(token, generate_token());
}


#[test]
fn a_line_of_exactly_75_octets_is_not_folded() {
    let line = "x".repeat(75);
    assert_eq!(fold(&line), line);
    let longer = "x".repeat(76);
    assert_eq!(fold(&longer), format!("{}\r\n x", "x".repeat(75)));
}

#[test]
fn a_lone_carriage_return_is_escaped_too() {
    assert_eq!(escape_text("a\rb"), "a\\nb");
    assert_eq!(escape_text("a\r\r\nb"), "a\\n\\nb");
}

#[test]
fn hex_tokens_are_two_lower_case_digits_per_byte() {
    assert_eq!(hex_token(&[0x00, 0x0f, 0xab, 0xff]), "000fabff");
}

#[test]
fn the_whole_document_for_one_event() {
    let out = render(&[an_event("Raclette, fondue")], "https://app.example");
    assert_eq!(
        out,
        "BEGIN:VCALENDAR\r\nVERSION:2.0\r\nPRODID:-//Friends Calendar//EN\r\nCALSCALE:GREGORIAN\r\nMETHOD:PUBLISH\r\nX-WR-CALNAME:Friends Calendar\r\nBEGIN:VEVENT\r\nUID:00000000-0000-0000-0000-000000000000@friends-calendar\r\nDTSTAMP:20260202T000000Z\r\nDTSTART:20260301T190000Z\r\nDTEND:20260301T220000Z\r\nSUMMARY:Raclette\\, fondue\r\nURL:https://app.example/\r\nEND:VEVENT\r\nEND:VCALENDAR\r\n"
    );
}

fn unescape(s: &str) -> String {
    let mut out = String::new();
    let mut chars = s.chars().peekable();
    while let Some(c) = chars.next() {
        if c == '\\' {
            match chars.peek() {
                Some('\\') | Some(';') | Some(',') => out.push(chars.next().unwrap()),
                Some('n') => {
                    chars.next();
                    out.push('\n');
                }
                _ => out.push(c),
            }
        } else {
            out.push(c);
        }
    }
    out
}

#[test]
fn unescaping_gives_the_value_back() {
    for value in ["plain", "a,b;c\\d", "two\nlines", "\\n is not a newline", "", "é, ü; \\"] {
        let escaped = escape_text(value);
        assert!(!escaped.contains('\n') && !escaped.contains('\r'), "{escaped:?}");
        assert_eq!(unescape(&escaped), value);
    }
}

#[test]
fn unfolding_a_folded_line_gives_it_back() {
    for line in [
        "SUMMARY:short".to_string(),
        format!("DESCRIPTION:{}", "x".repeat(200)),
        format!("DESCRIPTION:{}", "é".repeat(100)),
    ] {
        assert_eq!(unfold(&fold(&line)), vec![line.clone()]);
    }
}

#[test]
fn every_physical_line_fits_and_each_event_has_one_block() {
    let mut long = an_event(&"Very long title ".repeat(20));
    long.event.description = Some("line one\nline two, with; punctuation".to_string());
    long.event.location = Some("Somewhere far away ".repeat(10));
    long.event.link = Some("https://example.com/a-long-link".to_string());
    let events = vec![an_event("Raclette"), long, an_event("BEGIN:VEVENT")];
    let doc = render(&events, "https://calendar.example.com");
    assert!(doc.starts_with("BEGIN:VCALENDAR\r\n"));
    assert!(doc.ends_with("END:VCALENDAR\r\n"));
    assert!(!doc.replace("\r\n", "").contains(['\r', '\n']));
    assert!(doc.split("\r\n").all(|l| l.len() <= 75));
    assert_eq!(doc.split("\r\n").filter(|l| *l == "BEGIN:VEVENT").count(), events.len());
    let logical = unfold(&doc);
    assert_eq!(logical.last().map(String::as_str), Some(""));
    assert_eq!(logical.iter().filter(|l| *l == "BEGIN:VEVENT").count(), events.len());
    assert!(logical.contains(&"SUMMARY:BEGIN:VEVENT".to_string()));
}

#[test]
fn the_uid_is_the_hyphenated_uuid() {
    let mut e = an_event("Raclette");
    e.event.id = 0x0123_4567_89ab_cdef_0123_4567_89ab_cdef;
    let doc = render(&[e], "https://calendar.example.com");
    assert!(doc.contains("\r\nUID:01234567-89ab-cdef-0123-456789abcdef@friends-calendar\r\n"), "{doc}");
}
