use chrono::{Datelike, TimeZone, Utc, Weekday};
use friends_calendar::ics::lines::unfold;
use friends_calendar::ics::property::split_property;
use friends_calendar::ics::scan::{busy_intervals, BusyInterval};
use friends_calendar::ics::values::IcsError;

fn at(y: i32, m: u32, d: u32, h: u32) -> i64 {
    Utc.with_ymd_and_hms(y, m, d, h, 0, 0).unwrap().timestamp()
}

/// Wraps VEVENT bodies in a calendar, with CRLF like a real export.
fn cal(body: &str) -> String {
    format!("BEGIN:VCALENDAR\r\n{body}\r\nEND:VCALENDAR\r\n")
        .replace('\n', "\r\n")
        .replace("\r\r\n", "\r\n")
}

fn parse(body: &str) -> Vec<BusyInterval> {
    busy_intervals(&cal(body), at(2026, 3, 1, 0), at(2026, 4, 1, 0), false).unwrap()
}

fn weekday_of(t: i64) -> Weekday {
    chrono::DateTime::from_timestamp(t, 0).unwrap().weekday()
}

#[test]
fn a_plain_utc_event_becomes_one_interval() {
    let out = parse("BEGIN:VEVENT\nDTSTART:20260302T090000Z\nDTEND:20260302T100000Z\nEND:VEVENT");

    assert_eq!(
        out,
        vec![BusyInterval {
            start: at(2026, 3, 2, 9),
            end: at(2026, 3, 2, 10)
        }]
    );
}

#[test]
fn a_tzid_local_time_is_converted_to_utc() {
    let out = parse(
        "BEGIN:VEVENT\nDTSTART;TZID=Europe/Paris:20260302T090000\nDTEND;TZID=Europe/Paris:20260302T100000\nEND:VEVENT",
    );

    assert_eq!(out[0].start, at(2026, 3, 2, 8));
    assert_eq!(out[0].end, at(2026, 3, 2, 9));
}

#[test]
fn a_duration_stands_in_for_a_missing_dtend() {
    let out = parse("BEGIN:VEVENT\nDTSTART:20260302T090000Z\nDURATION:PT1H30M\nEND:VEVENT");

    assert_eq!(
        out[0].end,
        Utc.with_ymd_and_hms(2026, 3, 2, 10, 30, 0).unwrap().timestamp()
    );
}

#[test]
fn a_folded_line_is_rejoined_before_parsing() {
    let folded = "BEGIN:VCALENDAR\r\nBEGIN:VEVENT\r\nDTSTART:2026030\r\n 2T090000Z\r\nDTEND:20260302T100000Z\r\nEND:VEVENT\r\nEND:VCALENDAR\r\n";

    let out = busy_intervals(folded, at(2026, 3, 1, 0), at(2026, 4, 1, 0), false).unwrap();

    assert_eq!(out.len(), 1);
    assert_eq!(out[0].start, at(2026, 3, 2, 9));
}

#[test]
fn a_weekly_rule_expands_across_the_window() {
    let out = parse(
        "BEGIN:VEVENT\nDTSTART:20260302T090000Z\nDTEND:20260302T093000Z\nRRULE:FREQ=WEEKLY\nEND:VEVENT",
    );

    assert_eq!(out.len(), 5);
    assert_eq!(out[0].start, at(2026, 3, 2, 9));
    assert_eq!(out[4].start, at(2026, 3, 30, 9));
}

#[test]
fn byday_expands_several_days_a_week() {
    let out = parse(
        "BEGIN:VEVENT\nDTSTART:20260302T090000Z\nDTEND:20260302T093000Z\nRRULE:FREQ=WEEKLY;BYDAY=MO,WE\nEND:VEVENT",
    );

    assert_eq!(out.len(), 9);
    assert!(out
        .iter()
        .all(|i| matches!(weekday_of(i.start), Weekday::Mon | Weekday::Wed)));
}

#[test]
fn count_and_until_both_stop_a_rule() {
    let counted = parse(
        "BEGIN:VEVENT\nDTSTART:20260302T090000Z\nDTEND:20260302T093000Z\nRRULE:FREQ=DAILY;COUNT=3\nEND:VEVENT",
    );
    assert_eq!(counted.len(), 3);

    let bounded = parse(
        "BEGIN:VEVENT\nDTSTART:20260302T090000Z\nDTEND:20260302T093000Z\nRRULE:FREQ=DAILY;UNTIL=20260304T235959Z\nEND:VEVENT",
    );
    assert_eq!(bounded.len(), 3);
}

#[test]
fn interval_skips_occurrences() {
    let out = parse(
        "BEGIN:VEVENT\nDTSTART:20260302T090000Z\nDTEND:20260302T093000Z\nRRULE:FREQ=DAILY;INTERVAL=7;COUNT=3\nEND:VEVENT",
    );

    assert_eq!(out.len(), 3);
    assert_eq!(out[1].start, at(2026, 3, 9, 9));
}

#[test]
fn an_endless_rule_is_bounded_by_the_window() {
    let out = parse(
        "BEGIN:VEVENT\nDTSTART:20260302T090000Z\nDTEND:20260302T093000Z\nRRULE:FREQ=DAILY\nEND:VEVENT",
    );

    assert_eq!(out.len(), 30, "2nd to 31st of March inclusive");
}

#[test]
fn an_exdate_removes_that_occurrence() {
    let out = parse(
        "BEGIN:VEVENT\nDTSTART:20260302T090000Z\nDTEND:20260302T093000Z\nRRULE:FREQ=WEEKLY\nEXDATE:20260309T090000Z\nEND:VEVENT",
    );

    assert_eq!(out.len(), 4);
    assert!(!out.iter().any(|i| i.start == at(2026, 3, 9, 9)));
}

#[test]
fn a_cancelled_event_does_not_block() {
    let out = parse(
        "BEGIN:VEVENT\nDTSTART:20260302T090000Z\nDTEND:20260302T100000Z\nSTATUS:CANCELLED\nEND:VEVENT",
    );

    assert!(out.is_empty());
}

#[test]
fn a_transparent_event_does_not_block() {
    let out = parse(
        "BEGIN:VEVENT\nDTSTART:20260302T090000Z\nDTEND:20260302T100000Z\nTRANSP:TRANSPARENT\nEND:VEVENT",
    );

    assert!(out.is_empty());
}

#[test]
fn all_day_events_are_opt_in() {
    let body = "BEGIN:VEVENT\nDTSTART;VALUE=DATE:20260302\nDTEND;VALUE=DATE:20260303\nEND:VEVENT";

    let excluded = busy_intervals(&cal(body), at(2026, 3, 1, 0), at(2026, 4, 1, 0), false).unwrap();
    let included = busy_intervals(&cal(body), at(2026, 3, 1, 0), at(2026, 4, 1, 0), true).unwrap();

    assert!(excluded.is_empty());
    assert_eq!(included.len(), 1);
    assert_eq!(included[0].start, at(2026, 3, 2, 0));
}

#[test]
fn events_outside_the_window_are_dropped() {
    let out = parse("BEGIN:VEVENT\nDTSTART:20250101T090000Z\nDTEND:20250101T100000Z\nEND:VEVENT");

    assert!(out.is_empty());
}

#[test]
fn an_event_overlapping_the_window_edge_is_kept() {
    let out = busy_intervals(
        &cal("BEGIN:VEVENT\nDTSTART:20260228T230000Z\nDTEND:20260301T010000Z\nEND:VEVENT"),
        at(2026, 3, 1, 0),
        at(2026, 4, 1, 0),
        false,
    )
    .unwrap();

    assert_eq!(out.len(), 1);
}

#[test]
fn a_zero_length_or_backwards_event_is_skipped() {
    let zero = parse("BEGIN:VEVENT\nDTSTART:20260302T090000Z\nDTEND:20260302T090000Z\nEND:VEVENT");
    let backwards =
        parse("BEGIN:VEVENT\nDTSTART:20260302T100000Z\nDTEND:20260302T090000Z\nEND:VEVENT");

    assert!(zero.is_empty());
    assert!(backwards.is_empty());
}

#[test]
fn junk_does_not_panic_or_produce_intervals() {
    for input in [
        "",
        "not a calendar",
        "BEGIN:VEVENT",
        "BEGIN:VEVENT\r\nDTSTART:nonsense\r\nEND:VEVENT",
    ] {
        let out = busy_intervals(input, at(2026, 3, 1, 0), at(2026, 4, 1, 0), false).unwrap();
        assert!(out.is_empty(), "input: {input:?}");
    }
}

#[test]
fn no_event_content_is_ever_extracted() {
    let out = parse(
        "BEGIN:VEVENT\nSUMMARY:Oncology appointment\nDESCRIPTION:secret\nLOCATION:Hospital\nATTENDEE:mailto:a@b.c\nDTSTART:20260302T090000Z\nDTEND:20260302T100000Z\nEND:VEVENT",
    );

    assert_eq!(out.len(), 1);
    let BusyInterval { start: _, end: _ } = out[0];
}


#[test]
fn unfolding_joins_space_and_tab_continuations() {
    let lines = unfold("A:1\r\n 2\r\n\t3\nB:4\r\n");
    assert_eq!(lines, vec!["A:123".to_string(), "B:4".to_string(), String::new()]);
}

#[test]
fn a_leading_continuation_stays_a_line_of_its_own() {
    let lines = unfold(" X:1\nY:2");
    assert_eq!(lines, vec![" X:1".to_string(), "Y:2".to_string()]);
}

#[test]
fn a_property_splits_into_name_params_and_value() {
    let (name, params, value) =
        split_property("dtstart;tzid=\"Europe/Paris\";novalue;VALUE=DATE-TIME:20260301T190000").unwrap();
    assert_eq!(name, "DTSTART");
    assert_eq!(
        params,
        vec![
            ("TZID".to_string(), "Europe/Paris".to_string()),
            ("VALUE".to_string(), "DATE-TIME".to_string())
        ]
    );
    assert_eq!(value, "20260301T190000");
}

#[test]
fn a_line_without_a_colon_is_no_property() {
    assert!(split_property("DTSTART;TZID=Europe/Paris").is_none());
}

#[test]
fn an_all_day_event_without_dtend_lasts_a_day() {
    let out = busy_intervals(
        &cal("BEGIN:VEVENT\nDTSTART;VALUE=DATE:20260302\nEND:VEVENT"),
        at(2026, 3, 1, 0),
        at(2026, 4, 1, 0),
        true,
    )
    .unwrap();
    assert_eq!(out, vec![BusyInterval { start: at(2026, 3, 2, 0), end: at(2026, 3, 3, 0) }]);
}

#[test]
fn a_timed_event_without_dtend_or_duration_blocks_nothing() {
    assert!(parse("BEGIN:VEVENT\nDTSTART:20260302T090000Z\nEND:VEVENT").is_empty());
}

#[test]
fn a_monthly_rule_clamps_to_the_end_of_a_short_month() {
    let out = busy_intervals(
        &cal("BEGIN:VEVENT\nDTSTART:20260131T090000Z\nDTEND:20260131T100000Z\nRRULE:FREQ=MONTHLY;COUNT=3\nEND:VEVENT"),
        at(2026, 1, 1, 0),
        at(2026, 6, 1, 0),
        false,
    )
    .unwrap();
    let starts: Vec<i64> = out.iter().map(|i| i.start).collect();
    assert_eq!(starts, vec![at(2026, 1, 31, 9), at(2026, 2, 28, 9), at(2026, 3, 28, 9)]);
}

#[test]
fn a_duration_in_weeks_and_days_adds_up() {
    let out = busy_intervals(
        &cal("BEGIN:VEVENT\nDTSTART:20260302T090000Z\nDURATION:P1W2D\nEND:VEVENT"),
        at(2026, 3, 1, 0),
        at(2026, 4, 1, 0),
        false,
    )
    .unwrap();
    assert_eq!(out[0].end, at(2026, 3, 11, 9));
}

#[test]
fn a_duration_past_what_a_time_delta_holds_is_an_error() {
    let r = busy_intervals(
        &cal("BEGIN:VEVENT\nDTSTART:20260302T090000Z\nDURATION:P99999999999999999D\nEND:VEVENT"),
        at(2026, 3, 1, 0),
        at(2026, 4, 1, 0),
        false,
    );
    assert_eq!(r, Err(IcsError::OutOfRange));
}

#[test]
fn an_rrule_part_without_equals_drops_the_rule() {
    let out = parse(
        "BEGIN:VEVENT\nDTSTART:20260302T090000Z\nDTEND:20260302T093000Z\nRRULE:FREQ=DAILY;junk\nEND:VEVENT",
    );
    assert_eq!(out.len(), 1);
}
