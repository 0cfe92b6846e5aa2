use chrono::{TimeZone, Utc};
use schedj::caldav::{
    calendar_query_report, escape_ical_text, event_ics_at, ical_datetime, parse_ical_busy_ranges,
    parse_ical_datetime, unescape_xml, unfold_ical_lines,
};
use schedj::time::Timestamp;

fn ts(y: i32, mo: u32, d: u32, h: u32, mi: u32, s: u32) -> Timestamp {
    let dt = Utc.with_ymd_and_hms(y, mo, d, h, mi, s).unwrap();
    Timestamp::from_unix(dt.timestamp(), dt.timestamp_subsec_nanos()).unwrap()
}

#[test]
fn parses_caldav_calendar_data() {
    let xml = r#"<D:multistatus xmlns:D="DAV:"><D:response><C:calendar-data xmlns:C="urn:ietf:params:xml:ns:caldav">BEGIN:VCALENDAR
BEGIN:VEVENT
DTSTART:20260101T100000Z
DTEND:20260101T103000Z
END:VEVENT
END:VCALENDAR</C:calendar-data></D:response></D:multistatus>"#;

    let busy = parse_ical_busy_ranges(xml);

    assert_eq!(busy.len(), 1);
    assert_eq!(busy[0].0, ts(2026, 1, 1, 10, 0, 0));
}

#[test]
fn parses_several_events_and_skips_unusable_ones() {
    let body = "BEGIN:VEVENT\r\nDTSTART;TZID=UTC:20260101T090000\r\nDTEND:20260101T0930\r\nEND:VEVENT\r\n\
                BEGIN:VEVENT\r\nDTSTART:20260102\r\nDTEND:20260103\r\nEND:VEVENT\r\n\
                BEGIN:VEVENT\r\nDTSTART:20260101T120000Z\r\nDTEND:20260101T110000Z\r\nEND:VEVENT\r\n\
                BEGIN:VEVENT\r\nDTSTART:garbage\r\nDTEND:20260101T110000Z\r\nEND:VEVENT\r\n\
                BEGIN:VEVENT\r\nDTSTART:2026-01-05T08:00:00+01:00\r\nDTEND:2026-01-05T09:00:00+01:00\r\nEND:VEVENT\r\n\
                BEGIN:VEVENT\r\nDTSTART:20260101T100000Z\r\n";
    let busy = parse_ical_busy_ranges(body);
    assert_eq!(
        busy,
        vec![
            (ts(2026, 1, 1, 9, 0, 0), ts(2026, 1, 1, 9, 30, 0)),
            (ts(2026, 1, 2, 0, 0, 0), ts(2026, 1, 3, 0, 0, 0)),
            (ts(2026, 1, 5, 7, 0, 0), ts(2026, 1, 5, 8, 0, 0)),
        ]
    );
}

#[test]
fn escaped_xml_and_folded_lines_are_read() {
    let body = "&lt;x&gt;BEGIN:VEVENT\nDTST\n ART:20260101T10\n\t0000Z\nDTEND:20260101T110000Z\nEND:VEVENT&amp;";
    let busy = parse_ical_busy_ranges(body);
    assert_eq!(busy, vec![(ts(2026, 1, 1, 10, 0, 0), ts(2026, 1, 1, 11, 0, 0))]);
}

#[test]
fn last_property_line_wins() {
    let body = "BEGIN:VEVENT\nDTSTART:20260101T100000Z\nDTSTART:20260101T103000Z\nDTEND:20260101T110000Z\nEND:VEVENT";
    assert_eq!(parse_ical_busy_ranges(body), vec![(ts(2026, 1, 1, 10, 30, 0), ts(2026, 1, 1, 11, 0, 0))]);
    let bad_last = "BEGIN:VEVENT\nDTSTART:20260101T100000Z\nDTSTART:nonsense\nDTEND:20260101T110000Z\nEND:VEVENT";
    assert!(parse_ical_busy_ranges(bad_last).is_empty());
}

#[test]
fn reads_ical_datetimes() {
    assert_eq!(parse_ical_datetime(" 20260101T101112Z "), Some(ts(2026, 1, 1, 10, 11, 12)));
    assert_eq!(parse_ical_datetime("20260101T1011"), Some(ts(2026, 1, 1, 10, 11, 0)));
    assert_eq!(parse_ical_datetime("20260101"), Some(ts(2026, 1, 1, 0, 0, 0)));
    assert_eq!(parse_ical_datetime("2026-01-01T10:00:00-02:00"), Some(ts(2026, 1, 1, 12, 0, 0)));
    assert_eq!(parse_ical_datetime("2026010"), None);
    assert_eq!(parse_ical_datetime(""), None);
}

#[test]
fn writes_ical_datetimes() {
    assert_eq!(ical_datetime(ts(2026, 1, 1, 9, 5, 7)), "20260101T090507Z");
}

#[test]
fn unescapes_xml_entities() {
    assert_eq!(unescape_xml("a &lt;b&gt; &quot;c&quot; &apos;d&apos; &amp;lt;"), "a <b> \"c\" 'd' &lt;");
}

#[test]
fn escapes_ical_text() {
    assert_eq!(escape_ical_text("a\\b;c,d\ne"), "a\\\\b\\;c\\,d\\ne");
}

#[test]
fn unfolds_lines() {
    let lines = unfold_ical_lines("A:1\r\n  b\r\n\tc\r\nB:2\r\rC:3\n\n D\n");
    assert_eq!(lines, vec!["A:1bc".to_string(), "B:2".to_string(), "C:3".to_string(), "D".to_string()]);
    assert!(unfold_ical_lines("").is_empty());
}

#[test]
fn builds_the_calendar_query() {
    let report = calendar_query_report(ts(2026, 1, 1, 9, 0, 0), ts(2026, 1, 2, 9, 0, 0));
    assert!(report.starts_with("<?xml version=\"1.0\" encoding=\"utf-8\" ?>\n<C:calendar-query"));
    assert!(report.contains("<C:time-range start=\"20260101T090000Z\" end=\"20260102T090000Z\" />"));
    assert!(report.ends_with("</C:calendar-query>"));
}

#[test]
fn builds_the_event() {
    let ics = event_ics_at(
        "u;1",
        ts(2026, 1, 1, 9, 0, 0),
        ts(2026, 1, 1, 9, 30, 0),
        "Call, with me",
        ts(2025, 12, 31, 8, 0, 0),
        ts(2025, 12, 31, 8, 0, 1),
    );
    assert_eq!(
        ics,
        "BEGIN:VCALENDAR\r\nVERSION:2.0\r\nPRODID:-//schedj//calendar//EN\r\nBEGIN:VEVENT\r\nUID:u\\;1\r\n\
         DTSTAMP:20251231T080000Z\r\nCREATED:20251231T080001Z\r\nDTSTART:20260101T090000Z\r\n\
         DTEND:20260101T093000Z\r\nSUMMARY:Call\\, with me\r\nEND:VEVENT\r\nEND:VCALENDAR\r\n"
    );
}

fn ical_unescape(s: &str) -> String {
    let chars: Vec<char> = s.chars().collect();
    let mut out = String::new();
    let mut i = 0;
    while i < chars.len() {
        if chars[i] == '\\' && i + 1 < chars.len() && matches!(chars[i + 1], '\\' | ';' | ',' | 'n') {
            out.push(if chars[i + 1] == 'n' { '\n' } else { chars[i + 1] });
            i += 2;
        } else {
            out.push(chars[i]);
            i += 1;
        }
    }
    out
}

#[test]
fn escaped_text_decodes_back() {
    for value in ["", "plain", "a\\b;c,d\ne", "\\n is not a newline", ";;,,\\\\\n\n"] {
        assert_eq!(ical_unescape(&escape_ical_text(value)), value);
    }
}

#[test]
fn unfolding_twice_changes_nothing() {
    for value in [
        "A:1\r\n B\r\nC:2\r\n\r\n\tD",
        " leading continuation\nX:1\r\rY:2\n",
        "",
        "\n\n \t \nZ",
    ] {
        let once = unfold_ical_lines(value);
        let twice = unfold_ical_lines(&once.join("\n"));
        assert_eq!(twice, once);
    }
}
