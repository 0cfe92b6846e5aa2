use chrono::{DateTime, NaiveDateTime, TimeZone, Utc};
use schedj::caldav::{self, CalDavProvider};
use schedj::gcal::{self, CalendarBusy, FreeBusyResponse, GoogleBody, GoogleCalendarProvider};
use schedj::http::{Auth, Event, HttpMethod, Step};
use schedj::msft::{
    self, GetScheduleResponse, GraphBody, MicrosoftCalendarProvider, ResponseDateTime, Schedule, ScheduleItem,
};
use schedj::slots::BookingRequest;
use schedj::time::Timestamp;

fn ts_of(dt: DateTime<Utc>) -> Timestamp {
    Timestamp::from_unix(dt.timestamp(), dt.timestamp_subsec_nanos()).unwrap()
}

fn at(h: u32, m: u32) -> Timestamp {
    ts_of(Utc.with_ymd_and_hms(2026, 1, 1, h, m, 0).unwrap())
}

/// Reads a free/busy reply the way its JSON fields are named.
fn parse_free_busy(body: &str) -> Result<FreeBusyResponse, serde_json::Error> {
    let v: serde_json::Value = serde_json::from_str(body)?;
    let mut calendars = Vec::new();
    for (name, cal) in v["calendars"].as_object().unwrap() {
        let mut busy = Vec::new();
        for r in cal["busy"].as_array().unwrap() {
            let start: DateTime<Utc> = r["start"].as_str().unwrap().parse().unwrap();
            let end: DateTime<Utc> = r["end"].as_str().unwrap().parse().unwrap();
            busy.push(gcal::BusyRange { start: ts_of(start), end: ts_of(end) });
        }
        calendars.push((name.clone(), CalendarBusy { busy }));
    }
    Ok(FreeBusyResponse { calendars })
}

fn parse_busy_ranges(body: &str) -> Result<Vec<(Timestamp, Timestamp)>, serde_json::Error> {
    Ok(gcal::busy_ranges(parse_free_busy(body)?))
}

/// Reads a schedule reply the way its JSON fields are named.
fn parse_schedule(body: &str) -> Result<GetScheduleResponse, serde_json::Error> {
    let v: serde_json::Value = serde_json::from_str(body)?;
    let mut value = Vec::new();
    for s in v["value"].as_array().unwrap() {
        let mut schedule_items = Vec::new();
        for item in s["scheduleItems"].as_array().unwrap() {
            let start: NaiveDateTime = item["start"]["dateTime"].as_str().unwrap().parse().unwrap();
            let end: NaiveDateTime = item["end"]["dateTime"].as_str().unwrap().parse().unwrap();
            schedule_items.push(ScheduleItem {
                start: ResponseDateTime { date_time: ts_of(start.and_utc()) },
                end: ResponseDateTime { date_time: ts_of(end.and_utc()) },
            });
        }
        value.push(Schedule { schedule_items });
    }
    Ok(GetScheduleResponse { value })
}

fn parse_schedule_items(body: &str) -> Result<Vec<(Timestamp, Timestamp)>, serde_json::Error> {
    Ok(msft::schedule_items(parse_schedule(body)?))
}

#[test]
fn parses_freebusy_response() {
    let body = r#"{"calendars":{"primary":{"busy":[{"start":"2026-01-01T10:00:00Z","end":"2026-01-01T10:30:00Z"}]}}}"#;

    let busy = parse_busy_ranges(body).unwrap();

    assert_eq!(busy.len(), 1);
    assert_eq!(busy[0].0, ts_of(Utc.with_ymd_and_hms(2026, 1, 1, 10, 0, 0).unwrap()));
}

#[test]
fn parses_get_schedule_response() {
    let body = r#"{"value":[{"scheduleItems":[{"start":{"dateTime":"2026-01-01T10:00:00.0000000","timeZone":"UTC"},"end":{"dateTime":"2026-01-01T10:30:00.0000000","timeZone":"UTC"}}]}]}"#;

    let busy = parse_schedule_items(body).unwrap();

    assert_eq!(busy.len(), 1);
    assert_eq!(busy[0].0, ts_of(Utc.with_ymd_and_hms(2026, 1, 1, 10, 0, 0).unwrap()));
}

#[test]
fn free_busy_ranges_skip_empty_ranges() {
    let resp = FreeBusyResponse {
        calendars: vec![
            ("a".to_string(), CalendarBusy { busy: vec![gcal::BusyRange { start: at(9, 0), end: at(9, 0) }] }),
            (
                "b".to_string(),
                CalendarBusy {
                    busy: vec![
                        gcal::BusyRange { start: at(10, 0), end: at(11, 0) },
                        gcal::BusyRange { start: at(12, 0), end: at(11, 0) },
                    ],
                },
            ),
        ],
    };
    assert_eq!(gcal::busy_ranges(resp), vec![(at(10, 0), at(11, 0))]);
}

#[test]
fn caldav_busy_query_requests_a_report() {
    let p = CalDavProvider::new(reqwest::Client::new(), "https://dav.example/cal/", "ann", "pw");
    let (_, step) = p.busy_between(at(9, 0), at(8, 0));
    assert!(matches!(step, Step::Finish(Err(caldav::ProviderError::InvalidRequest))));
    let (q, step) = p.busy_between(at(9, 0), at(10, 0));
    match step {
        Step::Send(req) => {
            assert_eq!(req.method, HttpMethod::Report);
            assert_eq!(req.url, "https://dav.example/cal/");
            assert!(matches!(req.auth, Auth::Basic { ref username, ref password } if username == "ann" && password == "pw"));
            assert_eq!(
                req.headers,
                vec![
                    ("Content-Type".to_string(), "application/xml; charset=utf-8".to_string()),
                    ("Depth".to_string(), "1".to_string())
                ]
            );
            assert!(req.body.contains("start=\"20260101T090000Z\" end=\"20260101T100000Z\""));
        },
        other => panic!("unexpected step {other:?}"),
    }
    let (_, s401) = q.step(&p, Event::Replied(401));
    assert!(matches!(s401, Step::Finish(Err(caldav::ProviderError::Unauthorized))));
    let (_, s500) = q.step(&p, Event::Replied(500));
    assert!(matches!(s500, Step::Finish(Err(caldav::ProviderError::HttpStatus(500)))));
    let (q2, s207) = q.step(&p, Event::Replied(207));
    assert!(matches!(s207, Step::ReadBody));
    let body = "BEGIN:VEVENT\nDTSTART:20260101T091500Z\nDTEND:20260101T093000Z\nEND:VEVENT".to_string();
    match q2.step(&p, Event::Body(body)).1 {
        Step::Finish(Ok(ranges)) => assert_eq!(ranges, vec![(at(9, 15), at(9, 30))]),
        other => panic!("unexpected step {other:?}"),
    }
}

#[test]
fn caldav_availability_uses_the_slot_length() {
    let p = CalDavProvider::new(reqwest::Client::new(), "https://dav.example/cal", "u", "p").with_slot_minutes(20);
    let (q, _) = p.availability_between(at(9, 0), at(10, 0));
    let (q, _) = q.step(&p, Event::Replied(200));
    let body = "BEGIN:VEVENT\nDTSTART:20260101T092000Z\nDTEND:20260101T094000Z\nEND:VEVENT".to_string();
    match q.step(&p, Event::Body(body)).1 {
        Step::Finish(Ok(a)) => {
            let starts: Vec<Timestamp> = a.slots.iter().map(|s| s.start).collect();
            assert_eq!(starts, vec![at(9, 0), at(9, 40)]);
        },
        other => panic!("unexpected step {other:?}"),
    }
}

#[test]
fn caldav_booking_checks_conflicts_then_puts_the_event() {
    let p = CalDavProvider::new(reqwest::Client::new(), "https://dav.example/cal//", "u", "p")
        .with_booking_summary("Chat");
    let booking = BookingRequest { from: at(9, 0), to: at(9, 30) };
    let (_, invalid) = p.create_booking(BookingRequest { from: at(9, 30), to: at(9, 30) });
    assert!(matches!(invalid, Step::Finish(Err(caldav::ProviderError::InvalidRequest))));
    let (flow, first) = p.create_booking(booking);
    assert!(matches!(first, Step::Send(_)));
    let (flow, _) = flow.step(&p, Event::Replied(207));
    let busy = "BEGIN:VEVENT\nDTSTART:20260101T092000Z\nDTEND:20260101T094000Z\nEND:VEVENT".to_string();
    let (_, conflict) = flow.step(&p, Event::Body(busy));
    assert!(matches!(conflict, Step::Finish(Err(caldav::ProviderError::Conflict))));
    let free = "BEGIN:VEVENT\nDTSTART:20260101T093000Z\nDTEND:20260101T094000Z\nEND:VEVENT".to_string();
    let (flow, put) = flow.step(&p, Event::Body(free));
    match put {
        Step::Send(req) => {
            assert_eq!(req.method, HttpMethod::Put);
            assert!(req.url.starts_with("https://dav.example/cal/schedj-"), "{}", req.url);
            assert!(req.url.ends_with("%40schedj.ics"), "{}", req.url);
            assert!(req.body.contains("DTSTART:20260101T090000Z\r\nDTEND:20260101T093000Z\r\nSUMMARY:Chat\r\n"));
        },
        other => panic!("unexpected step {other:?}"),
    }
    let (_, done) = flow.step(&p, Event::Replied(201));
    assert!(matches!(done, Step::Finish(Ok(b)) if b.from == at(9, 0) && b.to == at(9, 30)));
    let (_, refused) = flow.step(&p, Event::Replied(403));
    assert!(matches!(refused, Step::Finish(Err(caldav::ProviderError::Unauthorized))));
    let (_, odd) = flow.step(&p, Event::Replied(302));
    assert!(matches!(odd, Step::Finish(Err(caldav::ProviderError::HttpStatus(302)))));
}

#[test]
fn caldav_window_covers_the_lookahead() {
    let p = CalDavProvider::new(reqwest::Client::new(), "u", "u", "p").with_lookahead_days(0);
    assert_eq!(p.lookahead_window(at(9, 0)), Some((at(9, 0), Timestamp { secs: at(9, 0).secs + 86400, nanos: 0 })));
    let p3 = p.with_lookahead_days(3);
    assert_eq!(p3.lookahead_window(at(9, 0)).unwrap().1.secs, at(9, 0).secs + 3 * 86400);
    assert!(p3.with_lookahead_days(i64::MAX).lookahead_window(at(9, 0)).is_none());
    let (from, to) = CalDavProvider::new(reqwest::Client::new(), "u", "u", "p").current_window().unwrap();
    assert_eq!(to.secs - from.secs, 14 * 86400);
    assert!((from.secs - Utc::now().timestamp()).abs() < 60);
}

#[test]
fn google_requests_and_replies() {
    let p = GoogleCalendarProvider::new(reqwest::Client::new(), "tok", "team cal@x")
        .with_api_base("http://localhost:9/v3/")
        .with_booking_summary("Intro");
    let (q, step) = p.busy_between(at(9, 0), at(10, 0));
    match step {
        Step::Send(req) => {
            assert_eq!(req.method, HttpMethod::Post);
            assert_eq!(req.url, "http://localhost:9/v3/freeBusy");
            assert!(matches!(req.auth, Auth::Bearer { ref token } if token == "tok"));
            match req.body {
                GoogleBody::FreeBusy(fb) => {
                    assert_eq!(fb.time_min, at(9, 0));
                    assert_eq!(fb.time_max, at(10, 0));
                    assert_eq!(fb.items.len(), 1);
                    assert_eq!(fb.items[0].id, "team cal@x");
                },
                other => panic!("unexpected body {other:?}"),
            }
        },
        other => panic!("unexpected step {other:?}"),
    }
    let (_, s207) = q.step(&p, Event::Replied(207));
    assert!(matches!(s207, Step::ReadBody));
    let (_, s404) = q.step(&p, Event::Replied(404));
    assert!(matches!(s404, Step::Finish(Err(gcal::ProviderError::HttpStatus(404)))));

    let booking = BookingRequest { from: at(11, 0), to: at(11, 30) };
    let (flow, _) = p.create_booking(booking);
    let (flow, _) = flow.step(&p, Event::Replied(200));
    let (flow, create) = flow.step(&p, Event::Body(FreeBusyResponse { calendars: vec![] }));
    match create {
        Step::Send(req) => {
            assert_eq!(req.url, "http://localhost:9/v3/calendars/team%20cal%40x/events");
            match req.body {
                GoogleBody::Event(ev) => {
                    assert_eq!(ev.summary, "Intro");
                    assert_eq!(ev.start.date_time, at(11, 0));
                    assert_eq!(ev.end.date_time, at(11, 30));
                },
                other => panic!("unexpected body {other:?}"),
            }
        },
        other => panic!("unexpected step {other:?}"),
    }
    let (_, conflict) = flow.step(&p, Event::Replied(409));
    assert!(matches!(conflict, Step::Finish(Err(gcal::ProviderError::Conflict))));
    let (_, ok) = flow.step(&p, Event::Replied(200));
    assert!(matches!(ok, Step::Finish(Ok(_))));
}

#[test]
fn microsoft_requests_and_replies() {
    let p = MicrosoftCalendarProvider::new(reqwest::Client::new(), "tok", "ann@x")
        .with_graph_base("http://g/v1.0/")
        .with_slot_minutes(-3);
    assert_eq!(p.owner_path(), "me");
    assert_eq!(p.create_event_url(), "http://g/v1.0/me/events");
    let p = p.with_user_id("bob smith").with_calendar_id("c/1");
    assert_eq!(p.owner_path(), "users/bob%20smith");
    assert_eq!(p.create_event_url(), "http://g/v1.0/users/bob%20smith/calendars/c%2F1/events");
    let (_, step) = p.busy_between(at(9, 0), at(10, 0));
    match step {
        Step::Send(req) => {
            assert_eq!(req.url, "http://g/v1.0/users/bob%20smith/calendar/getSchedule");
            match req.body {
                GraphBody::Schedule(gs) => {
                    assert_eq!(gs.schedules, vec!["ann@x".to_string()]);
                    assert_eq!(gs.start_time.date_time, at(9, 0));
                    assert_eq!(gs.start_time.time_zone, "UTC");
                    assert_eq!(gs.end_time.date_time, at(10, 0));
                    assert_eq!(gs.availability_view_interval, 1);
                },
                other => panic!("unexpected body {other:?}"),
            }
        },
        other => panic!("unexpected step {other:?}"),
    }
    let booking = BookingRequest { from: at(9, 0), to: at(10, 0) };
    let (flow, _) = p.create_booking(booking);
    let (flow, _) = flow.step(&p, Event::Replied(200));
    let busy = GetScheduleResponse {
        value: vec![Schedule {
            schedule_items: vec![ScheduleItem {
                start: ResponseDateTime { date_time: at(9, 59) },
                end: ResponseDateTime { date_time: at(10, 30) },
            }],
        }],
    };
    let (_, conflict) = flow.step(&p, Event::Body(busy));
    assert!(matches!(conflict, Step::Finish(Err(msft::ProviderError::Conflict))));
}

#[test]
fn calendar_order_does_not_change_the_slots() {
    let first = (
        "work".to_string(),
        CalendarBusy { busy: vec![gcal::BusyRange { start: at(9, 30), end: at(10, 0) }] },
    );
    let second = (
        "home".to_string(),
        CalendarBusy { busy: vec![gcal::BusyRange { start: at(11, 0), end: at(11, 45) }] },
    );
    let one = gcal::busy_ranges(FreeBusyResponse { calendars: vec![first.clone(), second.clone()] });
    let other = gcal::busy_ranges(FreeBusyResponse { calendars: vec![second, first] });
    assert_ne!(one, other);

    let a = schedj::slots::availability_slots(at(9, 0), at(12, 0), &one, 30);
    let b = schedj::slots::availability_slots(at(9, 0), at(12, 0), &other, 30);
    assert_eq!(a, b);
    let starts: Vec<Timestamp> = a.slots.iter().map(|s| s.start).collect();
    assert_eq!(starts, vec![at(9, 0), at(10, 0), at(10, 30)]);
}
