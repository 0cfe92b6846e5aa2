use chrono::{DateTime, TimeZone, Utc};
use schedj::slots::{availability_slots, has_conflict, try_availability_slots, AvailabilitySlot};
use schedj::time::{Timestamp, MAX_UNIX_SECS, MIN_UNIX_SECS};

fn ts(dt: DateTime<Utc>) -> Timestamp {
    Timestamp::from_unix(dt.timestamp(), dt.timestamp_subsec_nanos()).unwrap()
}

fn at(h: u32, m: u32) -> Timestamp {
    ts(Utc.with_ymd_and_hms(2026, 1, 1, h, m, 0).unwrap())
}

#[test]
fn slots_exclude_busy_ranges() {
    let from = ts(Utc.with_ymd_and_hms(2026, 1, 1, 9, 0, 0).unwrap());
    let to = ts(Utc.with_ymd_and_hms(2026, 1, 1, 12, 0, 0).unwrap());
    let busy = [(
        ts(Utc.with_ymd_and_hms(2026, 1, 1, 10, 0, 0).unwrap()),
        ts(Utc.with_ymd_and_hms(2026, 1, 1, 11, 0, 0).unwrap()),
    )];

    let availability = availability_slots(from, to, &busy, 30);

    assert_eq!(availability.slots.len(), 4);
    assert_eq!(availability.slots[0].start, from);
    assert_eq!(availability.slots[3].end, to);
}

#[test]
fn slots_follow_each_other_in_free_time() {
    let busy = [(at(10, 0), at(11, 0))];
    let a = availability_slots(at(9, 0), at(12, 0), &busy, 30);
    let expected = vec![
        AvailabilitySlot { start: at(9, 0), end: at(9, 30) },
        AvailabilitySlot { start: at(9, 30), end: at(10, 0) },
        AvailabilitySlot { start: at(11, 0), end: at(11, 30) },
        AvailabilitySlot { start: at(11, 30), end: at(12, 0) },
    ];
    assert_eq!(a.slots, expected);
}

#[test]
fn empty_window_gives_no_slots() {
    assert!(availability_slots(at(12, 0), at(9, 0), &[], 30).slots.is_empty());
    assert!(availability_slots(at(9, 0), at(9, 0), &[], 30).slots.is_empty());
}

#[test]
fn slots_start_after_each_busy_range_and_stop_before_the_next() {
    // Busy 9:10-9:20: free time starts again at 9:20, not at the next half hour.
    let busy = [(at(9, 10), at(9, 20))];
    let a = availability_slots(at(9, 0), at(10, 30), &busy, 30);
    let starts: Vec<Timestamp> = a.slots.iter().map(|s| s.start).collect();
    assert_eq!(starts, vec![at(9, 20), at(9, 50)]);
}

#[test]
fn overlapping_and_touching_busy_ranges_merge() {
    let busy = [
        (at(10, 30), at(11, 0)),
        (at(9, 30), at(10, 0)),
        (at(10, 0), at(10, 15)),
        (at(9, 45), at(10, 40)),
    ];
    let a = availability_slots(at(9, 0), at(12, 0), &busy, 30);
    let starts: Vec<Timestamp> = a.slots.iter().map(|s| s.start).collect();
    assert_eq!(starts, vec![at(9, 0), at(11, 0), at(11, 30)]);
}

#[test]
fn busy_ranges_outside_the_window_or_inverted_are_ignored() {
    let busy = [
        (at(7, 0), at(8, 0)),
        (at(13, 0), at(14, 0)),
        (at(10, 30), at(10, 0)),
        (at(10, 0), at(10, 0)),
    ];
    let a = availability_slots(at(9, 0), at(11, 0), &busy, 60);
    let starts: Vec<Timestamp> = a.slots.iter().map(|s| s.start).collect();
    assert_eq!(starts, vec![at(9, 0), at(10, 0)]);
}

#[test]
fn busy_ranges_are_clamped_to_the_window() {
    let busy = [(at(8, 0), at(9, 30)), (at(11, 30), at(13, 0))];
    let a = availability_slots(at(9, 0), at(12, 0), &busy, 30);
    let starts: Vec<Timestamp> = a.slots.iter().map(|s| s.start).collect();
    assert_eq!(starts, vec![at(9, 30), at(10, 0), at(10, 30), at(11, 0)]);
}

#[test]
fn slot_minutes_below_one_count_as_one() {
    let a = availability_slots(at(9, 0), at(9, 3), &[], 0);
    assert_eq!(a.slots.len(), 3);
    assert_eq!(a.slots[2], AvailabilitySlot { start: at(9, 2), end: at(9, 3) });
    let b = availability_slots(at(9, 0), at(9, 3), &[], -5);
    assert_eq!(b.slots, a.slots);
}

#[test]
fn slots_longer_than_the_window_give_nothing() {
    assert!(availability_slots(at(9, 0), at(9, 20), &[], 30).slots.is_empty());
}

#[test]
fn busy_order_does_not_matter() {
    let mut busy = vec![(at(9, 30), at(9, 45)), (at(10, 50), at(11, 10)), (at(9, 40), at(10, 5))];
    let a = availability_slots(at(9, 0), at(12, 0), &busy, 15);
    busy.reverse();
    let b = availability_slots(at(9, 0), at(12, 0), &busy, 15);
    assert_eq!(a.slots, b.slots);
}

#[test]
fn offered_slots_do_not_conflict_with_busy_ranges() {
    let busy = [(at(9, 10), at(9, 20)), (at(10, 0), at(10, 45)), (at(11, 50), at(12, 30))];
    let a = availability_slots(at(9, 0), at(12, 0), &busy, 20);
    assert!(!a.slots.is_empty());
    for s in &a.slots {
        assert!(!has_conflict(&busy, s.start, s.end));
        assert!(s.start.secs >= at(9, 0).secs && s.end.secs <= at(12, 0).secs);
    }
    for w in a.slots.windows(2) {
        assert!(w[0].end.secs <= w[1].start.secs);
    }
}

#[test]
fn conflict_means_overlap() {
    let busy = [(at(10, 0), at(11, 0))];
    assert!(has_conflict(&busy, at(10, 30), at(11, 30)));
    assert!(has_conflict(&busy, at(9, 30), at(10, 1)));
    assert!(!has_conflict(&busy, at(11, 0), at(12, 0)));
    assert!(!has_conflict(&busy, at(9, 0), at(10, 0)));
    assert!(!has_conflict(&[], at(9, 0), at(10, 0)));
}

#[test]
fn leap_second_start_is_folded_before_stepping() {
    // 23:59:60.5 on 2016-12-31, written as the 59th second with 1.5 s of fraction.
    let leap = Timestamp::from_unix(1_483_228_799, 1_500_000_000).unwrap();
    let to = Timestamp::from_unix(1_483_228_799 + 3600, 0).unwrap();
    let a = availability_slots(leap, to, &[], 30);
    assert_eq!(a.slots.len(), 1);
    assert_eq!(a.slots[0].start, leap);
    assert_eq!(a.slots[0].end, Timestamp { secs: 1_483_228_799 + 1800, nanos: 500_000_000 });
}

#[test]
fn stepping_past_the_last_instant_is_refused() {
    let to = Timestamp::from_unix(MAX_UNIX_SECS, 0).unwrap();
    let from = Timestamp::from_unix(MAX_UNIX_SECS - 600, 0).unwrap();
    assert!(try_availability_slots(from, to, &[], 30).is_none());
    // A window whose last step still fits is fine.
    let from2 = Timestamp::from_unix(MAX_UNIX_SECS - 3600 * 2, 0).unwrap();
    let to2 = Timestamp::from_unix(MAX_UNIX_SECS - 3600, 0).unwrap();
    assert_eq!(try_availability_slots(from2, to2, &[], 30).unwrap().slots.len(), 2);
    // Huge slot lengths cannot be held by a duration.
    assert!(try_availability_slots(at(9, 0), at(10, 0), &[], i64::MAX).is_none());
}

#[test]
fn timestamp_range_matches_chrono() {
    assert_eq!(DateTime::<Utc>::MIN_UTC.timestamp(), MIN_UNIX_SECS);
    assert_eq!(DateTime::<Utc>::MAX_UTC.timestamp(), MAX_UNIX_SECS);
    assert!(Timestamp::from_unix(MAX_UNIX_SECS + 1, 0).is_none());
    assert!(Timestamp::from_unix(MIN_UNIX_SECS - 1, 0).is_none());
    assert!(Timestamp::from_unix(0, 1_500_000_000).is_none());
    assert!(Timestamp::from_unix(59, 1_500_000_000).is_some());
    assert!(Timestamp::from_unix(-1, 1_500_000_000).is_some());
}

#[test]
fn more_busy_ranges_never_give_more_slots() {
    let few = [(at(10, 0), at(10, 20))];
    let more = [(at(10, 0), at(10, 20)), (at(9, 10), at(9, 25)), (at(11, 40), at(13, 0))];
    let a = availability_slots(at(9, 0), at(12, 0), &few, 30);
    let b = availability_slots(at(9, 0), at(12, 0), &more, 30);
    assert!(b.slots.len() <= a.slots.len());
    assert_eq!(a.slots.len(), 5);
    assert_eq!(b.slots.len(), 3);
}

#[test]
fn a_busy_range_ending_in_a_leap_second_can_add_a_slot() {
    let from = Timestamp::from_unix(59, 700_000_000).unwrap();
    let leap = Timestamp::from_unix(59, 1_500_000_000).unwrap();
    let to = Timestamp::from_unix(119, 600_000_000).unwrap();
    assert!(availability_slots(from, to, &[], 1).slots.is_empty());
    let with_leap = availability_slots(from, to, &[(from, leap)], 1);
    assert_eq!(with_leap.slots.len(), 1);
    assert_eq!(with_leap.slots[0].start, leap);
    assert_eq!(with_leap.slots[0].end, Timestamp::from_unix(119, 500_000_000).unwrap());
    let chrono_end = DateTime::from_timestamp(59, 1_500_000_000).unwrap() + chrono::TimeDelta::minutes(1);
    assert_eq!(ts(chrono_end), with_leap.slots[0].end);
}

#[test]
fn failed_queries_give_no_availability() {
    let found = availability_slots(at(9, 0), at(10, 0), &[], 30);
    assert_eq!(schedj::slots::availability_or_empty::<String>(Ok(found.clone())), found);
    let failed = schedj::slots::availability_or_empty::<String>(Err("unauthorized".to_string()));
    assert!(failed.slots.is_empty());
}

#[test]
fn keeping_a_leap_second_range_and_adding_others_gives_no_more_slots() {
    let t = |s: i64, n: u32| Timestamp::from_unix(s, n).unwrap();
    let from = t(59, 700_000_000);
    let to = t(239, 0);
    let kept = (from, t(59, 1_500_000_000));
    let a = availability_slots(from, to, &[kept], 1);
    let b = availability_slots(from, to, &[kept, (t(130, 0), t(140, 0))], 1);
    assert_eq!(a.slots.len(), 2);
    assert_eq!(b.slots.len(), 2);
    assert_eq!(b.slots[1].start, t(140, 0));
}
