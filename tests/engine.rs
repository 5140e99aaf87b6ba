use statical::calendar::Calendar;
use statical::collection::CalendarCollection;
use statical::date::{instant_of, weekday, CivilDate, DateTime};
use statical::event::{expand, CalendarError, Event, Recurrence};
use statical::index::{build_index, day_label_text, period_label_text, BucketKey};
use statical::label::{month_from_u8, Month};
use statical::week::{week_month_label, WeekDayMap};

fn date(year: i32, month: u8, day: u8) -> CivilDate {
    CivilDate { year, month, day }
}

fn at(year: i32, month: u8, day: u8, second: u32) -> DateTime {
    DateTime { date: date(year, month, day), second }
}

fn event(summary: &str, start: DateTime, end: DateTime, recurrence: Option<Recurrence>) -> Event {
    Event::new(summary.to_string(), start, end, recurrence)
}

#[test]
fn instants_count_seconds_on_the_julian_day_scale() {
    assert_eq!(instant_of(at(2000, 1, 1, 0)), 2_451_545 * 86_400);
    assert_eq!(instant_of(at(2019, 12, 31, 5)), 2_458_849 * 86_400 + 5);
}

#[test]
fn weekday_counts_from_sunday() {
    assert_eq!(weekday(date(2024, 3, 15)), 5);
    assert_eq!(weekday(date(2019, 9, 1)), 0);
    assert_eq!(weekday(date(2019, 7, 1)), 1);
}

#[test]
fn iso_weeks_at_year_boundaries() {
    let week_of = |d: CivilDate| event("e", DateTime { date: d, second: 0 }, DateTime { date: d, second: 0 }, None).week();
    assert_eq!(week_of(date(2019, 1, 1)), 1);
    assert_eq!(week_of(date(2020, 12, 31)), 53);
    assert_eq!(week_of(date(2021, 1, 1)), 53);
    assert_eq!(week_of(date(2024, 3, 15)), 11);
}

#[test]
fn week_grid_starts_on_the_closing_sunday() {
    let sunday = |y: i32, w: u8| WeekDayMap::new().context(y, w).map(|g| g[0].date);
    assert_eq!(sunday(2024, 11), Ok(date(2024, 3, 17)));
    assert_eq!(sunday(2019, 0), Err(CalendarError::InvalidWeekDate));
    assert_eq!(sunday(9999, 52), Err(CalendarError::InvalidWeekDate));
}

#[test]
fn expansion_crosses_year_end() {
    let rule = Recurrence { every_days: 1, count: Some(2) };
    let e = event("eve", at(2023, 12, 31, 0), at(2024, 1, 1, 0), Some(rule));
    let r = expand(&e, at(2023, 1, 1, 0), at(2024, 12, 31, 0)).unwrap();
    let starts: Vec<CivilDate> = r.iter().map(|o| o.start.date).collect();
    let ends: Vec<CivilDate> = r.iter().map(|o| o.end.date).collect();
    assert_eq!(starts, vec![date(2023, 12, 31), date(2024, 1, 1)]);
    assert_eq!(ends, vec![date(2024, 1, 1), date(2024, 1, 2)]);
}

#[test]
fn single_event_inside_window_is_kept() {
    let e = event("talk", at(2024, 3, 15, 3600), at(2024, 3, 15, 7200), None);
    let r = expand(&e, at(2024, 3, 1, 0), at(2024, 3, 31, 0)).unwrap();
    assert_eq!(r.len(), 1);
    assert_eq!(r[0].summary, "talk");
    assert_eq!(r[0].start, e.start);
    assert_eq!(r[0].end, e.end);
}

#[test]
fn single_event_outside_window_is_dropped() {
    let e = event("talk", at(2024, 3, 15, 3600), at(2024, 3, 15, 7200), None);
    let r = expand(&e, at(2024, 3, 16, 0), at(2024, 3, 31, 0)).unwrap();
    assert!(r.is_empty());
    let r = expand(&e, at(2024, 3, 1, 0), at(2024, 3, 15, 3599)).unwrap();
    assert!(r.is_empty());
}

#[test]
fn weekly_event_is_clipped_to_window() {
    let rule = Recurrence { every_days: 7, count: None };
    let e = event("standup", at(2024, 1, 1, 600), at(2024, 1, 1, 1200), Some(rule));
    let r = expand(&e, at(2024, 1, 10, 0), at(2024, 1, 31, 0)).unwrap();
    let starts: Vec<CivilDate> = r.iter().map(|o| o.start.date).collect();
    assert_eq!(starts, vec![date(2024, 1, 15), date(2024, 1, 22), date(2024, 1, 29)]);
    assert!(r.iter().all(|o| o.start.second == 600 && o.summary == "standup"));
    assert_eq!(r[0].end.date, date(2024, 1, 15));
}

#[test]
fn counted_event_stops_after_count() {
    let rule = Recurrence { every_days: 1, count: Some(3) };
    let e = event("course", at(2024, 2, 28, 0), at(2024, 2, 28, 60), Some(rule));
    let r = expand(&e, at(2024, 1, 1, 0), at(2024, 12, 31, 0)).unwrap();
    let starts: Vec<CivilDate> = r.iter().map(|o| o.start.date).collect();
    assert_eq!(starts, vec![date(2024, 2, 28), date(2024, 2, 29), date(2024, 3, 1)]);
}

#[test]
fn zero_period_is_malformed() {
    let rule = Recurrence { every_days: 0, count: None };
    let e = event("broken", at(2024, 1, 1, 0), at(2024, 1, 1, 60), Some(rule));
    let r = expand(&e, at(2024, 1, 1, 0), at(2024, 1, 31, 0));
    assert_eq!(r.unwrap_err(), CalendarError::MalformedRecurrence);
}

#[test]
fn calendar_bounds_are_min_start_and_max_end() {
    let cal = Calendar::new(vec![
        event("b", at(2024, 5, 2, 0), at(2024, 5, 9, 0), None),
        event("a", at(2024, 5, 1, 0), at(2024, 5, 3, 0), None),
    ]);
    assert_eq!(cal.start(), Some(at(2024, 5, 1, 0)));
    assert_eq!(cal.end(), Some(at(2024, 5, 9, 0)));
    assert_eq!(Calendar::new(Vec::new()).start(), None);
}

#[test]
fn index_groups_and_sorts_keys() {
    let k = |year: i32, unit: u8| BucketKey { year, unit, day: 0 };
    let keys = vec![k(2024, 3), k(2023, 12), k(2024, 3), k(2024, 1)];
    let idx = build_index(&keys);
    let got: Vec<(BucketKey, Vec<usize>)> =
        idx.buckets.iter().map(|b| (b.key, b.events.clone())).collect();
    assert_eq!(
        got,
        vec![(k(2023, 12), vec![1]), (k(2024, 1), vec![3]), (k(2024, 3), vec![0, 2])]
    );
}

#[test]
fn labels_are_formatted() {
    let month = BucketKey { year: 2024, unit: 3, day: 0 };
    assert_eq!(period_label_text(month), "2024-3");
    let day = BucketKey { year: 2024, unit: 3, day: 5 };
    assert_eq!(day_label_text(day), "2024-03-05");
    let early = BucketKey { year: 33, unit: 11, day: 25 };
    assert_eq!(day_label_text(early), "0033-11-25");
    let negative = BucketKey { year: -44, unit: 3, day: 15 };
    assert_eq!(day_label_text(negative), "-0044-03-15");
}

#[test]
fn single_event_collection_scenario() {
    let cal = Calendar::new(vec![event("launch", at(2024, 3, 15, 36000), at(2024, 3, 15, 39600), None)]);
    let c = CalendarCollection::new(vec![cal], at(2030, 1, 1, 0)).unwrap();
    assert_eq!(c.window_start, at(2024, 3, 15, 36000));
    assert_eq!(c.window_end, at(2024, 3, 15, 39600));

    let days = c.day_pages();
    assert_eq!(days.len(), 1);
    assert_eq!(days[0].key, BucketKey { year: 2024, unit: 3, day: 15 });
    assert_eq!(days[0].label, "2024-03-15");
    assert_eq!(days[0].events, vec![0]);
    assert_eq!(c.events[0].summary, "launch");

    let weeks = c.week_pages().unwrap();
    assert_eq!(weeks.len(), 1);
    assert_eq!(weeks[0].key, BucketKey { year: 2024, unit: 11, day: 0 });
    assert_eq!(weeks[0].label, "2024-11");
    assert_eq!(weeks[0].days.len(), 7);
    assert_eq!(weeks[0].days[0].date, date(2024, 3, 17));
    for (n, d) in weeks[0].days.iter().enumerate() {
        if n == 5 {
            assert_eq!(d.events, vec![0]);
        } else {
            assert!(d.events.is_empty());
        }
    }
    assert_eq!(weeks[0].month_label, "March");

    let months = c.month_pages();
    assert_eq!(months.len(), 1);
    assert_eq!(months[0].label, "2024-3");
}

#[test]
fn week_spanning_two_months_scenario() {
    let grid = WeekDayMap::new().context(2023, 17).unwrap();
    assert_eq!(grid[0].date, date(2023, 4, 30));
    assert_eq!(grid[0].month, "April");
    assert_eq!(grid[1].month, "May");
    assert_eq!(week_month_label(&grid), "April - May");
}

#[test]
fn week_inside_one_month_has_one_name() {
    let grid = WeekDayMap::new().context(2024, 2).unwrap();
    assert_eq!(grid[0].date, date(2024, 1, 14));
    assert_eq!(grid[6].date, date(2024, 1, 20));
    assert_eq!(week_month_label(&grid), "January");
}

#[test]
fn week_grid_days_follow_sunday() {
    let grid = WeekDayMap::new().context(2020, 53).unwrap();
    let dates: Vec<CivilDate> = grid.iter().map(|d| d.date).collect();
    assert_eq!(
        dates,
        vec![
            date(2021, 1, 3),
            date(2021, 1, 4),
            date(2021, 1, 5),
            date(2021, 1, 6),
            date(2021, 1, 7),
            date(2021, 1, 8),
            date(2021, 1, 9)
        ]
    );
    assert_eq!(week_month_label(&grid), "January");
}

#[test]
fn invalid_week_is_rejected() {
    let r = WeekDayMap::new().context(2019, 53);
    assert_eq!(r.unwrap_err(), CalendarError::InvalidWeekDate);
}

#[test]
fn empty_collection_scenario() {
    let now = at(2024, 6, 1, 43200);
    let c = CalendarCollection::new(Vec::new(), now).unwrap();
    assert_eq!(c.window_start, now);
    assert_eq!(c.window_end, at(2024, 7, 1, 43200));
    assert!(c.months.buckets.is_empty());
    assert!(c.weeks.buckets.is_empty());
    assert!(c.days.buckets.is_empty());
    assert!(c.month_pages().is_empty());
    assert!(c.week_pages().unwrap().is_empty());
    assert!(c.day_pages().is_empty());
}

#[test]
fn pagination_links_neighbours() {
    let cal = Calendar::new(vec![
        event("c", at(2024, 5, 20, 0), at(2024, 5, 20, 60), None),
        event("a", at(2024, 3, 1, 0), at(2024, 3, 1, 60), None),
        event("b", at(2024, 4, 10, 0), at(2024, 4, 10, 60), None),
    ]);
    let c = CalendarCollection::new(vec![cal], at(2030, 1, 1, 0)).unwrap();
    let months = c.month_pages();
    let labels: Vec<&str> = months.iter().map(|p| p.label.as_str()).collect();
    assert_eq!(labels, vec!["2024-3", "2024-4", "2024-5"]);
    assert_eq!(months[0].previous, None);
    assert_eq!(months[0].next.as_deref(), Some("2024-4"));
    assert_eq!(months[1].previous.as_deref(), Some("2024-3"));
    assert_eq!(months[1].next.as_deref(), Some("2024-5"));
    assert_eq!(months[2].previous.as_deref(), Some("2024-4"));
    assert_eq!(months[2].next, None);
    assert_eq!(months[1].events, vec![2]);
}

#[test]
fn events_land_in_one_bucket_per_index() {
    let first = Calendar::new(vec![
        event("x", at(2024, 3, 15, 0), at(2024, 3, 15, 60), None),
        event("y", at(2024, 3, 18, 0), at(2024, 3, 18, 60), None),
    ]);
    let second = Calendar::new(vec![event("z", at(2024, 3, 15, 100), at(2024, 3, 15, 200), None)]);
    let c = CalendarCollection::new(vec![first, second], at(2030, 1, 1, 0)).unwrap();
    assert_eq!(c.events.len(), 3);
    let days: Vec<(BucketKey, Vec<usize>)> =
        c.days.buckets.iter().map(|b| (b.key, b.events.clone())).collect();
    assert_eq!(
        days,
        vec![
            (BucketKey { year: 2024, unit: 3, day: 15 }, vec![0, 2]),
            (BucketKey { year: 2024, unit: 3, day: 18 }, vec![1]),
        ]
    );
    let weeks: Vec<(u8, Vec<usize>)> =
        c.weeks.buckets.iter().map(|b| (b.key.unit, b.events.clone())).collect();
    assert_eq!(weeks, vec![(11, vec![0, 2]), (12, vec![1])]);
    assert_eq!(c.months.buckets.len(), 1);
    assert_eq!(c.months.buckets[0].events, vec![0, 1, 2]);
}

#[test]
fn collection_expands_recurring_events_within_window() {
    let rule = Recurrence { every_days: 1, count: None };
    let cal = Calendar::new(vec![
        event("daily", at(2024, 1, 1, 0), at(2024, 1, 1, 60), Some(rule)),
        event("last", at(2024, 1, 3, 0), at(2024, 1, 4, 0), None),
    ]);
    let c = CalendarCollection::new(vec![cal], at(2030, 1, 1, 0)).unwrap();
    let starts: Vec<CivilDate> = c.events.iter().map(|e| e.start.date).collect();
    assert_eq!(
        starts,
        vec![date(2024, 1, 1), date(2024, 1, 2), date(2024, 1, 3), date(2024, 1, 4), date(2024, 1, 3)]
    );
}

#[test]
fn collection_reports_malformed_rule() {
    let rule = Recurrence { every_days: 0, count: Some(2) };
    let cal = Calendar::new(vec![event("bad", at(2024, 1, 1, 0), at(2024, 1, 1, 60), Some(rule))]);
    let r = CalendarCollection::new(vec![cal], at(2030, 1, 1, 0));
    assert_eq!(r.unwrap_err(), CalendarError::MalformedRecurrence);
}

#[test]
fn months_from_numbers() {
    assert_eq!(month_from_u8(1), Some(Month::January));
    assert_eq!(month_from_u8(12), Some(Month::December));
    assert_eq!(month_from_u8(0), None);
    assert_eq!(month_from_u8(13), None);
    assert_eq!(Month::September.name(), "September");
}

#[test]
fn default_window_needs_thirty_more_days() {
    use_default_window(at(2024, 6, 1, 0), true);
    use_default_window(at(9999, 12, 1, 0), true);
    use_default_window(at(9999, 12, 2, 0), false);
}

fn use_default_window(now: DateTime, fits: bool) {
    assert_eq!(statical::collection::default_window_fits(now), fits);
}
