use vstd::prelude::*;
use crate::calendar::{Calendar, all_valid, expands_all};
use crate::date::{
    DateTime, date_from_julian_day, instant, iso_week_of, jd, julian_day, lemma_jd_bounds, max_jd,
    not_after, valid_time, weekday_from_sunday,
};
use crate::event::{CalendarError, Event, EventView, event_views, malformed, valid_event};
use crate::index::{
    BucketKey, Bucket, Index, build_index, day_label, day_label_text, members, month_label,
    period_label_text, week_label,
};
use crate::week::{DayContext, WeekDayMap, month_names, week_grid_exists, week_month_label};
use crate::label::month_run_label;

verus! {

/// The calendars, their expanded events in calendar-then-source order, and the three indices
/// over those events.
#[derive(Debug)]
pub struct CalendarCollection {
    pub calendars: Vec<Calendar>,
    pub events: Vec<Event>,
    pub months: Index,
    pub weeks: Index,
    pub days: Index,
    pub window_start: DateTime,
    pub window_end: DateTime,
}

/// One page of the month or day index, with the labels of its neighbours.
#[derive(Debug)]
pub struct Page {
    pub key: BucketKey,
    pub label: String,
    pub events: Vec<usize>,
    pub previous: Option<String>,
    pub next: Option<String>,
}

/// One page of the week index: its seven-day grid and the label of the months it touches.
#[derive(Debug)]
pub struct WeekPage {
    pub key: BucketKey,
    pub label: String,
    pub month_label: String,
    pub days: Vec<DayContext>,
    pub previous: Option<String>,
    pub next: Option<String>,
}

pub open spec fn month_key_of(e: EventView) -> BucketKey {
    BucketKey { year: e.start.date.year, unit: e.start.date.month, day: 0 }
}

pub open spec fn week_key_of(e: EventView) -> BucketKey {
    BucketKey { year: e.start.date.year, unit: iso_week_of(e.start.date) as u8, day: 0 }
}

pub open spec fn day_key_of(e: EventView) -> BucketKey {
    BucketKey { year: e.start.date.year, unit: e.start.date.month, day: e.start.date.day }
}

pub open spec fn month_keys(s: Seq<EventView>) -> Seq<BucketKey> {
    s.map_values(|e: EventView| month_key_of(e))
}

pub open spec fn week_keys(s: Seq<EventView>) -> Seq<BucketKey> {
    s.map_values(|e: EventView| week_key_of(e))
}

pub open spec fn day_keys(s: Seq<EventView>) -> Seq<BucketKey> {
    s.map_values(|e: EventView| day_key_of(e))
}

/// The events of all calendars, calendar after calendar.
pub open spec fn flatten(cals: Seq<Calendar>) -> Seq<EventView>
    decreases cals.len(),
{
    if cals.len() == 0 {
        Seq::empty()
    } else {
        flatten(cals.drop_last()) + event_views(cals.last().events@)
    }
}

pub open spec fn all_wf(cals: Seq<Calendar>) -> bool {
    forall|c: int| 0 <= c < cals.len() ==> (#[trigger] cals[c]).wf()
}

pub open spec fn has_events(cals: Seq<Calendar>) -> bool {
    exists|c: int| 0 <= c < cals.len() && (#[trigger] cals[c]).events@.len() > 0
}

pub open spec fn any_malformed(cals: Seq<Calendar>) -> bool {
    exists|c: int, i: int|
        0 <= c < cals.len() && 0 <= i < cals[c].events@.len() && malformed(
            #[trigger] cals[c].events@[i]@,
        )
}

/// `t` is the earliest start of any event of the calendars.
pub open spec fn earliest_over(cals: Seq<Calendar>, t: DateTime) -> bool {
    &&& exists|c: int, i: int|
        0 <= c < cals.len() && 0 <= i < cals[c].events@.len() && #[trigger] cals[c].events@[i].start
            == t
    &&& forall|c: int, i: int|
        0 <= c < cals.len() && 0 <= i < cals[c].events@.len() ==> instant(t) <= instant(
            #[trigger] cals[c].events@[i].start,
        )
}

/// `t` is the latest end of any event of the calendars.
pub open spec fn latest_over(cals: Seq<Calendar>, t: DateTime) -> bool {
    &&& exists|c: int, i: int|
        0 <= c < cals.len() && 0 <= i < cals[c].events@.len() && #[trigger] cals[c].events@[i].end
            == t
    &&& forall|c: int, i: int|
        0 <= c < cals.len() && 0 <= i < cals[c].events@.len() ==> instant(
            #[trigger] cals[c].events@[i].end,
        ) <= instant(t)
}

/// The window of a collection: from the earliest start to the latest end of its events; from
/// `now` to thirty days later when it has none.
pub open spec fn is_window(cals: Seq<Calendar>, now: DateTime, ws: DateTime, we: DateTime) -> bool {
    &&& valid_time(ws)
    &&& valid_time(we)
    &&& if has_events(cals) {
        earliest_over(cals, ws) && latest_over(cals, we)
    } else {
        ws == now && we.second == now.second && jd(we.date) == jd(now.date) + 30
    }
}

/// Label of a bucket: a day label for the day index, "{year}-{number}" otherwise.
pub open spec fn label_of(k: BucketKey, daily: bool) -> Seq<char> {
    if daily {
        day_label(k)
    } else {
        month_label(k)
    }
}

pub open spec fn labels_of(b: Seq<Bucket>, daily: bool) -> Seq<Seq<char>> {
    b.map_values(|x: Bucket| label_of(x.key, daily))
}

pub open spec fn previous_label(labels: Seq<Seq<char>>, i: int) -> Option<Seq<char>> {
    if i > 0 {
        Some(labels[i - 1])
    } else {
        None
    }
}

pub open spec fn next_label(labels: Seq<Seq<char>>, i: int) -> Option<Seq<char>> {
    if i + 1 < labels.len() {
        Some(labels[i + 1])
    } else {
        None
    }
}

pub open spec fn opt_view(o: Option<String>) -> Option<Seq<char>> {
    match o {
        Some(s) => Some(s@),
        None => None,
    }
}

/// The handles of `hs` whose event starts on day of the week `n`, in order.
pub open spec fn on_weekday(events: Seq<EventView>, hs: Seq<usize>, n: int) -> Seq<usize>
    decreases hs.len(),
{
    if hs.len() == 0 {
        Seq::empty()
    } else if weekday_from_sunday(events[hs.last() as int].start.date) == n {
        on_weekday(events, hs.drop_last(), n).push(hs.last())
    } else {
        on_weekday(events, hs.drop_last(), n)
    }
}

/// `p` lists the pages of `b` in order, each with the labels of the pages before and after it.
pub open spec fn paginates(p: Seq<Page>, b: Seq<Bucket>, daily: bool) -> bool {
    &&& p.len() == b.len()
    &&& forall|i: int|
        0 <= i < p.len() ==> {
            &&& (#[trigger] p[i]).key == b[i].key
            &&& p[i].events@ == b[i].events@
            &&& p[i].label@ == labels_of(b, daily)[i]
            &&& opt_view(p[i].previous) == previous_label(labels_of(b, daily), i)
            &&& opt_view(p[i].next) == next_label(labels_of(b, daily), i)
        }
}

impl CalendarCollection {
    pub open spec fn event_list(&self) -> Seq<EventView> {
        event_views(self.events@)
    }

    pub open spec fn wf(&self) -> bool {
        &&& all_valid(self.event_list())
        &&& self.events@.len() <= usize::MAX
        &&& self.event_list() == flatten(self.calendars@)
        &&& self.months.built_from(month_keys(self.event_list()))
        &&& self.weeks.built_from(week_keys(self.event_list()))
        &&& self.days.built_from(day_keys(self.event_list()))
    }

    /// Expands every calendar within the collection's window and indexes the resulting events
    /// by month, ISO week and day. `now` seeds the window when no calendar has events.
    pub fn new(calendars: Vec<Calendar>, now: DateTime) -> (r: Result<
        CalendarCollection,
        CalendarError,
    >)
        requires
            all_wf(calendars@),
            valid_time(now),
            jd(now.date) + 30 <= max_jd(),
        ensures
            r is Err <==> any_malformed(calendars@),
            r matches Err(e) ==> e == CalendarError::MalformedRecurrence,
            r matches Ok(c) ==> {
                &&& c.wf()
                &&& is_window(calendars@, now, c.window_start, c.window_end)
                &&& c.calendars@.len() == calendars@.len()
                &&& forall|k: int|
                    0 <= k < calendars@.len() ==> expands_all(
                        event_views(#[trigger] calendars@[k].events@),
                        c.window_start,
                        c.window_end,
                        event_views(c.calendars@[k].events@),
                    )
            },
    {
        let (ws, we) = collection_window(&calendars, now);
        let expanded = expand_calendars(calendars, ws, we);
        let cals = match expanded {
            Ok(v) => v,
            Err(e) => {
                return Err(e);
            },
        };
        let events = flatten_events(&cals);
        let n_events = events.len();
        assert(events@.len() == n_events);
        let (mk, wk, dk) = bucket_keys(&events);
        let months = build_index(&mk);
        let weeks = build_index(&wk);
        let days = build_index(&dk);
        Ok(CalendarCollection {
            calendars: cals,
            events,
            months,
            weeks,
            days,
            window_start: ws,
            window_end: we,
        })
    }

    pub fn calendars(&self) -> (r: &Vec<Calendar>)
        ensures
            r@ == self.calendars@,
    {
        &self.calendars
    }

    pub fn events(&self) -> (r: &Vec<Event>)
        ensures
            r@ == self.events@,
    {
        &self.events
    }

    /// The month pages, in ascending order of month.
    pub fn month_pages(&self) -> (r: Vec<Page>)
        ensures
            paginates(r@, self.months.buckets@, false),
    {
        pages_of(&self.months, false)
    }

    /// The day pages, in ascending order of day.
    pub fn day_pages(&self) -> (r: Vec<Page>)
        ensures
            paginates(r@, self.days.buckets@, true),
    {
        pages_of(&self.days, true)
    }

    /// The week pages, in ascending order of week, each with its seven-day grid; fails when a
    /// week bucket names no week for which a grid exists.
    pub fn week_pages(&self) -> (r: Result<Vec<WeekPage>, CalendarError>)
        requires
            self.wf(),
        ensures
            r is Err <==> exists|i: int|
                0 <= i < self.weeks.buckets@.len() && !week_grid_exists(
                    (#[trigger] self.weeks.buckets@[i]).key.year as int,
                    self.weeks.buckets@[i].key.unit as int,
                ),
            r matches Err(e) ==> e == CalendarError::InvalidWeekDate,
            r matches Ok(p) ==> {
                let b = self.weeks.buckets@;
                &&& p@.len() == b.len()
                &&& forall|i: int|
                    0 <= i < p@.len() ==> {
                        &&& (#[trigger] p@[i]).key == b[i].key
                        &&& p@[i].label@ == week_label(b[i].key)
                        &&& p@[i].month_label@ == month_run_label(month_names(p@[i].days@))
                        &&& opt_view(p@[i].previous) == previous_label(labels_of(b, false), i)
                        &&& opt_view(p@[i].next) == next_label(labels_of(b, false), i)
                        &&& p@[i].days@.len() == 7
                        &&& forall|n: int|
                            0 <= n < 7 ==> {
                                &&& jd((#[trigger] p@[i].days@[n]).date) == crate::date::iso_week_sunday_jd(
                                    b[i].key.year as int,
                                    b[i].key.unit as int,
                                ) + n
                                &&& p@[i].days@[n].events@ == on_weekday(
                                    self.event_list(),
                                    b[i].events@,
                                    n,
                                )
                            }
                    }
            },
    {
        let b = &self.weeks.buckets;
        let mut out: Vec<WeekPage> = Vec::new();
        let mut i: usize = 0;
        while i < b.len()
            invariant
                self.wf(),
                b == &self.weeks.buckets,
                i <= b.len(),
                out@.len() == i,
                forall|j: int|
                    0 <= j < i ==> week_grid_exists(
                        (#[trigger] b@[j]).key.year as int,
                        b@[j].key.unit as int,
                    ),
                forall|j: int|
                    0 <= j < i ==> {
                        &&& (#[trigger] out@[j]).key == b@[j].key
                        &&& out@[j].label@ == week_label(b@[j].key)
                        &&& out@[j].month_label@ == month_run_label(month_names(out@[j].days@))
                        &&& opt_view(out@[j].previous) == previous_label(labels_of(b@, false), j)
                        &&& opt_view(out@[j].next) == next_label(labels_of(b@, false), j)
                        &&& out@[j].days@.len() == 7
                        &&& forall|n: int|
                            0 <= n < 7 ==> {
                                &&& jd((#[trigger] out@[j].days@[n]).date) == crate::date::iso_week_sunday_jd(
                                    b@[j].key.year as int,
                                    b@[j].key.unit as int,
                                ) + n
                                &&& out@[j].days@[n].events@ == on_weekday(
                                    self.event_list(),
                                    b@[j].events@,
                                    n,
                                )
                            }
                    },
            decreases b.len() - i,
        {
            let n_events = self.events.len();
            proof {
                assert(week_keys(self.event_list()).len() == n_events);
                crate::index::lemma_members_bounded(
                    week_keys(self.event_list()),
                    b@[i as int].key,
                    self.events@.len() as int,
                );
                assert(b@[i as int].events@ == members(
                    week_keys(self.event_list()),
                    b@[i as int].key,
                    self.events@.len() as int,
                ));
            }
            let map = self.week_day_map(&b[i].events);
            let key = b[i].key;
            let days = match map.context(key.year, key.unit) {
                Ok(d) => d,
                Err(e) => {
                    return Err(e);
                },
            };
            let month_label = week_month_label(&days);
            let (label, previous, next) = neighbour_labels(b, i, false);
            out.push(WeekPage { key, label, month_label, days, previous, next });
            i = i + 1;
        }
        Ok(out)
    }

    /// The events of one week bucket, placed by the day of the week on which they start.
    fn week_day_map(&self, hs: &Vec<usize>) -> (r: WeekDayMap)
        requires
            self.wf(),
            forall|j: int| 0 <= j < hs@.len() ==> #[trigger] hs@[j] < self.events@.len(),
        ensures
            r.wf(),
            forall|n: int|
                0 <= n < 7 ==> (#[trigger] r.slots@[n])@ == on_weekday(self.event_list(), hs@, n),
    {
        let mut map = WeekDayMap::new();
        let mut j: usize = 0;
        while j < hs.len()
            invariant
                self.wf(),
                map.wf(),
                j <= hs.len(),
                forall|x: int| 0 <= x < hs@.len() ==> #[trigger] hs@[x] < self.events@.len(),
                forall|n: int|
                    0 <= n < 7 ==> (#[trigger] map.slots@[n])@ == on_weekday(
                        self.event_list(),
                        hs@.take(j as int),
                        n,
                    ),
            decreases hs.len() - j,
        {
            let h = hs[j];
            assert(valid_event(self.event_list()[h as int]));
            let wd = self.events[h].weekday();
            map.add(wd, h);
            proof {
                assert(hs@.take(j + 1).drop_last() =~= hs@.take(j as int));
                assert forall|n: int| 0 <= n < 7 implies (#[trigger] map.slots@[n])@ == on_weekday(
                    self.event_list(),
                    hs@.take(j + 1),
                    n,
                ) by {
                    assert(hs@.take(j + 1).last() == h);
                }
            }
            j = j + 1;
        }
        assert(hs@.take(hs.len() as int) =~= hs@);
        map
    }
}

/// The label of bucket `i` and those of its neighbours.
fn neighbour_labels(b: &Vec<Bucket>, i: usize, daily: bool) -> (r: (String, Option<String>, Option<String>))
    requires
        i < b@.len(),
    ensures
        r.0@ == labels_of(b@, daily)[i as int],
        opt_view(r.1) == previous_label(labels_of(b@, daily), i as int),
        opt_view(r.2) == next_label(labels_of(b@, daily), i as int),
{
    let label = bucket_label(b[i].key, daily);
    let previous = if i > 0 {
        Some(bucket_label(b[i - 1].key, daily))
    } else {
        None
    };
    let next = if b.len() - i > 1 {
        Some(bucket_label(b[i + 1].key, daily))
    } else {
        None
    };
    (label, previous, next)
}

fn bucket_label(k: BucketKey, daily: bool) -> (r: String)
    ensures
        r@ == label_of(k, daily),
{
    if daily {
        day_label_text(k)
    } else {
        period_label_text(k)
    }
}

/// The pages of an index, in order, with the labels of their neighbours.
pub fn pages_of(index: &Index, daily: bool) -> (r: Vec<Page>)
    ensures
        paginates(r@, index.buckets@, daily),
{
    let b = &index.buckets;
    let mut out: Vec<Page> = Vec::new();
    let mut i: usize = 0;
    while i < b.len()
        invariant
            b == &index.buckets,
            i <= b.len(),
            out@.len() == i,
            forall|j: int|
                0 <= j < i ==> {
                    &&& (#[trigger] out@[j]).key == b@[j].key
                    &&& out@[j].events@ == b@[j].events@
                    &&& out@[j].label@ == labels_of(b@, daily)[j]
                    &&& opt_view(out@[j].previous) == previous_label(labels_of(b@, daily), j)
                    &&& opt_view(out@[j].next) == next_label(labels_of(b@, daily), j)
                },
        decreases b.len() - i,
    {
        let (label, previous, next) = neighbour_labels(b, i, daily);
        let events = b[i].events.clone();
        assert(events@ =~= b@[i as int].events@);
        out.push(Page { key: b[i].key, label, events, previous, next });
        i = i + 1;
    }
    out
}

/// The window [earliest start, latest end] of all events; [now, now + 30 days] without events.
pub fn collection_window(calendars: &Vec<Calendar>, now: DateTime) -> (r: (DateTime, DateTime))
    requires
        all_wf(calendars@),
        valid_time(now),
        jd(now.date) + 30 <= max_jd(),
    ensures
        is_window(calendars@, now, r.0, r.1),
{
    let mut first: Option<DateTime> = None;
    let mut last: Option<DateTime> = None;
    let mut c: usize = 0;
    let ghost cals = calendars@;
    while c < calendars.len()
        invariant
            cals == calendars@,
            all_wf(cals),
            c <= cals.len(),
            first is None <==> !has_events(cals.take(c as int)),
            last is None <==> !has_events(cals.take(c as int)),
            first matches Some(t) ==> valid_time(t) && earliest_over(cals.take(c as int), t),
            last matches Some(t) ==> valid_time(t) && latest_over(cals.take(c as int), t),
        decreases cals.len() - c,
    {
        let ghost pre = cals.take(c as int);
        let ghost post = cals.take(c + 1);
        assert(post[c as int] == cals[c as int]);
        assert forall|k: int| 0 <= k < c implies #[trigger] post[k] == pre[k] by {}
        let cal = &calendars[c];
        assert(cal.wf());
        let s = cal.start();
        let e = cal.end();
        proof {
            if has_events(post) {
                let k = choose|k: int| 0 <= k < post.len() && (#[trigger] post[k]).events@.len() > 0;
                if k < c {
                    assert(pre[k].events@.len() > 0);
                }
            }
            if has_events(pre) {
                let k = choose|k: int| 0 <= k < pre.len() && (#[trigger] pre[k]).events@.len() > 0;
                assert(post[k].events@.len() > 0);
            }
        }
        match s {
            Some(t) => {
                let keep = match first {
                    Some(f) => not_after(f, t),
                    None => false,
                };
                proof {
                    let i0 = choose|i: int| 0 <= i < cal.events@.len() && event_views(cal.events@)[i].start == t;
                    assert(valid_event(event_views(cal.events@)[i0]));
                }
                if !keep {
                    first = Some(t);
                }
                proof {
                    let f = first->0;
                    assert(earliest_over(post, f)) by {
                        assert forall|k: int, i: int|
                            0 <= k < post.len() && 0 <= i < post[k].events@.len() implies instant(f)
                            <= instant(#[trigger] post[k].events@[i].start) by {
                            if k == c {
                                assert(event_views(cal.events@)[i].start == post[k].events@[i].start);
                            } else {
                                assert(post[k] == pre[k]);
                            }
                        }
                        if keep {
                            let (k, i) = choose|k: int, i: int|
                                0 <= k < pre.len() && 0 <= i < pre[k].events@.len()
                                    && #[trigger] pre[k].events@[i].start == f;
                            assert(post[k] == pre[k]);
                            assert(post[k].events@[i].start == f);
                        } else {
                            let i = choose|i: int|
                                0 <= i < cal.events@.len() && event_views(cal.events@)[i].start
                                    == t;
                            assert(post[c as int].events@[i].start == f);
                        }
                    }
                }
            },
            None => {
                proof {
                    if first is Some {
                        let f = first->0;
                        assert forall|k: int, i: int|
                            0 <= k < post.len() && 0 <= i < post[k].events@.len() implies instant(f)
                            <= instant(#[trigger] post[k].events@[i].start) by {
                            assert(post[k] == pre[k]);
                        }
                        let (k, i) = choose|k: int, i: int|
                            0 <= k < pre.len() && 0 <= i < pre[k].events@.len()
                                && #[trigger] pre[k].events@[i].start == f;
                        assert(post[k] == pre[k]);
                        assert(post[k].events@[i].start == f);
                    }
                }
            },
        }
        match e {
            Some(t) => {
                let keep = match last {
                    Some(l) => not_after(t, l),
                    None => false,
                };
                proof {
                    let i0 = choose|i: int| 0 <= i < cal.events@.len() && event_views(cal.events@)[i].end == t;
                    assert(valid_event(event_views(cal.events@)[i0]));
                }
                if !keep {
                    last = Some(t);
                }
                proof {
                    let l = last->0;
                    assert(latest_over(post, l)) by {
                        assert forall|k: int, i: int|
                            0 <= k < post.len() && 0 <= i < post[k].events@.len() implies instant(
                                #[trigger] post[k].events@[i].end,
                            ) <= instant(l) by {
                            if k == c {
                                assert(event_views(cal.events@)[i].end == post[k].events@[i].end);
                            } else {
                                assert(post[k] == pre[k]);
                            }
                        }
                        if keep {
                            let (k, i) = choose|k: int, i: int|
                                0 <= k < pre.len() && 0 <= i < pre[k].events@.len()
                                    && #[trigger] pre[k].events@[i].end == l;
                            assert(post[k] == pre[k]);
                            assert(post[k].events@[i].end == l);
                        } else {
                            let i = choose|i: int|
                                0 <= i < cal.events@.len() && event_views(cal.events@)[i].end
                                    == t;
                            assert(post[c as int].events@[i].end == l);
                        }
                    }
                }
            },
            None => {
                proof {
                    if last is Some {
                        let l = last->0;
                        assert forall|k: int, i: int|
                            0 <= k < post.len() && 0 <= i < post[k].events@.len() implies instant(
                                #[trigger] post[k].events@[i].end,
                            ) <= instant(l) by {
                            assert(post[k] == pre[k]);
                        }
                        let (k, i) = choose|k: int, i: int|
                            0 <= k < pre.len() && 0 <= i < pre[k].events@.len()
                                && #[trigger] pre[k].events@[i].end == l;
                        assert(post[k] == pre[k]);
                        assert(post[k].events@[i].end == l);
                    }
                }
            },
        }
        c = c + 1;
    }
    assert(cals.take(c as int) =~= cals);
    match (first, last) {
        (Some(f), Some(l)) => (f, l),
        _ => {
            proof {
                lemma_jd_bounds();
            }
            let j = julian_day(now.date);
            let later = match date_from_julian_day(j + 30) {
                Some(d) => d,
                None => {
                    assert(false);
                    now.date
                },
            };
            (now, DateTime { date: later, second: now.second })
        },
    }
}

/// Whether the date thirty days after `now` can be represented, as `new` asks of `now`.
pub fn default_window_fits(now: DateTime) -> (r: bool)
    requires
        valid_time(now),
    ensures
        r == (jd(now.date) + 30 <= max_jd()),
{
    proof {
        lemma_jd_bounds();
    }
    julian_day(now.date) <= 5373484 - 30
}

/// Expands the events of every calendar within [ws, we]; fails on the first malformed rule.
#[verifier::loop_isolation(false)]
pub fn expand_calendars(mut calendars: Vec<Calendar>, ws: DateTime, we: DateTime) -> (r: Result<
    Vec<Calendar>,
    CalendarError,
>)
    requires
        all_wf(calendars@),
        valid_time(ws),
        valid_time(we),
    ensures
        r is Err <==> any_malformed(calendars@),
        r matches Err(e) ==> e == CalendarError::MalformedRecurrence,
        r matches Ok(v) ==> v@.len() == calendars@.len() && all_wf(v@) && forall|k: int|
            0 <= k < v@.len() ==> expands_all(
                event_views(#[trigger] calendars@[k].events@),
                ws,
                we,
                event_views(v@[k].events@),
            ),
{
    let ghost src = calendars@;
    let mut c: usize = 0;
    while c < calendars.len()
        invariant
            calendars@.len() == src.len(),
            c <= calendars@.len(),
            valid_time(ws),
            valid_time(we),
            all_wf(calendars@),
            forall|k: int| c <= k < src.len() ==> #[trigger] calendars@[k] == src[k],
            forall|k: int|
                0 <= k < c ==> expands_all(
                    event_views(#[trigger] src[k].events@),
                    ws,
                    we,
                    event_views(calendars@[k].events@),
                ),
            forall|k: int, i: int|
                0 <= k < c && 0 <= i < src[k].events@.len() ==> !malformed(
                    #[trigger] src[k].events@[i]@,
                ),
        decreases src.len() - c,
    {
        let ghost before = calendars@;
        let mut cal = calendars.remove(c);
        assert(cal == src[c as int]);
        let ghost cal0 = cal;
        let res = cal.expand_recurrences(ws, we);
        match res {
            Err(e) => {
                proof {
                    let i = choose|i: int|
                        0 <= i < cal0.events@.len() && malformed(#[trigger] cal0.events@[i]@);
                    assert(src[c as int].events@[i] == cal0.events@[i]);
                    assert(malformed(src[c as int].events@[i]@));
                    assert(any_malformed(src));
                }
                return Err(e);
            },
            Ok(()) => {},
        }
        calendars.insert(c, cal);
        proof {
            assert forall|k: int| 0 <= k < calendars@.len() && k != c implies #[trigger] calendars@[k]
                == before[k] by {}
        }
        c = c + 1;
    }
    assert(!any_malformed(src));
    Ok(calendars)
}

/// All events of the calendars, calendar after calendar.
pub fn flatten_events(cals: &Vec<Calendar>) -> (r: Vec<Event>)
    requires
        all_wf(cals@),
    ensures
        event_views(r@) == flatten(cals@),
        all_valid(event_views(r@)),
{
    let mut out: Vec<Event> = Vec::new();
    let mut c: usize = 0;
    while c < cals.len()
        invariant
            c <= cals@.len(),
            all_wf(cals@),
            event_views(out@) == flatten(cals@.take(c as int)),
            all_valid(event_views(out@)),
        decreases cals@.len() - c,
    {
        let evs = &cals[c].events;
        let ghost base = event_views(out@);
        assert(cals@[c as int].wf());
        let mut i: usize = 0;
        while i < evs.len()
            invariant
                evs == &cals@[c as int].events,
                cals@[c as int].wf(),
                i <= evs@.len(),
                event_views(out@) == base + event_views(evs@).take(i as int),
                all_valid(base),
                all_valid(event_views(out@)),
            decreases evs@.len() - i,
        {
            let ghost prev = event_views(out@);
            out.push(evs[i].duplicate());
            assert(event_views(out@) =~= prev.push(evs@[i as int]@));
            assert(event_views(out@) =~= base + event_views(evs@).take(i + 1));
            assert(valid_event(event_views(evs@)[i as int]));
            assert forall|j: int| 0 <= j < event_views(out@).len() implies valid_event(
                #[trigger] event_views(out@)[j],
            ) by {
                if j < prev.len() {
                    assert(event_views(out@)[j] == prev[j]);
                }
            }
            i = i + 1;
        }
        assert(event_views(evs@).take(evs@.len() as int) =~= event_views(evs@));
        assert(cals@.take(c + 1).drop_last() =~= cals@.take(c as int));
        assert(cals@.take(c + 1).last() == cals@[c as int]);
        c = c + 1;
    }
    assert(cals@.take(cals@.len() as int) =~= cals@);
    out
}

/// The month, week and day keys of each event.
pub fn bucket_keys(events: &Vec<Event>) -> (r: (Vec<BucketKey>, Vec<BucketKey>, Vec<BucketKey>))
    requires
        all_valid(event_views(events@)),
    ensures
        r.0@ == month_keys(event_views(events@)),
        r.1@ == week_keys(event_views(events@)),
        r.2@ == day_keys(event_views(events@)),
{
    let ghost s = event_views(events@);
    let mut mk: Vec<BucketKey> = Vec::new();
    let mut wk: Vec<BucketKey> = Vec::new();
    let mut dk: Vec<BucketKey> = Vec::new();
    let mut i: usize = 0;
    while i < events.len()
        invariant
            s == event_views(events@),
            all_valid(s),
            i <= events@.len(),
            mk@ == month_keys(s).take(i as int),
            wk@ == week_keys(s).take(i as int),
            dk@ == day_keys(s).take(i as int),
        decreases events@.len() - i,
    {
        let e = &events[i];
        assert(valid_event(s[i as int]));
        let d = e.start.date;
        mk.push(BucketKey { year: d.year, unit: d.month, day: 0 });
        wk.push(BucketKey { year: d.year, unit: e.week(), day: 0 });
        dk.push(BucketKey { year: d.year, unit: d.month, day: d.day });
        assert(mk@ =~= month_keys(s).take(i + 1));
        assert(wk@ =~= week_keys(s).take(i + 1));
        assert(dk@ =~= day_keys(s).take(i + 1));
        i = i + 1;
    }
    assert(month_keys(s).take(i as int) =~= month_keys(s));
    assert(week_keys(s).take(i as int) =~= week_keys(s));
    assert(day_keys(s).take(i as int) =~= day_keys(s));
    (mk, wk, dk)
}

} // verus!
